//! Day-by-day spread of an infection through a population that visits a
//! fixed set of capacity-bounded buildings, with replication of whole runs
//! and per-day statistics over the replicates.

/// Recoverable errors of the crate.
pub mod errors;
/// Health states an individual can be in.
pub mod individual;
/// The individuals of one day, with a without-replacement draw.
pub mod population;
/// Locations that individuals visit.
pub mod building;
/// History of per-day counts.
pub mod recording;
/// What one day does, as mathematics: the turns of the buildings, the
/// contagion, the return home, and what holds of them.
pub mod model;
/// How long an infection can go on.
pub mod outbreak;
/// Population and buildings together: the daily cycle.
pub mod board;
/// Replication of a board and views over the collected histories.
pub mod simulation;
/// The names most callers need.
pub mod prelude;

pub use board::Board;
pub use building::{Building, BuildingBuilder};
pub use individual::Individual;
pub use population::Population;
pub use recording::Recording;
pub use simulation::{Simulation, SimulationBuilder};
