pub use crate::board::{Board, BoardBuilder};
pub use crate::building::{Building, BuildingBuilder, Spreading};
pub use crate::errors::{ActionError, BuildingError};
pub use crate::individual::Individual;
pub use crate::population::Population;
pub use crate::recording::{CountingTable, Recording};
pub use crate::simulation::{Report, ReportPlan, Simulation, SimulationBuilder};
