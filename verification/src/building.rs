use crate::errors::BuildingError;
use crate::individual::Individual;
use vstd::prelude::*;

verus! {

/// How far an infected individual reaches inside a building.
///
/// The places of a building form a grid, filled row by row in the order of
/// arrival.
#[derive(Hash, Debug, Copy, Clone, PartialEq, Eq, Structural, PartialOrd, Ord)]
pub enum Spreading {
    /// Everybody in the building.
    Everyone,
    /// The up to eight places around, diagonals included.
    OneNear,
    /// The up to four places that share a side.
    OneVeryNear,
}

impl Default for Spreading {
    fn default() -> (r: Spreading)
        ensures
            r == Spreading::OneNear,
    {
        Spreading::OneNear
    }
}

/// Distance between two non-negative numbers.
pub open spec fn gap(a: int, b: int) -> int {
    if a <= b {
        b - a
    } else {
        a - b
    }
}

/// Whether the place `from` reaches the place `to` in a grid of `cols`
/// columns, places numbered row by row.
pub open spec fn reaches(mode: Spreading, cols: int, from: int, to: int) -> bool {
    let rows_apart = gap(from / cols, to / cols);
    let cols_apart = gap(from % cols, to % cols);
    match mode {
        Spreading::Everyone => from != to,
        Spreading::OneNear => from != to && rows_apart <= 1 && cols_apart <= 1,
        Spreading::OneVeryNear => rows_apart + cols_apart == 1,
    }
}

/// Whether some infected individual of `s` reaches the place `k`.
pub open spec fn exposed(mode: Spreading, cols: int, s: Seq<Individual>, k: int) -> bool {
    exists|j: int| 0 <= j < s.len() && #[trigger] s[j].is_infected() && reaches(mode, cols, j, k)
}

/// The state after one day inside of the individual at place `k`: a healthy
/// one is infected exactly if it is exposed, every other one ages as at home.
pub open spec fn day_inside(mode: Spreading, cols: int, s: Seq<Individual>, k: int) -> Individual {
    if s[k] == Individual::Healthy {
        if exposed(mode, cols, s, k) {
            Individual::Infected1
        } else {
            Individual::Healthy
        }
    } else {
        s[k].aged()
    }
}

/// The occupants after one day inside, all places judged on the state of the
/// day before.
pub open spec fn spread(mode: Spreading, cols: int, s: Seq<Individual>) -> Seq<Individual> {
    Seq::new(s.len(), |k: int| day_inside(mode, cols, s, k))
}

/// What a building is, in plain values.
pub ghost struct BuildingView {
    pub name: Seq<char>,
    pub cols: nat,
    pub rows: nat,
    pub occupants: Seq<Individual>,
    pub open: bool,
    pub spreading: Spreading,
}

/// A named place with a grid of `cols` by `rows` places, which individuals
/// visit during a day while it is open.
#[derive(Debug, PartialEq, Eq)]
pub struct Building {
    name: String,
    cols: usize,
    rows: usize,
    occupants: Vec<Individual>,
    open: bool,
    spreading: Spreading,
}

impl View for Building {
    type V = BuildingView;

    closed spec fn view(&self) -> BuildingView {
        BuildingView {
            name: self.name@,
            cols: self.cols as nat,
            rows: self.rows as nat,
            occupants: self.occupants@,
            open: self.open,
            spreading: self.spreading,
        }
    }
}

impl BuildingView {
    /// Number of places.
    pub open spec fn capacity(self) -> nat {
        self.cols * self.rows
    }

    /// No occupant beyond the places, and the number of places is a `usize`.
    pub open spec fn wf(self) -> bool {
        self.occupants.len() <= self.capacity() <= usize::MAX
    }

    /// The same building with other occupants.
    pub open spec fn with_occupants(self, occupants: Seq<Individual>) -> BuildingView {
        BuildingView { occupants, ..self }
    }

    /// The same building, open or closed as said.
    pub open spec fn with_open(self, open: bool) -> BuildingView {
        BuildingView { open, ..self }
    }

    /// The same building with another spreading mode.
    pub open spec fn with_spreading(self, spreading: Spreading) -> BuildingView {
        BuildingView { spreading, ..self }
    }
}

/// The views of a list of buildings.
pub open spec fn views_of(buildings: Seq<Building>) -> Seq<BuildingView> {
    Seq::new(buildings.len(), |i: int| buildings[i]@)
}

/// Whether `from` reaches `to`, computed.
fn reaches_place(mode: Spreading, cols: usize, from: usize, to: usize) -> (r: bool)
    requires
        cols > 0,
    ensures
        r == reaches(mode, cols as int, from as int, to as int),
{
    let from_row: usize = from / cols;
    let to_row: usize = to / cols;
    let from_col: usize = from % cols;
    let to_col: usize = to % cols;
    let rows_apart: usize = if from_row <= to_row {
        to_row - from_row
    } else {
        from_row - to_row
    };
    let cols_apart: usize = if from_col <= to_col {
        to_col - from_col
    } else {
        from_col - to_col
    };
    match mode {
        Spreading::Everyone => from != to,
        Spreading::OneNear => from != to && rows_apart <= 1 && cols_apart <= 1,
        Spreading::OneVeryNear => (rows_apart == 0 && cols_apart == 1) || (rows_apart == 1
            && cols_apart == 0),
    }
}

/// Whether some infected individual of `s` reaches the place `k`, computed.
fn is_exposed(mode: Spreading, cols: usize, s: &Vec<Individual>, k: usize) -> (r: bool)
    requires
        cols > 0,
    ensures
        r == exposed(mode, cols as int, s@, k as int),
{
    let mut j: usize = 0;
    while j < s.len()
        invariant
            j <= s.len(),
            cols > 0,
            forall|i: int|
                0 <= i < j ==> !(#[trigger] s@[i].is_infected() && reaches(
                    mode,
                    cols as int,
                    i,
                    k as int,
                )),
        decreases s.len() - j,
    {
        let here = s[j];
        let infected = match here {
            Individual::Infected1 | Individual::Infected2 | Individual::Infected3 => true,
            _ => false,
        };
        if infected && reaches_place(mode, cols, j, k) {
            assert(s@[j as int].is_infected() && reaches(mode, cols as int, j as int, k as int));
            return true;
        }
        j += 1;
    }
    false
}

impl Building {
    /// An empty, open building of `cols` by `rows` places with the default
    /// spreading mode.
    pub fn new(cols: usize, rows: usize, name: &str) -> (r: Building)
        requires
            cols * rows <= usize::MAX,
        ensures
            r@ == (BuildingView {
                name: name@,
                cols: cols as nat,
                rows: rows as nat,
                occupants: Seq::empty(),
                open: true,
                spreading: Spreading::OneNear,
            }),
            r@.wf(),
    {
        Building {
            name: name.to_owned(),
            cols,
            rows,
            occupants: Vec::new(),
            open: true,
            spreading: Spreading::OneNear,
        }
    }

    /// An open building that already holds `occupants`, whatever their state,
    /// in the order of their places.
    pub fn unchecked_from(cols: usize, rows: usize, name: &str, occupants: Vec<Individual>) -> (r:
        Building)
        requires
            occupants@.len() <= cols * rows <= usize::MAX,
        ensures
            r@ == (BuildingView {
                name: name@,
                cols: cols as nat,
                rows: rows as nat,
                occupants: occupants@,
                open: true,
                spreading: Spreading::OneNear,
            }),
            r@.wf(),
    {
        Building {
            name: name.to_owned(),
            cols,
            rows,
            occupants,
            open: true,
            spreading: Spreading::OneNear,
        }
    }

    /// An independent copy.
    pub fn duplicate(&self) -> (r: Building)
        ensures
            r@ == self@,
    {
        let mut occupants: Vec<Individual> = Vec::new();
        let mut i: usize = 0;
        while i < self.occupants.len()
            invariant
                i <= self.occupants.len(),
                occupants@ == self.occupants@.take(i as int),
            decreases self.occupants.len() - i,
        {
            occupants.push(self.occupants[i]);
            assert(self.occupants@.take(i + 1) =~= self.occupants@.take(i as int).push(
                self.occupants@[i as int],
            ));
            i += 1;
        }
        assert(self.occupants@.take(i as int) =~= self.occupants@);
        Building {
            name: self.name.clone(),
            cols: self.cols,
            rows: self.rows,
            occupants,
            open: self.open,
            spreading: self.spreading,
        }
    }

    /// Number of places.
    pub fn capacity(&self) -> (r: usize)
        requires
            self@.wf(),
        ensures
            r == self@.capacity(),
    {
        self.cols * self.rows
    }

    /// True where every place is taken.
    pub fn is_full(&self) -> (r: bool)
        requires
            self@.wf(),
        ensures
            r == (self@.occupants.len() == self@.capacity()),
    {
        self.occupants.len() >= self.cols * self.rows
    }

    /// True where the building lets visitors in.
    pub fn is_open(&self) -> (r: bool)
        ensures
            r == self@.open,
    {
        self.open
    }

    /// The building's name.
    pub fn name(&self) -> (r: &str)
        ensures
            r@ == self@.name,
    {
        self.name.as_str()
    }

    /// The individuals inside, in the order of their places.
    pub fn occupants(&self) -> (r: &Vec<Individual>)
        ensures
            r@ == self@.occupants,
    {
        &self.occupants
    }

    /// The spreading mode.
    pub fn spreading(&self) -> (r: &Spreading)
        ensures
            *r == self@.spreading,
    {
        &self.spreading
    }

    /// Changes the spreading mode.
    pub fn set_spreading(&mut self, new_spreading: Spreading)
        ensures
            final(self)@ == old(self)@.with_spreading(new_spreading),
    {
        self.spreading = new_spreading;
    }

    /// Opens a closed building and closes an open one.
    pub fn toggle(&mut self)
        ensures
            final(self)@ == old(self)@.with_open(!old(self)@.open),
    {
        self.open = !self.open;
    }

    /// Opens the building.
    pub fn open(&mut self)
        ensures
            final(self)@ == old(self)@.with_open(true),
    {
        self.open = true;
    }

    /// Closes the building.
    pub fn close(&mut self)
        ensures
            final(self)@ == old(self)@.with_open(false),
    {
        self.open = false;
    }

    /// Lets `individual` in, on the next free place.
    ///
    /// Fails, and changes nothing, where the building is full, and else where
    /// the individual is sick.
    pub fn try_push(&mut self, individual: Individual) -> (r: Result<(), BuildingError>)
        requires
            old(self)@.wf(),
        ensures
            final(self)@.wf(),
            r == if old(self)@.occupants.len() == old(self)@.capacity() {
                Err::<(), BuildingError>(BuildingError::Full)
            } else if individual == Individual::Sick {
                Err::<(), BuildingError>(BuildingError::Sick)
            } else {
                Ok::<(), BuildingError>(())
            },
            r.is_ok() ==> final(self)@ == old(self)@.with_occupants(
                old(self)@.occupants.push(individual),
            ),
            r.is_err() ==> final(self)@ == old(self)@,
    {
        if self.is_full() {
            Err(BuildingError::Full)
        } else if individual == Individual::Sick {
            Err(BuildingError::Sick)
        } else {
            self.occupants.push(individual);
            Ok(())
        }
    }

    /// One day inside: every healthy occupant that an infected one reaches is
    /// infected, and every other occupant ages by a day.
    pub fn propagate(&mut self)
        requires
            old(self)@.wf(),
        ensures
            final(self)@ == old(self)@.with_occupants(
                spread(old(self)@.spreading, old(self)@.cols as int, old(self)@.occupants),
            ),
            final(self)@.wf(),
    {
        let mut after: Vec<Individual> = Vec::new();
        let mut k: usize = 0;
        while k < self.occupants.len()
            invariant
                k <= self.occupants.len(),
                self@.wf(),
                after@.len() == k,
                forall|i: int|
                    0 <= i < k ==> #[trigger] after@[i] == day_inside(
                        self.spreading,
                        self.cols as int,
                        self.occupants@,
                        i,
                    ),
            decreases self.occupants.len() - k,
        {
            assert(self.cols > 0) by (nonlinear_arith)
                requires
                    k < self.cols * self.rows,
            ;
            let here = self.occupants[k];
            let next = if here == Individual::Healthy {
                if is_exposed(self.spreading, self.cols, &self.occupants, k) {
                    Individual::Infected1
                } else {
                    Individual::Healthy
                }
            } else {
                here.next_day()
            };
            after.push(next);
            k += 1;
        }
        assert(after@ =~= spread(self.spreading, self.cols as int, self.occupants@));
        self.occupants = after;
    }

    /// Sends everybody out: returns the occupants in the order of their places
    /// and leaves the building empty.
    pub fn empty(&mut self) -> (r: Vec<Individual>)
        ensures
            r@ == old(self)@.occupants,
            final(self)@ == old(self)@.with_occupants(Seq::empty()),
    {
        let mut out: Vec<Individual> = Vec::new();
        out.append(&mut self.occupants);
        out
    }
}

impl Clone for Building {
    fn clone(&self) -> (r: Building)
        ensures
            r@ == self@,
    {
        self.duplicate()
    }
}

/// Step-by-step description of a building.
#[derive(Debug, PartialEq, Eq)]
pub struct BuildingBuilder {
    name: String,
    cols: usize,
    rows: usize,
    open: bool,
    spreading: Spreading,
}

impl BuildingBuilder {
    /// What `build` will give, but for the occupants.
    pub closed spec fn plan(&self) -> BuildingView {
        BuildingView {
            name: self.name@,
            cols: self.cols as nat,
            rows: self.rows as nat,
            occupants: Seq::empty(),
            open: self.open,
            spreading: self.spreading,
        }
    }

    /// Starts the description of an open building without places, with the
    /// default spreading mode.
    pub fn new(name: &str) -> (r: BuildingBuilder)
        ensures
            r.plan() == (BuildingView {
                name: name@,
                cols: 0,
                rows: 0,
                occupants: Seq::empty(),
                open: true,
                spreading: Spreading::OneNear,
            }),
    {
        BuildingBuilder {
            name: name.to_owned(),
            cols: 0,
            rows: 0,
            open: true,
            spreading: Spreading::OneNear,
        }
    }

    /// Sets the grid to `cols` by `rows` places.
    pub fn with_size(self, cols: usize, rows: usize) -> (r: BuildingBuilder)
        ensures
            r.plan() == (BuildingView { cols: cols as nat, rows: rows as nat, ..self.plan() }),
    {
        BuildingBuilder { cols, rows, ..self }
    }

    /// Sets the spreading mode.
    pub fn with_spreading(self, spreading: Spreading) -> (r: BuildingBuilder)
        ensures
            r.plan() == self.plan().with_spreading(spreading),
    {
        BuildingBuilder { spreading, ..self }
    }

    /// The building starts open.
    pub fn and_is_open(self) -> (r: BuildingBuilder)
        ensures
            r.plan() == self.plan().with_open(true),
    {
        BuildingBuilder { open: true, ..self }
    }

    /// The building starts closed.
    pub fn and_is_closed(self) -> (r: BuildingBuilder)
        ensures
            r.plan() == self.plan().with_open(false),
    {
        BuildingBuilder { open: false, ..self }
    }

    /// The empty building as described.
    pub fn build(self) -> (r: Building)
        requires
            self.plan().cols * self.plan().rows <= usize::MAX,
        ensures
            r@ == self.plan(),
            r@.wf(),
    {
        Building {
            name: self.name,
            cols: self.cols,
            rows: self.rows,
            occupants: Vec::new(),
            open: self.open,
            spreading: self.spreading,
        }
    }
}

} // verus!
