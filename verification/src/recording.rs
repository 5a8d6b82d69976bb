use crate::building::{views_of, Building, BuildingView, Spreading};
use crate::errors::ActionError;
use crate::individual::{Individual, STATES};
use crate::population::{count_of, lemma_counts_total, Population};
use vstd::prelude::*;

verus! {

/// The table that a list of pairs describes: each state with the series of
/// the last pair that names it.
pub open spec fn table_of(pairs: Seq<(Individual, Vec<usize>)>) -> Map<Individual, Seq<usize>>
    decreases pairs.len(),
{
    if pairs.len() == 0 {
        Map::empty()
    } else {
        table_of(pairs.drop_last()).insert(pairs.last().0, pairs.last().1@)
    }
}

/// Length of the series of the first state from rank `r` on that the table
/// holds; 0 where it holds none.
pub open spec fn days_from(table: Map<Individual, Seq<usize>>, r: nat) -> nat
    decreases STATES - r,
{
    if r >= STATES {
        0
    } else if table.contains_key(Individual::of_rank(r)) {
        table[Individual::of_rank(r)].len()
    } else {
        days_from(table, r + 1)
    }
}

/// Number of open buildings.
pub open spec fn open_count(buildings: Seq<BuildingView>) -> nat
    decreases buildings.len(),
{
    if buildings.len() == 0 {
        0
    } else {
        open_count(buildings.drop_last()) + if buildings.last().open {
            1nat
        } else {
            0nat
        }
    }
}

/// A copy of `v`.
fn copy_counts(v: &Vec<usize>) -> (r: Vec<usize>)
    ensures
        r@ == v@,
{
    let mut out: Vec<usize> = Vec::new();
    let mut i: usize = 0;
    while i < v.len()
        invariant
            i <= v.len(),
            out@ == v@.take(i as int),
        decreases v.len() - i,
    {
        out.push(v[i]);
        assert(v@.take(i + 1) =~= v@.take(i as int).push(v@[i as int]));
        i += 1;
    }
    assert(v@.take(i as int) =~= v@);
    out
}

/// For each health state, the number of individuals in it day by day.
///
/// A state may be absent from the table.
#[derive(Debug, Clone, PartialEq, Eq)]
pub struct CountingTable {
    inner: Vec<Option<Vec<usize>>>,
}

impl View for CountingTable {
    type V = Map<Individual, Seq<usize>>;

    closed spec fn view(&self) -> Map<Individual, Seq<usize>> {
        Map::new(
            |s: Individual| self.inner@[s.rank() as int].is_some(),
            |s: Individual| self.inner@[s.rank() as int].unwrap()@,
        )
    }
}

impl CountingTable {
    /// The table has a slot for each state.
    pub closed spec fn wf(&self) -> bool {
        self.inner@.len() == STATES
    }

    /// Number of days of the table: the length of the series of the first
    /// state, in the order of progression, that the table holds.
    pub open spec fn spec_days(&self) -> nat {
        days_from(self@, 0)
    }

    /// A table that holds no state.
    pub fn new() -> (r: CountingTable)
        ensures
            r.wf(),
            r@ == Map::<Individual, Seq<usize>>::empty(),
    {
        let mut inner: Vec<Option<Vec<usize>>> = Vec::new();
        let mut k: usize = 0;
        while k < STATES
            invariant
                k <= STATES,
                inner@.len() == k,
                forall|j: int| 0 <= j < k ==> inner@[j].is_none(),
            decreases STATES - k,
        {
            inner.push(None);
            k += 1;
        }
        let r = CountingTable { inner };
        assert(r@ =~= Map::<Individual, Seq<usize>>::empty());
        r
    }

    /// The table that `pairs` describes; of two pairs for one state the later
    /// one counts.
    pub fn from_pairs(pairs: &Vec<(Individual, Vec<usize>)>) -> (r: CountingTable)
        ensures
            r.wf(),
            r@ == table_of(pairs@),
    {
        let mut table = CountingTable::new();
        let mut k: usize = 0;
        assert(pairs@.take(0) =~= Seq::empty());
        while k < pairs.len()
            invariant
                k <= pairs.len(),
                table.wf(),
                table@ == table_of(pairs@.take(k as int)),
            decreases pairs.len() - k,
        {
            let state = pairs[k].0;
            let series = copy_counts(&pairs[k].1);
            assert(pairs@.take(k + 1).drop_last() =~= pairs@.take(k as int));
            table.insert(state, series);
            k += 1;
        }
        assert(pairs@.take(k as int) =~= pairs@);
        table
    }

    /// Sets the series of `state`, in place of the one it had, if any.
    pub fn insert(&mut self, state: Individual, series: Vec<usize>)
        requires
            old(self).wf(),
        ensures
            final(self).wf(),
            final(self)@ == old(self)@.insert(state, series@),
    {
        self.inner.set(state.index(), Some(series));
        assert(self@ =~= old(self)@.insert(state, series@));
    }

    /// The series of `state`, if the table holds one.
    pub fn get(&self, state: Individual) -> (r: Option<&Vec<usize>>)
        requires
            self.wf(),
        ensures
            r.is_some() == self@.contains_key(state),
            r.is_some() ==> r.unwrap()@ == self@[state],
    {
        match &self.inner[state.index()] {
            Some(series) => Some(series),
            None => None,
        }
    }

    /// Number of days of the table.
    pub fn days(&self) -> (r: usize)
        requires
            self.wf(),
        ensures
            r == self.spec_days(),
    {
        let mut k: usize = 0;
        while k < STATES
            invariant
                k <= STATES,
                self.wf(),
                days_from(self@, 0) == days_from(self@, k as nat),
            decreases STATES - k,
        {
            match &self.inner[k] {
                Some(series) => {
                    return series.len();
                },
                None => {},
            }
            k += 1;
        }
        0
    }

    /// An independent copy.
    pub fn duplicate(&self) -> (r: CountingTable)
        requires
            self.wf(),
        ensures
            r.wf(),
            r@ == self@,
    {
        let mut inner: Vec<Option<Vec<usize>>> = Vec::new();
        let mut k: usize = 0;
        while k < STATES
            invariant
                k <= STATES,
                self.wf(),
                inner@.len() == k,
                forall|j: int|
                    0 <= j < k ==> inner@[j].is_some() == self.inner@[j].is_some() && (
                    inner@[j].is_some() ==> inner@[j].unwrap()@ == self.inner@[j].unwrap()@),
            decreases STATES - k,
        {
            match &self.inner[k] {
                Some(series) => {
                    inner.push(Some(copy_counts(series)));
                },
                None => {
                    inner.push(None);
                },
            }
            k += 1;
        }
        let r = CountingTable { inner };
        assert(r@ =~= self@);
        r
    }

    /// Last count of `state`.
    fn last(&self, state: Individual) -> (r: usize)
        requires
            self.wf(),
            self@.contains_key(state),
            self@[state].len() > 0,
        ensures
            r == self@[state].last(),
    {
        match &self.inner[state.index()] {
            Some(series) => series[series.len() - 1],
            None => 0,
        }
    }

    /// Appends `count` to the series of `state`.
    fn push_count(&mut self, state: Individual, count: usize)
        requires
            old(self).wf(),
            old(self)@.contains_key(state),
        ensures
            final(self).wf(),
            final(self)@ == old(self)@.insert(state, old(self)@[state].push(count)),
    {
        match &mut self.inner[state.index()] {
            Some(series) => {
                series.push(count);
            },
            None => {},
        }
        assert(self@ =~= old(self)@.insert(state, old(self)@[state].push(count)));
    }

    /// Replaces the last count of `state` by `count`.
    fn set_last(&mut self, state: Individual, count: usize)
        requires
            old(self).wf(),
            old(self)@.contains_key(state),
            old(self)@[state].len() > 0,
        ensures
            final(self).wf(),
            final(self)@ == old(self)@.insert(
                state,
                old(self)@[state].update(old(self)@[state].len() - 1, count),
            ),
    {
        match &mut self.inner[state.index()] {
            Some(series) => {
                let n = series.len();
                series.set(n - 1, count);
            },
            None => {},
        }
        assert(self@ =~= old(self)@.insert(
            state,
            old(self)@[state].update(old(self)@[state].len() - 1, count),
        ));
    }
}

impl From<Vec<(Individual, Vec<usize>)>> for CountingTable {
    /// The table that `pairs` describes; of two pairs for one state the later
    /// one counts.
    fn from(pairs: Vec<(Individual, Vec<usize>)>) -> (r: CountingTable)
        ensures
            r.wf(),
            r@ == table_of(pairs@),
    {
        CountingTable::from_pairs(&pairs)
    }
}

impl vstd::std_specs::convert::FromSpecImpl<Vec<(Individual, Vec<usize>)>> for CountingTable {
    open spec fn obeys_from_spec() -> bool {
        false
    }

    open spec fn from_spec(pairs: Vec<(Individual, Vec<usize>)>) -> CountingTable {
        arbitrary()
    }
}

/// The last column of a table: one count per state, in the order of
/// progression.
pub open spec fn last_column_of(table: Map<Individual, Seq<usize>>) -> Seq<usize> {
    Seq::new(STATES as nat, |k: int| table[Individual::of_rank(k as nat)].last())
}

/// The count of `state` on the day after a day that ended with the counts
/// `last`, one per state in the order of progression, and on which `newly`
/// healthy individuals caught the infection. Of `newly`, no more than the
/// healthy who were there is taken.
pub open spec fn day_after(last: Seq<usize>, newly: usize, state: Individual) -> int {
    let caught = if newly <= last[0] {
        newly
    } else {
        last[0]
    };
    match state {
        Individual::Healthy => last[0] - caught,
        Individual::Infected1 => caught as int,
        Individual::Infected2 => last[1] as int,
        Individual::Infected3 => last[2] as int,
        Individual::Sick => last[4] + last[3],
        Individual::Immune => last[5] as int,
    }
}

/// `table` with one individual moved, on its last day, from `from` to `to`.
pub open spec fn move_one(
    table: Map<Individual, Seq<usize>>,
    from: Individual,
    to: Individual,
) -> Map<Individual, Seq<usize>> {
    let taken = table[from].update(table[from].len() - 1, (table[from].last() - 1) as usize);
    let given = table[to].update(table[to].len() - 1, (table[to].last() + 1) as usize);
    table.insert(from, taken).insert(to, given)
}

/// History of a board: the counting table, with one column for the start and
/// one more for each day registered, and for each such day the number of new
/// infections and of open buildings.
#[derive(Debug, Clone, PartialEq, Eq)]
pub struct Recording {
    counting_table: CountingTable,
    newly_infected: Vec<usize>,
    open_buildings: Vec<usize>,
    spreading: Spreading,
}

impl Recording {
    /// The counting table, as a map.
    pub closed spec fn table(&self) -> Map<Individual, Seq<usize>> {
        self.counting_table@
    }

    /// New infections of each registered day.
    pub closed spec fn infections(&self) -> Seq<usize> {
        self.newly_infected@
    }

    /// Number of open buildings at the end of each registered day.
    pub closed spec fn openings(&self) -> Seq<usize> {
        self.open_buildings@
    }

    /// The spreading mode on record.
    pub closed spec fn mode(&self) -> Spreading {
        self.spreading
    }

    /// Number of columns of the table.
    pub open spec fn columns(&self) -> nat {
        self.table()[Individual::Healthy].len()
    }

    /// The last column of the table: one count per state, in the order of
    /// progression.
    pub open spec fn last_column(&self) -> Seq<usize> {
        last_column_of(self.table())
    }

    /// The table holds every state, all with as many days and at least one,
    /// and the counts of its last day add up to a `usize`.
    pub closed spec fn wf(&self) -> bool {
        &&& self.counting_table.wf()
        &&& self.columns() >= 1
        &&& forall|s: Individual| #[trigger]
            self.table().contains_key(s) && self.table()[s].len() == self.columns()
        &&& self.last_column()[0] + self.last_column()[1] + self.last_column()[2]
            + self.last_column()[3] + self.last_column()[4] + self.last_column()[5] <= usize::MAX
    }

    /// What `wf` says of the table.
    pub proof fn lemma_wf(&self)
        requires
            self.wf(),
        ensures
            self.columns() >= 1,
            forall|s: Individual| #[trigger]
                self.table().contains_key(s) && self.table()[s].len() == self.columns(),
            self.last_column()[0] + self.last_column()[1] + self.last_column()[2]
                + self.last_column()[3] + self.last_column()[4] + self.last_column()[5]
                <= usize::MAX,
    {
    }

    /// Starts a history with the counts of `population` as its first column.
    /// The spreading mode is that of the first building, the default one
    /// where there is none.
    pub fn new(population: Population, buildings: Vec<Building>) -> (r: Recording)
        ensures
            r.wf(),
            forall|s: Individual| #[trigger] r.table()[s] == seq![count_of(population@, s) as usize],
            r.infections() == Seq::<usize>::empty(),
            r.openings() == Seq::<usize>::empty(),
            r.mode() == if buildings@.len() > 0 {
                buildings@[0]@.spreading
            } else {
                Spreading::OneNear
            },
    {
        let counts = population.counting_all();
        let size = population.len();
        assert(size == population@.len());
        let mut table = CountingTable::new();
        let mut k: usize = 0;
        while k < STATES
            invariant
                k <= STATES,
                table.wf(),
                counts@.len() == STATES,
                forall|s: Individual|
                    table@.contains_key(s) == (s.rank() < k),
                forall|s: Individual|
                    s.rank() < k ==> #[trigger] table@[s] == seq![counts@[s.rank() as int]],
            decreases STATES - k,
        {
            let mut series: Vec<usize> = Vec::new();
            series.push(counts[k]);
            assert(series@ =~= seq![counts@[k as int]]);
            table.insert(Individual::from_index(k), series);
            k += 1;
        }
        let spreading = if buildings.len() > 0 {
            *buildings[0].spreading()
        } else {
            Spreading::OneNear
        };
        let r = Recording {
            counting_table: table,
            newly_infected: Vec::new(),
            open_buildings: Vec::new(),
            spreading,
        };
        proof {
            lemma_counts_total(population@);
            assert forall|s: Individual| #[trigger]
                r.table()[s] == seq![count_of(population@, s) as usize] by {
                assert(s.rank() < STATES);
                assert(Individual::of_rank(s.rank()) == s);
            }
            assert forall|s: Individual| #[trigger]
                r.table().contains_key(s) && r.table()[s].len() == r.columns() by {
                assert(s.rank() < STATES);
                assert(Individual::Healthy.rank() < STATES);
            }
            assert(r.table()[Individual::Healthy].len() == 1);
            assert(r.last_column()[0] == count_of(population@, Individual::Healthy));
            assert(r.last_column()[1] == count_of(population@, Individual::Infected1));
            assert(r.last_column()[2] == count_of(population@, Individual::Infected2));
            assert(r.last_column()[3] == count_of(population@, Individual::Infected3));
            assert(r.last_column()[4] == count_of(population@, Individual::Sick));
            assert(r.last_column()[5] == count_of(population@, Individual::Immune));
        }
        r
    }

    /// An independent copy.
    pub fn duplicate(&self) -> (r: Recording)
        requires
            self.wf(),
        ensures
            r.wf(),
            r.table() == self.table(),
            r.infections() == self.infections(),
            r.openings() == self.openings(),
            r.mode() == self.mode(),
    {
        let r = Recording {
            counting_table: self.counting_table.duplicate(),
            newly_infected: copy_counts(&self.newly_infected),
            open_buildings: copy_counts(&self.open_buildings),
            spreading: self.spreading,
        };
        assert(r.last_column() =~= self.last_column());
        r
    }

    /// Appends one day to the history: a new column of the table, which
    /// moves `newly_infected` of the healthy to the first day of infection and
    /// everybody who was infected one stage on; the number of new infections;
    /// and the number of `buildings` that are open.
    pub fn register(&mut self, newly_infected: usize, buildings: &Vec<Building>)
        requires
            old(self).wf(),
        ensures
            final(self).wf(),
            forall|s: Individual| #[trigger]
                final(self).table()[s] == old(self).table()[s].push(
                    day_after(old(self).last_column(), newly_infected, s) as usize,
                ),
            final(self).infections() == old(self).infections().push(newly_infected),
            final(self).openings() == old(self).openings().push(
                open_count(views_of(buildings@)) as usize,
            ),
            final(self).mode() == old(self).mode(),
    {
        let ghost before = self.last_column();
        let ghost table0 = self.table();
        proof {
            assert(table0.contains_key(Individual::Healthy));
            assert(table0.contains_key(Individual::Infected1));
            assert(table0.contains_key(Individual::Infected2));
            assert(table0.contains_key(Individual::Infected3));
            assert(table0.contains_key(Individual::Sick));
            assert(table0.contains_key(Individual::Immune));
        }
        let healthy = self.counting_table.last(Individual::Healthy);
        let infected1 = self.counting_table.last(Individual::Infected1);
        let infected2 = self.counting_table.last(Individual::Infected2);
        let infected3 = self.counting_table.last(Individual::Infected3);
        let sick = self.counting_table.last(Individual::Sick);
        let immune = self.counting_table.last(Individual::Immune);
        assert(healthy == before[0] && infected1 == before[1] && infected2 == before[2]
            && infected3 == before[3] && sick == before[4] && immune == before[5]);
        let caught = if newly_infected <= healthy {
            newly_infected
        } else {
            healthy
        };
        self.counting_table.push_count(Individual::Healthy, healthy - caught);
        self.counting_table.push_count(Individual::Infected1, caught);
        self.counting_table.push_count(Individual::Infected2, infected1);
        self.counting_table.push_count(Individual::Infected3, infected2);
        self.counting_table.push_count(Individual::Sick, sick + infected3);
        self.counting_table.push_count(Individual::Immune, immune);
        self.newly_infected.push(newly_infected);
        let mut open: usize = 0;
        let mut k: usize = 0;
        let ghost views = views_of(buildings@);
        assert(views.take(0) =~= Seq::empty());
        while k < buildings.len()
            invariant
                k <= buildings.len(),
                open <= k,
                views == views_of(buildings@),
                open == open_count(views.take(k as int)),
            decreases buildings.len() - k,
        {
            assert(views.take(k + 1).drop_last() =~= views.take(k as int));
            if buildings[k].is_open() {
                open += 1;
            }
            k += 1;
        }
        assert(views.take(k as int) =~= views);
        self.open_buildings.push(open);
        proof {
            assert forall|s: Individual| #[trigger]
                self.table()[s] == table0[s].push(
                    day_after(before, newly_infected, s) as usize,
                ) && self.table().contains_key(s) by {
                assert(table0.contains_key(s));
            }
            assert(self.columns() == table0[Individual::Healthy].len() + 1);
            assert forall|s: Individual| #[trigger]
                self.table().contains_key(s) && self.table()[s].len() == self.columns() by {
                assert(table0.contains_key(s));
                assert(table0.contains_key(Individual::Healthy));
            }
            let after = self.last_column();
            assert(after[0] == healthy - caught);
            assert(after[1] == caught);
            assert(after[2] == infected1);
            assert(after[3] == infected2);
            assert(after[4] == sick + infected3);
            assert(after[5] == immune);
        }
    }

    /// Moves one individual, on the last day of the table, from `from` to
    /// `to`, where the table counts somebody in `from`.
    fn shift(&mut self, from: Individual, to: Individual) -> (r: bool)
        requires
            old(self).wf(),
            from != to,
        ensures
            final(self).wf(),
            r == (old(self).table()[from].last() > 0),
            r ==> final(self).table() == move_one(old(self).table(), from, to),
            !r ==> final(self).table() == old(self).table(),
            final(self).infections() == old(self).infections(),
            final(self).openings() == old(self).openings(),
            final(self).mode() == old(self).mode(),
    {
        let ghost before = self.last_column();
        let ghost table0 = self.table();
        assert(table0.contains_key(from) && table0.contains_key(to));
        assert(Individual::of_rank(from.rank()) == from && Individual::of_rank(to.rank()) == to);
        assert(before[from.rank() as int] == table0[from].last());
        assert(before[to.rank() as int] == table0[to].last());
        let taken = self.counting_table.last(from);
        let given = self.counting_table.last(to);
        if taken == 0 {
            return false;
        }
        self.counting_table.set_last(from, taken - 1);
        self.counting_table.set_last(to, given + 1);
        proof {
            assert(self.table() =~= move_one(table0, from, to));
            assert forall|s: Individual| #[trigger]
                self.table().contains_key(s) && self.table()[s].len() == self.columns() by {
                assert(table0.contains_key(s));
                assert(table0.contains_key(Individual::Healthy));
            }
            let after = self.last_column();
            assert forall|k: int| 0 <= k < STATES implies after[k] == if k == from.rank() {
                before[k] - 1
            } else if k == to.rank() {
                before[k] + 1
            } else {
                before[k] as int
            } by {
                let s = Individual::of_rank(k as nat);
                assert(s.rank() == k);
                assert(table0.contains_key(s));
            }
        }
        true
    }

    /// Mirrors an immunization: on the last day, one healthy individual
    /// becomes immune. Fails, and changes nothing, where the table counts
    /// nobody healthy.
    pub fn immunize(&mut self) -> (r: Result<&mut Self, ActionError>)
        requires
            old(self).wf(),
        ensures
            r.is_ok() == (old(self).table()[Individual::Healthy].last() > 0),
            match r {
                Ok(p) => {
                    &&& *final(self) == *final(p)
                    &&& p.wf()
                    &&& p.table() == move_one(
                        old(self).table(),
                        Individual::Healthy,
                        Individual::Immune,
                    )
                    &&& p.infections() == old(self).infections()
                    &&& p.openings() == old(self).openings()
                    &&& p.mode() == old(self).mode()
                },
                Err(e) => e == ActionError::NoHealthyLeft && *final(self) == *old(self),
            },
    {
        if self.has(Individual::Healthy) {
            self.shift(Individual::Healthy, Individual::Immune);
            Ok(self)
        } else {
            Err(ActionError::NoHealthyLeft)
        }
    }

    /// Mirrors the reverse of an immunization: on the last day, one immune
    /// individual becomes healthy. Fails, and changes nothing, where the
    /// table counts nobody immune.
    pub fn reverse_immunize(&mut self) -> (r: Result<&mut Self, ActionError>)
        requires
            old(self).wf(),
        ensures
            r.is_ok() == (old(self).table()[Individual::Immune].last() > 0),
            match r {
                Ok(p) => {
                    &&& *final(self) == *final(p)
                    &&& p.wf()
                    &&& p.table() == move_one(
                        old(self).table(),
                        Individual::Immune,
                        Individual::Healthy,
                    )
                    &&& p.infections() == old(self).infections()
                    &&& p.openings() == old(self).openings()
                    &&& p.mode() == old(self).mode()
                },
                Err(e) => e == ActionError::NoImmuneLeft && *final(self) == *old(self),
            },
    {
        if self.has(Individual::Immune) {
            self.shift(Individual::Immune, Individual::Healthy);
            Ok(self)
        } else {
            Err(ActionError::NoImmuneLeft)
        }
    }

    /// True where the last day of the table counts somebody in `state`.
    pub fn has(&self, state: Individual) -> (r: bool)
        requires
            self.wf(),
        ensures
            r == (self.table()[state].last() > 0),
    {
        assert(self.table().contains_key(state));
        self.counting_table.last(state) > 0
    }

    /// Puts a new spreading mode on record.
    pub fn set_spreading(&mut self, new_spreading: Spreading)
        ensures
            final(self).wf() == old(self).wf(),
            final(self).table() == old(self).table(),
            final(self).infections() == old(self).infections(),
            final(self).openings() == old(self).openings(),
            final(self).mode() == new_spreading,
    {
        self.spreading = new_spreading;
        assert(self.last_column() =~= old(self).last_column());
    }

    /// The counting table.
    pub fn counting_table(&self) -> (r: &CountingTable)
        ensures
            r@ == self.table(),
            self.wf() ==> r.wf(),
    {
        &self.counting_table
    }

    /// The new infections of each registered day.
    pub fn newly_infected(&self) -> (r: &Vec<usize>)
        ensures
            r@ == self.infections(),
    {
        &self.newly_infected
    }

    /// The number of open buildings at the end of each registered day.
    pub fn open_buildings(&self) -> (r: &Vec<usize>)
        ensures
            r@ == self.openings(),
    {
        &self.open_buildings
    }

    /// The spreading mode on record.
    pub fn spreading(&self) -> (r: &Spreading)
        ensures
            *r == self.mode(),
    {
        &self.spreading
    }
}

} // verus!
