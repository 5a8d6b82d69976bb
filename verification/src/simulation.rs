use crate::board::{copies, default_places, Board, BoardBuilder};
use crate::building::Spreading;
use crate::population::count_of;
use crate::individual::Individual;
use crate::model::{after_days, BoardView};
use crate::recording::{days_from, CountingTable};
use vstd::prelude::*;

verus! {

/// How many times a board is replicated and for how many days each
/// replicate runs.
#[derive(Debug, Clone, Copy, PartialEq, Eq, Structural)]
pub struct ReportPlan {
    /// Number of replicates.
    pub num_simulations: usize,
    /// Number of days each replicate advances.
    pub days: usize,
}

impl Default for ReportPlan {
    fn default() -> (r: ReportPlan)
        ensures
            r.num_simulations == 0,
            r.days == 0,
    {
        ReportPlan { num_simulations: 0, days: 0 }
    }
}

impl ReportPlan {
    /// Number of replicates.
    pub fn num_simulations(&self) -> (r: &usize)
        ensures
            *r == self.num_simulations,
    {
        &self.num_simulations
    }

    /// Sets number of replicates.
    pub fn set_num_simulations(&mut self, val: usize) -> (r: &mut Self)
        ensures
            *final(self) == *final(r),
            *r == (ReportPlan { num_simulations: val, ..*old(self) }),
    {
        self.num_simulations = val;
        self
    }

    /// Number of replicates, to change in place.
    pub fn num_simulations_mut(&mut self) -> (r: &mut usize)
        ensures
            *r == old(self).num_simulations,
            *final(self) == (ReportPlan { num_simulations: *final(r), ..*old(self) }),
    {
        &mut self.num_simulations
    }

    /// Number of days each replicate advances.
    pub fn days(&self) -> (r: &usize)
        ensures
            *r == self.days,
    {
        &self.days
    }

    /// Sets number of days each replicate advances.
    pub fn set_days(&mut self, val: usize) -> (r: &mut Self)
        ensures
            *final(self) == *final(r),
            *r == (ReportPlan { days: val, ..*old(self) }),
    {
        self.days = val;
        self
    }

    /// Number of days each replicate advances, to change in place.
    pub fn days_mut(&mut self) -> (r: &mut usize)
        ensures
            *r == old(self).days,
            *final(self) == (ReportPlan { days: *final(r), ..*old(self) }),
    {
        &mut self.days
    }
}

/// Description of a simulation: of its board and of its plan.
#[derive(Debug, Clone, PartialEq, Eq)]
pub struct SimulationBuilder {
    /// Description of the board.
    pub board_builder: BoardBuilder,
    /// Replicates and days.
    pub report_plan: ReportPlan,
}

impl Default for SimulationBuilder {
    /// Nobody, no building, the default spreading mode, no replicate and no
    /// day.
    fn default() -> (r: SimulationBuilder)
        ensures
            r.board_builder.healthy == 0 && r.board_builder.infected1 == 0
                && r.board_builder.infected2 == 0 && r.board_builder.infected3 == 0
                && r.board_builder.sick == 0 && r.board_builder.immune == 0,
            r.board_builder.buildings@ == Seq::<(usize, usize)>::empty(),
            r.board_builder.spreading == Spreading::OneNear,
            r.board_builder.fits(),
            r.board_builder.initial_population() == Seq::<Individual>::empty(),
            r.report_plan == (ReportPlan { num_simulations: 0, days: 0 }),
    {
        let r = SimulationBuilder {
            board_builder: BoardBuilder::default(),
            report_plan: ReportPlan::default(),
        };
        assert(r.board_builder.initial_population() =~= Seq::<Individual>::empty());
        r
    }
}

impl SimulationBuilder {
    /// Description of the board.
    pub fn board_builder(&self) -> (r: &BoardBuilder)
        ensures
            *r == self.board_builder,
    {
        &self.board_builder
    }

    /// Sets description of the board.
    pub fn set_board_builder(&mut self, val: BoardBuilder) -> (r: &mut Self)
        ensures
            *final(self) == *final(r),
            *r == (SimulationBuilder { board_builder: val, ..*old(self) }),
    {
        self.board_builder = val;
        self
    }

    /// Description of the board, to change in place.
    pub fn board_builder_mut(&mut self) -> (r: &mut BoardBuilder)
        ensures
            *r == old(self).board_builder,
            *final(self) == (SimulationBuilder { board_builder: *final(r), ..*old(self) }),
    {
        &mut self.board_builder
    }

    /// Replicates and days.
    pub fn report_plan(&self) -> (r: &ReportPlan)
        ensures
            *r == self.report_plan,
    {
        &self.report_plan
    }

    /// Sets replicates and days.
    pub fn set_report_plan(&mut self, val: ReportPlan) -> (r: &mut Self)
        ensures
            *final(self) == *final(r),
            *r == (SimulationBuilder { report_plan: val, ..*old(self) }),
    {
        self.report_plan = val;
        self
    }

    /// Replicates and days, to change in place.
    pub fn report_plan_mut(&mut self) -> (r: &mut ReportPlan)
        ensures
            *r == old(self).report_plan,
            *final(self) == (SimulationBuilder { report_plan: *final(r), ..*old(self) }),
    {
        &mut self.report_plan
    }

    /// The simulation described.
    pub fn build(self) -> (r: Simulation)
        requires
            self.board_builder.fits(),
        ensures
            self.board_builder.describes(r.spec_board()),
            r.spec_plan() == self.report_plan,
    {
        let board = self.board_builder.build();
        Simulation { board, report_plan: self.report_plan }
    }
}

/// A board to replicate, and the plan of the replication.
#[derive(Debug, Clone, PartialEq, Eq)]
pub struct Simulation {
    board: Board,
    report_plan: ReportPlan,
}

/// The series of `state` of each table that has one, in the order of the
/// tables.
pub open spec fn series_in(tables: Seq<Map<Individual, Seq<usize>>>, state: Individual) -> Seq<
    Seq<usize>,
>
    decreases tables.len(),
{
    if tables.len() == 0 {
        Seq::empty()
    } else if tables.last().contains_key(state) {
        series_in(tables.drop_last(), state).push(tables.last()[state])
    } else {
        series_in(tables.drop_last(), state)
    }
}

impl Default for Simulation {
    /// No replicate of the default board.
    fn default() -> (r: Simulation)
        ensures
            r.spec_board().wf(),
            r.spec_board().spec_population()@ == copies(Individual::Healthy, 98) + copies(
                Individual::Infected1,
                2,
            ),
            r.spec_board().spec_population().cursor() == 0,
            r.spec_board().places() == default_places(),
            r.spec_board().at_home() == Seq::<Individual>::empty(),
            forall|s: Individual| #[trigger]
                r.spec_board().spec_recording().table()[s] == seq![
                    count_of(r.spec_board().spec_population()@, s) as usize,
                ],
            r.spec_board().spec_recording().infections() == Seq::<usize>::empty(),
            r.spec_board().spec_recording().openings() == Seq::<usize>::empty(),
            r.spec_board().spec_recording().mode() == Spreading::OneNear,
            r.spec_board().in_step(),
            r.spec_board().rested(),
            r.spec_board().count(Individual::Healthy) == 98,
            r.spec_board().count(Individual::Infected1) == 2,
            r.spec_board().count(Individual::Infected2) == 0,
            r.spec_board().count(Individual::Infected3) == 0,
            r.spec_board().count(Individual::Sick) == 0,
            r.spec_board().count(Individual::Immune) == 0,
            r.spec_plan() == (ReportPlan { num_simulations: 0, days: 0 }),
    {
        Simulation { board: Board::default(), report_plan: ReportPlan::default() }
    }
}

/// Where every table has a series for `state`, `series_in` leaves none out.
pub proof fn lemma_series_of_all(tables: Seq<Map<Individual, Seq<usize>>>, state: Individual)
    requires
        forall|i: int| 0 <= i < tables.len() ==> (#[trigger] tables[i]).contains_key(state),
    ensures
        series_in(tables, state).len() == tables.len(),
        forall|i: int|
            0 <= i < tables.len() ==> #[trigger] series_in(tables, state)[i] == tables[i][state],
    decreases tables.len(),
{
    if tables.len() > 0 {
        let init = tables.drop_last();
        assert forall|i: int| 0 <= i < init.len() implies (#[trigger] init[i]).contains_key(
            state,
        ) by {
            assert(tables[i].contains_key(state));
        }
        lemma_series_of_all(init, state);
        assert(tables[tables.len() - 1].contains_key(state));
        assert forall|i: int| 0 <= i < tables.len() implies #[trigger] series_in(tables, state)[i]
            == tables[i][state] by {
            if i < init.len() {
                assert(series_in(init, state)[i] == init[i][state]);
            }
        }
    }
}

impl Simulation {
    /// The board that every replicate starts from.
    pub closed spec fn spec_board(&self) -> Board {
        self.board
    }

    /// Replicates and days.
    pub closed spec fn spec_plan(&self) -> ReportPlan {
        self.report_plan
    }

    /// A simulation that replicates `board` as `report_plan` says.
    pub fn new(board: Board, report_plan: ReportPlan) -> (r: Simulation)
        ensures
            r.spec_board() == board,
            r.spec_plan() == report_plan,
    {
        Simulation { board, report_plan }
    }

    /// The board that every replicate starts from.
    pub fn board(&self) -> (r: &Board)
        ensures
            *r == self.spec_board(),
    {
        &self.board
    }

    /// Replicates and days.
    pub fn report_plan(&self) -> (r: &ReportPlan)
        ensures
            *r == self.spec_plan(),
    {
        &self.report_plan
    }

    /// Runs the simulation: as many replicates as planned, each an
    /// independent copy of the board advanced by the planned number of days,
    /// and collects the counting table of each.
    ///
    /// Whatever the draws are, each table holds every state, starts with the
    /// history of the board and has one more column for each day.
    pub fn run(self) -> (r: Report)
        requires
            self.spec_board().wf(),
        ensures
            r.wf(),
            r.tables().len() == self.spec_plan().num_simulations,
            forall|i: int|
                0 <= i < r.tables().len() ==> continues(
                    #[trigger] r.tables()[i],
                    self.spec_board().spec_recording().table(),
                    self.spec_plan().days as nat,
                ),
            forall|i: int|
                0 <= i < r.tables().len() ==> is_replicate(
                    self.spec_board()@,
                    self.spec_plan().days as nat,
                    #[trigger] r.tables()[i],
                ),
    {
        let mut counting_tables: Vec<CountingTable> = Vec::new();
        let mut done: usize = 0;
        while done < self.report_plan.num_simulations
            invariant
                done <= self.report_plan.num_simulations,
                self.board.wf(),
                counting_tables@.len() == done,
                forall|i: int| 0 <= i < done ==> (#[trigger] counting_tables@[i]).wf(),
                forall|i: int|
                    0 <= i < done ==> continues(
                        (#[trigger] counting_tables@[i])@,
                        self.board.spec_recording().table(),
                        self.report_plan.days as nat,
                    ),
                forall|i: int|
                    0 <= i < done ==> is_replicate(
                        self.board@,
                        self.report_plan.days as nat,
                        (#[trigger] counting_tables@[i])@,
                    ),
            decreases self.report_plan.num_simulations - done,
        {
            let mut board = self.board.duplicate();
            assert(board@ == self.board@);
            board.advance_many(self.report_plan.days);
            let table = board.counting_table().duplicate();
            proof {
                board.spec_recording().lemma_wf();
                let start = self.board.spec_recording().table();
                assert forall|s: Individual|
                    table@.contains_key(s) && (#[trigger] table@[s]).len() == start[s].len()
                        + self.report_plan.days && table@[s].take(start[s].len() as int)
                        == start[s] by {
                    assert(board.spec_recording().table().contains_key(s));
                    assert(board.spec_recording().table()[s] == table@[s]);
                }
                assert(continues(table@, start, self.report_plan.days as nat));
                assert(after_days(self.board@, board@, self.report_plan.days as nat)
                    && board@.table == table@);
            }
            counting_tables.push(table);
            done += 1;
        }
        let r = Report { counting_tables };
        assert forall|i: int| 0 <= i < r.tables().len() implies continues(
            #[trigger] r.tables()[i],
            self.board.spec_recording().table(),
            self.report_plan.days as nat,
        ) by {
            assert(r.tables()[i] == r.counting_tables@[i]@);
        }
        assert forall|i: int| 0 <= i < r.tables().len() implies is_replicate(
            self.board@,
            self.report_plan.days as nat,
            #[trigger] r.tables()[i],
        ) by {
            assert(r.tables()[i] == r.counting_tables@[i]@);
        }
        r
    }
}

/// `table` is the counting table of some board that `template` becomes in
/// `days` days.
pub open spec fn is_replicate(
    template: BoardView,
    days: nat,
    table: Map<Individual, Seq<usize>>,
) -> bool {
    exists|end: BoardView| #[trigger] after_days(template, end, days) && end.table == table
}

/// `table` holds every state, and its series are those of `start` followed
/// by `days` more counts.
pub open spec fn continues(
    table: Map<Individual, Seq<usize>>,
    start: Map<Individual, Seq<usize>>,
    days: nat,
) -> bool {
    forall|s: Individual|
        table.contains_key(s) && (#[trigger] table[s]).len() == start[s].len() + days
            && table[s].take(start[s].len() as int) == start[s]
}

/// The counting tables of the replicates of a simulation, in their order.
#[derive(Debug, Clone, PartialEq, Eq)]
pub struct Report {
    counting_tables: Vec<CountingTable>,
}

impl Report {
    /// The tables, each as a map.
    pub closed spec fn tables(&self) -> Seq<Map<Individual, Seq<usize>>> {
        Seq::new(self.counting_tables@.len(), |i: int| self.counting_tables@[i]@)
    }

    /// Every table is well formed.
    pub closed spec fn wf(&self) -> bool {
        forall|i: int|
            0 <= i < self.counting_tables@.len() ==> (#[trigger] self.counting_tables@[i]).wf()
    }

    /// The report of the given tables.
    pub fn new(counting_tables: Vec<CountingTable>) -> (r: Report)
        requires
            forall|i: int| 0 <= i < counting_tables@.len() ==> (#[trigger] counting_tables@[i]).wf(),
        ensures
            r.wf(),
            r.tables() == Seq::new(counting_tables@.len(), |i: int| counting_tables@[i]@),
    {
        Report { counting_tables }
    }

    /// The tables.
    pub fn counting_tables(&self) -> (r: &Vec<CountingTable>)
        ensures
            Seq::new(r@.len(), |i: int| r@[i]@) == self.tables(),
            self.wf() ==> forall|i: int| 0 <= i < r@.len() ==> (#[trigger] r@[i]).wf(),
    {
        &self.counting_tables
    }

    /// The number of individuals in `state` over time, replicate by
    /// replicate. A replicate whose table has no series for `state` is left
    /// out.
    pub fn series(&self, state: Individual) -> (r: Vec<&Vec<usize>>)
        requires
            self.wf(),
        ensures
            r@.len() == series_in(self.tables(), state).len(),
            forall|i: int|
                0 <= i < r@.len() ==> (#[trigger] r@[i])@ == series_in(self.tables(), state)[i],
    {
        let mut found: Vec<&Vec<usize>> = Vec::new();
        let mut k: usize = 0;
        assert(self.tables().take(0) =~= Seq::empty());
        while k < self.counting_tables.len()
            invariant
                k <= self.counting_tables.len(),
                self.wf(),
                found@.len() == series_in(self.tables().take(k as int), state).len(),
                forall|i: int|
                    0 <= i < found@.len() ==> (#[trigger] found@[i])@ == series_in(
                        self.tables().take(k as int),
                        state,
                    )[i],
            decreases self.counting_tables.len() - k,
        {
            assert(self.tables().take(k + 1).drop_last() =~= self.tables().take(k as int));
            assert(self.tables().take(k + 1).last() == self.counting_tables@[k as int]@);
            match self.counting_tables[k].get(state) {
                Some(series) => {
                    found.push(series);
                },
                None => {},
            }
            k += 1;
        }
        assert(self.tables().take(k as int) =~= self.tables());
        found
    }

    /// The number of individuals in `state` day by day: for each day of the
    /// first table, the counts of that day in the replicates that `series`
    /// gives, in their order.
    pub fn transpose(&self, state: Individual) -> (r: Vec<Vec<usize>>)
        requires
            self.wf(),
            self.tables().len() > 0,
            forall|i: int|
                0 <= i < series_in(self.tables(), state).len() ==> (#[trigger] series_in(
                    self.tables(),
                    state,
                )[i]).len() >= days_from(self.tables()[0], 0),
        ensures
            r@.len() == days_from(self.tables()[0], 0),
            forall|d: int|
                0 <= d < r@.len() ==> (#[trigger] r@[d])@.len() == series_in(
                    self.tables(),
                    state,
                ).len(),
            forall|d: int, i: int|
                0 <= d < r@.len() && 0 <= i < series_in(self.tables(), state).len() ==> (
                #[trigger] r@[d]@[i]) == series_in(self.tables(), state)[i][d],
    {
        let mut by_day: Vec<Vec<usize>> = Vec::new();
        let realizations = self.series(state);
        let days = self.counting_tables[0].days();
        let ghost all = series_in(self.tables(), state);
        let mut day: usize = 0;
        while day < days
            invariant
                day <= days,
                all == series_in(self.tables(), state),
                realizations@.len() == all.len(),
                forall|i: int| 0 <= i < all.len() ==> (#[trigger] realizations@[i])@ == all[i],
                forall|i: int| 0 <= i < all.len() ==> (#[trigger] all[i]).len() >= days,
                by_day@.len() == day,
                forall|d: int| 0 <= d < day ==> (#[trigger] by_day@[d])@.len() == all.len(),
                forall|d: int, i: int|
                    0 <= d < day && 0 <= i < all.len() ==> (#[trigger] by_day@[d]@[i])
                        == all[i][d],
            decreases days - day,
        {
            let mut row: Vec<usize> = Vec::new();
            let mut i: usize = 0;
            while i < realizations.len()
                invariant
                    i <= realizations.len(),
                    day < days,
                    realizations@.len() == all.len(),
                    forall|j: int| 0 <= j < all.len() ==> (#[trigger] realizations@[j])@ == all[j],
                    forall|j: int| 0 <= j < all.len() ==> (#[trigger] all[j]).len() >= days,
                    row@.len() == i,
                    forall|j: int| 0 <= j < i ==> (#[trigger] row@[j]) == all[j][day as int],
                decreases realizations.len() - i,
            {
                let realization = realizations[i];
                assert(realization@ == all[i as int]);
                assert(all[i as int].len() >= days);
                row.push(realization[day]);
                i += 1;
            }
            by_day.push(row);
            day += 1;
        }
        by_day
    }

    /// The number of healthy individuals over time, replicate by replicate.
    /// A replicate whose table has no series for the healthy is left out.
    pub fn healthy(&self) -> (r: Vec<&Vec<usize>>)
        requires
            self.wf(),
        ensures
            r@.len() == series_in(self.tables(), Individual::Healthy).len(),
            forall|i: int| 0 <= i < r@.len() ==> (#[trigger] r@[i])@ == series_in(self.tables(), Individual::Healthy)[i],
    {
        self.series(Individual::Healthy)
    }

    /// The number of healthy individuals day by day: for each day of the
    /// first table, the counts of that day in the replicates that `healthy`
    /// gives, in their order.
    pub fn healthy_transpose(&self) -> (r: Vec<Vec<usize>>)
        requires
            self.wf(),
            self.tables().len() > 0,
            forall|i: int|
                0 <= i < series_in(self.tables(), Individual::Healthy).len() ==> (#[trigger] series_in(self.tables(), Individual::Healthy)[i]).len() >= days_from(self.tables()[0], 0),
        ensures
            r@.len() == days_from(self.tables()[0], 0),
            forall|d: int|
                0 <= d < r@.len() ==> (#[trigger] r@[d])@.len() == series_in(self.tables(), Individual::Healthy).len(),
            forall|d: int, i: int|
                0 <= d < r@.len() && 0 <= i < series_in(self.tables(), Individual::Healthy).len() ==> (
                #[trigger] r@[d]@[i]) == series_in(self.tables(), Individual::Healthy)[i][d],
    {
        self.transpose(Individual::Healthy)
    }

    /// The number of healthy individuals on the last day of each replicate
    /// that `healthy` gives, in their order.
    pub fn healthy_last(&self) -> (r: Vec<&usize>)
        requires
            self.wf(),
            forall|i: int|
                0 <= i < series_in(self.tables(), Individual::Healthy).len() ==> (#[trigger] series_in(self.tables(), Individual::Healthy)[i]).len() > 0,
        ensures
            r@.len() == series_in(self.tables(), Individual::Healthy).len(),
            forall|i: int| 0 <= i < r@.len() ==> *(#[trigger] r@[i]) == series_in(self.tables(), Individual::Healthy)[i].last(),
    {
        let mut healthy_vec: Vec<&usize> = Vec::new();
        let healthy_all = self.healthy();
        let ghost all = series_in(self.tables(), Individual::Healthy);
        let mut i: usize = 0;
        while i < healthy_all.len()
            invariant
                i <= healthy_all.len(),
                healthy_all@.len() == all.len(),
                forall|j: int| 0 <= j < all.len() ==> (#[trigger] healthy_all@[j])@ == all[j],
                forall|j: int| 0 <= j < all.len() ==> (#[trigger] all[j]).len() > 0,
                healthy_vec@.len() == i,
                forall|j: int| 0 <= j < i ==> *(#[trigger] healthy_vec@[j]) == all[j].last(),
            decreases healthy_all.len() - i,
        {
            let realization = healthy_all[i];
            assert(realization@ == all[i as int]);
            assert(all[i as int].len() > 0);
            healthy_vec.push(&realization[realization.len() - 1]);
            i += 1;
        }
        healthy_vec
    }
}

} // verus!
