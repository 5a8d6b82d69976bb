use crate::building::{views_of, Building, BuildingBuilder, BuildingView, Spreading};
use crate::errors::ActionError;
use crate::individual::Individual;
use crate::model::{
    admitted, aged_at_home, cursor_at, diverted, emptied, everybody, headcount_of,
    home_after_visits, housed, is_day, lemma_day_counts, lemma_day_keeps_everybody,
    lemma_emptied_count, lemma_everybody_order, lemma_one_more_day, lemma_everybody_replace, lemma_housed_empty,
    lemma_housed_same, propagated, room_of, same_spreading, sent_home, taken, visited,
    visited_one, with_doors, with_mode, after_days, one_day, BoardView, Door,
};
use crate::population::{
    count_in, count_of, lemma_count_bound, lemma_count_concat, lemma_count_push, replace_first,
    Population,
};
use crate::recording::{
    day_after, last_column_of, move_one, open_count, CountingTable, Recording,
};
use vstd::prelude::*;

verus! {

/// Independent copies of `buildings`.
fn copy_buildings(buildings: &Vec<Building>) -> (r: Vec<Building>)
    ensures
        views_of(r@) == views_of(buildings@),
{
    let mut out: Vec<Building> = Vec::new();
    let mut i: usize = 0;
    while i < buildings.len()
        invariant
            i <= buildings.len(),
            out@.len() == i,
            forall|j: int| 0 <= j < i ==> out@[j]@ == buildings@[j]@,
        decreases buildings.len() - i,
    {
        out.push(buildings[i].duplicate());
        i += 1;
    }
    assert(views_of(out@) =~= views_of(buildings@));
    out
}

/// A handle of the current thread's generator, from `rand::thread_rng`.
/// Nothing is claimed of it. The generator is seeded by the system on its
/// first use in a thread, and `rand` panics where the system gives no seed.
#[verifier::external_body]
fn ambient_rng() -> (r: rand::rngs::ThreadRng) {
    rand::thread_rng()
}

/// State of the game: the population, the buildings, who stays at home
/// today, and the history.
#[derive(Debug, Clone, PartialEq, Eq)]
pub struct Board {
    population: Population,
    buildings: Vec<Building>,
    inactive: Vec<Individual>,
    recording: Recording,
}

impl View for Board {
    type V = BoardView;

    open spec fn view(&self) -> BoardView {
        BoardView {
            people: self.spec_population()@,
            cursor: self.spec_population().cursor(),
            places: self.places(),
            home: self.at_home(),
            table: self.spec_recording().table(),
            infections: self.spec_recording().infections(),
            openings: self.spec_recording().openings(),
            mode: self.spec_recording().mode(),
        }
    }
}

impl Board {
    /// The population.
    pub closed spec fn spec_population(&self) -> Population {
        self.population
    }

    /// The buildings, each by its view.
    pub closed spec fn places(&self) -> Seq<BuildingView> {
        views_of(self.buildings@)
    }

    /// Who stays at home today.
    pub closed spec fn at_home(&self) -> Seq<Individual> {
        self.inactive@
    }

    /// The history.
    pub closed spec fn spec_recording(&self) -> Recording {
        self.recording
    }

    /// Population, buildings and history are each well formed, and all
    /// buildings have the same spreading mode.
    pub open spec fn wf(&self) -> bool {
        &&& self.spec_population().wf()
        &&& self.spec_recording().wf()
        &&& forall|i: int| 0 <= i < self.places().len() ==> (#[trigger] self.places()[i]).wf()
        &&& same_spreading(self.places())
    }

    /// The board is between two days: nobody is inside a building or marked
    /// as at home.
    pub open spec fn rested(&self) -> bool {
        housed(self.places()).len() == 0 && self.at_home().len() == 0
    }

    /// On a board between two days whose history is in step, the history
    /// counts somebody in state `q` exactly if the population holds somebody
    /// in that state.
    pub proof fn lemma_in_step_counts(&self, q: Individual)
        requires
            self.in_step(),
            self.rested(),
        ensures
            (self.spec_recording().table()[q].last() > 0) == self.spec_population()@.contains(q),
    {
        let people = self.spec_population()@;
        assert(everybody(self.places(), people, self.at_home()) =~= people);
        people.to_multiset_ensures();
        assert(self.spec_recording().table()[q].last() == count_of(people, q));
    }

    /// Number of individuals on the board in state `q`.
    pub open spec fn count(&self, q: Individual) -> nat {
        count_of(everybody(self.places(), self.spec_population()@, self.at_home()), q)
    }

    /// The history is in step with the board: its last column counts, state
    /// by state, everybody on the board.
    pub open spec fn in_step(&self) -> bool {
        forall|s: Individual|
            (#[trigger] self.spec_recording().table()[s]).last() == count_of(
                everybody(self.places(), self.spec_population()@, self.at_home()),
                s,
            )
    }

    /// Creates a board with the given population and buildings, and a
    /// history that starts with the counts of the population. The history is
    /// in step with the board where the buildings are empty.
    pub fn new(population: Population, buildings: Vec<Building>) -> (r: Board)
        requires
            population.wf(),
            forall|i: int| 0 <= i < buildings@.len() ==> (#[trigger] buildings@[i])@.wf(),
            same_spreading(views_of(buildings@)),
        ensures
            r.wf(),
            r.spec_population()@ == population@,
            r.spec_population().cursor() == population.cursor(),
            r.places() == views_of(buildings@),
            r.at_home() == Seq::<Individual>::empty(),
            forall|s: Individual| #[trigger]
                r.spec_recording().table()[s] == seq![count_of(population@, s) as usize],
            r.spec_recording().infections() == Seq::<usize>::empty(),
            r.spec_recording().openings() == Seq::<usize>::empty(),
            r.spec_recording().mode() == if buildings@.len() > 0 {
                buildings@[0]@.spreading
            } else {
                Spreading::OneNear
            },
            housed(views_of(buildings@)).len() == 0 ==> r.in_step(),
    {
        let size = population.len();
        assert(size == population@.len());
        let copies = copy_buildings(&buildings);
        proof {
            assert(views_of(copies@).len() == views_of(buildings@).len());
            if buildings@.len() > 0 {
                assert(views_of(copies@)[0] == views_of(buildings@)[0]);
            }
        }
        let recording = Recording::new(population.duplicate(), copies);
        let r = Board { population, buildings, inactive: Vec::new(), recording };
        assert forall|i: int| 0 <= i < r.places().len() implies (#[trigger] r.places()[i]).wf() by {
            assert(buildings@[i]@.wf());
        }
        proof {
            if housed(r.places()).len() == 0 {
                assert(everybody(r.places(), r.population@, r.inactive@) =~= r.population@);
                assert forall|s: Individual|
                    (#[trigger] r.recording.table()[s]).last() == count_of(r.population@, s) by {
                    lemma_count_bound(r.population@, s);
                }
            }
        }
        r
    }

    /// Lets building `index` take its turn: while it is open and not full it
    /// draws the next individual, lets it in, or sends it home if it is sick.
    pub fn visit_building(&mut self, index: usize) -> (r: &Building)
        requires
            old(self).wf(),
            index < old(self).places().len(),
        ensures
            final(self).wf(),
            final(self).spec_population()@ == old(self).spec_population()@,
            final(self).spec_population().cursor() == old(self).spec_population().cursor() + taken(
                old(self).spec_population()@,
                old(self).spec_population().cursor(),
                room_of(old(self).places()[index as int]),
            ),
            final(self).places() == old(self).places().update(
                index as int,
                old(self).places()[index as int].with_occupants(
                    old(self).places()[index as int].occupants + admitted(
                        old(self).spec_population()@,
                        old(self).spec_population().cursor(),
                        room_of(old(self).places()[index as int]),
                    ),
                ),
            ),
            final(self).at_home() == old(self).at_home() + diverted(
                old(self).spec_population()@,
                old(self).spec_population().cursor(),
                room_of(old(self).places()[index as int]),
            ),
            final(self).spec_recording() == old(self).spec_recording(),
            r@ == final(self).places()[index as int],
    {
        let ghost s = self.population@;
        let ghost c0 = self.population.cursor();
        let ghost b0 = self.buildings@[index as int]@;
        let ghost room0 = room_of(b0);
        let ghost home0 = self.inactive@;
        let ghost places0 = self.places();
        assert(places0[index as int] == b0);
        assert(places0[index as int].wf());
        let mut exhausted = false;
        while !exhausted && !self.buildings[index].is_full() && self.buildings[index].is_open()
            invariant
                index < self.buildings@.len(),
                self.buildings@.len() == old(self).buildings@.len(),
                forall|j: int|
                    0 <= j < self.buildings@.len() && j != index ==> self.buildings@[j]@ == old(
                        self,
                    ).buildings@[j]@,
                self.buildings@[index as int]@ == b0.with_occupants(
                    self.buildings@[index as int]@.occupants,
                ),
                self.buildings@[index as int]@.wf(),
                self.population.wf(),
                self.population@ == s,
                self.recording == old(self).recording,
                exhausted ==> self.population.cursor() >= s.len(),
                b0.occupants + admitted(s, c0, room0) == self.buildings@[index as int]@.occupants
                    + admitted(
                    s,
                    self.population.cursor(),
                    room_of(self.buildings@[index as int]@),
                ),
                home0 + diverted(s, c0, room0) == self.inactive@ + diverted(
                    s,
                    self.population.cursor(),
                    room_of(self.buildings@[index as int]@),
                ),
                c0 + taken(s, c0, room0) == self.population.cursor() + taken(
                    s,
                    self.population.cursor(),
                    room_of(self.buildings@[index as int]@),
                ),
            decreases s.len() - self.population.cursor(), if exhausted { 0int } else { 1int },
        {
            let ghost c = self.population.cursor();
            let ghost b = self.buildings@[index as int]@;
            let ghost home = self.inactive@;
            match self.population.next() {
                Some(i) => {
                    if i == Individual::Sick {
                        self.inactive.push(i);
                        assert(self.inactive@ + diverted(s, c + 1, room_of(b)) =~= home + (seq![i]
                            + diverted(s, c + 1, room_of(b))));
                    } else {
                        let pushed = self.buildings[index].try_push(i);
                        assert(pushed.is_ok());
                        let ghost b1 = self.buildings@[index as int]@;
                        assert(room_of(b1) == room_of(b) - 1);
                        assert(b1.occupants + admitted(s, c + 1, room_of(b1)) =~= b.occupants + (
                        seq![i] + admitted(s, c + 1, room_of(b1))));
                    }
                },
                None => {
                    exhausted = true;
                },
            }
        }
        proof {
            let b = self.buildings@[index as int]@;
            let c = self.population.cursor();
            assert(admitted(s, c, room_of(b)) =~= Seq::<Individual>::empty());
            assert(diverted(s, c, room_of(b)) =~= Seq::<Individual>::empty());
            assert(taken(s, c, room_of(b)) == 0);
            assert(b.occupants =~= b0.occupants + admitted(s, c0, room0));
            assert(self.inactive@ =~= home0 + diverted(s, c0, room0));
            assert(self.places() =~= places0.update(
                index as int,
                b0.with_occupants(b0.occupants + admitted(s, c0, room0)),
            ));
        }
        &self.buildings[index]
    }

    /// Lets every building take its turn, in order, and sends home whoever
    /// was not drawn.
    pub fn distribute(&mut self)
        requires
            old(self).wf(),
        ensures
            final(self).wf(),
            final(self).spec_population()@ == old(self).spec_population()@,
            final(self).spec_population().cursor() == cursor_at(
                old(self).places(),
                old(self).spec_population()@,
                old(self).spec_population().cursor(),
                old(self).places().len(),
            ),
            final(self).places() == visited(
                old(self).places(),
                old(self).spec_population()@,
                old(self).spec_population().cursor(),
            ),
            final(self).at_home() == home_after_visits(
                old(self).places(),
                old(self).spec_population()@,
                old(self).spec_population().cursor(),
                old(self).at_home(),
            ),
            final(self).spec_recording() == old(self).spec_recording(),
    {
        let ghost s = self.population@;
        let ghost c0 = self.population.cursor();
        let ghost bs = self.places();
        let ghost home0 = self.inactive@;
        let n = self.buildings.len();
        let mut index: usize = 0;
        while index < n
            invariant
                index <= n,
                n == bs.len(),
                self.wf(),
                self.places().len() == n,
                forall|j: int| 0 <= j < index ==> self.places()[j] == visited_one(bs, s, c0, j),
                forall|j: int| index <= j < n ==> self.places()[j] == bs[j],
                self.population@ == s,
                self.population.cursor() == cursor_at(bs, s, c0, index as nat),
                self.inactive@ == home0 + sent_home(bs, s, c0, index as nat),
                self.recording == old(self).recording,
            decreases n - index,
        {
            self.visit_building(index);
            assert(self.inactive@ =~= home0 + sent_home(bs, s, c0, (index + 1) as nat));
            index += 1;
        }
        assert(self.places() =~= visited(bs, s, c0));
        let ghost c = self.population.cursor();
        let ghost home = self.inactive@;
        let size = self.population.len();
        let mut k: usize = self.population.drawn_so_far();
        assert(self.inactive@ =~= home + s.subrange(c as int, k as int));
        while k < size
            invariant
                c <= k <= size,
                size == s.len(),
                self.population@ == s,
                self.population.cursor() == c,
                self.wf(),
                self.places() == visited(bs, s, c0),
                self.inactive@ == home + s.subrange(c as int, k as int),
                self.recording == old(self).recording,
            decreases size - k,
        {
            self.inactive.push(self.population.get(k));
            assert(s.subrange(c as int, k + 1) =~= s.subrange(c as int, k as int).push(s[k as int]));
            k += 1;
        }
    }

    /// First step of a day: the population is reordered at random, the
    /// buildings take their turns in order, and whoever is left stays home.
    /// The order comes from the current thread's generator.
    ///
    /// Whatever the new order is, it holds the same individuals, and from it
    /// the step is the one that `distribute` makes.
    pub fn visit(&mut self) -> (r: &mut Self)
        requires
            old(self).wf(),
        ensures
            *final(self) == *final(r),
            r.wf(),
            r.spec_population()@.to_multiset() == old(self).spec_population()@.to_multiset(),
            r.spec_population()@.len() == old(self).spec_population()@.len(),
            r.spec_population().cursor() == cursor_at(
                old(self).places(),
                r.spec_population()@,
                0,
                old(self).places().len(),
            ),
            r.places() == visited(old(self).places(), r.spec_population()@, 0),
            r.at_home() == home_after_visits(
                old(self).places(),
                r.spec_population()@,
                0,
                old(self).at_home(),
            ),
            r.spec_recording() == old(self).spec_recording(),
    {
        let mut rng = ambient_rng();
        self.population.shuffle(&mut rng);
        self.distribute();
        self
    }

    /// The first step of a day, with the order taken from a seeded
    /// generator: the same seed gives the same visits again.
    pub fn visit_seeded(&mut self, rng: &mut rand_pcg::Pcg32) -> (r: &mut Self)
        requires
            old(self).wf(),
        ensures
            *final(self) == *final(r),
            r.wf(),
            r.spec_population()@.to_multiset() == old(self).spec_population()@.to_multiset(),
            r.spec_population()@.len() == old(self).spec_population()@.len(),
            r.spec_population().cursor() == cursor_at(
                old(self).places(),
                r.spec_population()@,
                0,
                old(self).places().len(),
            ),
            r.places() == visited(old(self).places(), r.spec_population()@, 0),
            r.at_home() == home_after_visits(
                old(self).places(),
                r.spec_population()@,
                0,
                old(self).at_home(),
            ),
            r.spec_recording() == old(self).spec_recording(),
    {
        self.population.shuffle_seeded(rng);
        self.distribute();
        self
    }

    /// Second step of a day: the contagion takes its course inside each
    /// building, and everybody at home is one day further.
    pub fn propagate(&mut self)
        requires
            old(self).wf(),
        ensures
            final(self).wf(),
            final(self).places() == propagated(old(self).places()),
            final(self).at_home() == aged_at_home(old(self).at_home()),
            final(self).spec_population() == old(self).spec_population(),
            final(self).spec_recording() == old(self).spec_recording(),
    {
        let ghost bs = self.places();
        let n = self.buildings.len();
        let mut i: usize = 0;
        while i < n
            invariant
                i <= n,
                n == bs.len(),
                self.places().len() == n,
                forall|j: int| 0 <= j < i ==> self.places()[j] == propagated(bs)[j],
                forall|j: int| i <= j < n ==> self.places()[j] == bs[j],
                forall|j: int| 0 <= j < n ==> (#[trigger] bs[j]).wf(),
                self.population == old(self).population,
                self.inactive == old(self).inactive,
                self.recording == old(self).recording,
            decreases n - i,
        {
            assert(self.places()[i as int] == bs[i as int]);
            assert(bs[i as int].wf());
            self.buildings[i].propagate();
            i += 1;
        }
        assert(self.places() =~= propagated(bs));
        let ghost home = self.inactive@;
        let m = self.inactive.len();
        let mut k: usize = 0;
        while k < m
            invariant
                k <= m,
                m == home.len(),
                self.inactive@.len() == m,
                forall|j: int| 0 <= j < k ==> self.inactive@[j] == home[j].aged(),
                forall|j: int| k <= j < m ==> self.inactive@[j] == home[j],
                self.places() == propagated(bs),
                self.population == old(self).population,
                self.recording == old(self).recording,
            decreases m - k,
        {
            let next = self.inactive[k].next_day();
            self.inactive.set(k, next);
            k += 1;
        }
        assert(self.inactive@ =~= aged_at_home(home));
        assert(same_spreading(self.places())) by {
            assert forall|i: int, j: int| 0 <= i < n && 0 <= j < n implies (
            #[trigger] self.places()[i]).spreading == (#[trigger] self.places()[j]).spreading by {
                assert(bs[i].spreading == bs[j].spreading);
            }
        }
    }

    /// Third step of a day: everybody leaves the buildings and, with those who
    /// stayed at home, forms the new population, nobody drawn yet.
    ///
    /// Returns the number of newly infected: those who leave a building in
    /// their first day of infection.
    pub fn go_home(&mut self) -> (r: usize)
        requires
            old(self).wf(),
        ensures
            final(self).wf(),
            r == count_of(housed(old(self).places()), Individual::Infected1),
            final(self).spec_population()@ == housed(old(self).places()) + old(self).at_home(),
            final(self).spec_population().cursor() == 0,
            final(self).places() == emptied(old(self).places()),
            final(self).at_home() == Seq::<Individual>::empty(),
            final(self).spec_recording() == old(self).spec_recording(),
    {
        let ghost bs = self.places();
        let mut new_vec: Vec<Individual> = Vec::new();
        let n = self.buildings.len();
        let mut i: usize = 0;
        assert(bs.take(0) =~= Seq::empty());
        while i < n
            invariant
                i <= n,
                n == bs.len(),
                self.places().len() == n,
                forall|j: int| 0 <= j < i ==> self.places()[j] == emptied(bs)[j],
                forall|j: int| i <= j < n ==> self.places()[j] == bs[j],
                new_vec@ == housed(bs.take(i as int)),
                self.inactive == old(self).inactive,
                self.recording == old(self).recording,
            decreases n - i,
        {
            assert(self.places()[i as int] == bs[i as int]);
            assert(bs.take(i + 1).drop_last() =~= bs.take(i as int));
            let mut out = self.buildings[i].empty();
            new_vec.append(&mut out);
            i += 1;
        }
        assert(bs.take(n as int) =~= bs);
        assert(self.places() =~= emptied(bs));
        let newly_infected = count_in(&new_vec, Individual::Infected1);
        new_vec.append(&mut self.inactive);
        self.population = Population::new(new_vec);
        assert(same_spreading(self.places())) by {
            assert forall|i: int, j: int| 0 <= i < n && 0 <= j < n implies (
            #[trigger] self.places()[i]).spreading == (#[trigger] self.places()[j]).spreading by {
                assert(bs[i].spreading == bs[j].spreading);
            }
        }
        assert forall|i: int| 0 <= i < n implies (#[trigger] self.places()[i]).wf() by {
            assert(bs[i].wf());
        }
        newly_infected
    }

    /// Number of individuals on the board: in the population, inside the
    /// buildings and at home.
    pub open spec fn headcount(&self) -> nat {
        headcount_of(self.places(), self.spec_population()@, self.at_home())
    }

    /// Advances the population by one day, without registering the day:
    /// visit, propagate, go home. Returns the number of newly infected.
    ///
    /// The day is the one that some order of the old population gives. At its
    /// end the buildings are empty, nobody is marked as at home, and the
    /// population counts everybody who was on the board.
    pub fn advance_population(&mut self) -> (r: usize)
        requires
            old(self).wf(),
        ensures
            final(self).wf(),
            exists|order: Seq<Individual>| #[trigger]
                is_day(
                    old(self).places(),
                    old(self).spec_population()@,
                    old(self).at_home(),
                    order,
                    final(self).spec_population()@,
                    r as nat,
                ),
            final(self).spec_population()@.len() == old(self).headcount(),
            final(self).headcount() == old(self).headcount(),
            final(self).spec_population().cursor() == 0,
            final(self).places() == emptied(old(self).places()),
            final(self).at_home() == Seq::<Individual>::empty(),
            final(self).rested(),
            final(self).spec_recording() == old(self).spec_recording(),
    {
        let ghost bs = self.places();
        let ghost before = self.population@;
        let ghost home = self.inactive@;
        self.visit();
        let ghost order = self.population@;
        self.propagate();
        let newly_infected = self.go_home();
        proof {
            assert(self.places() =~= emptied(bs));
            assert(is_day(bs, before, home, order, self.population@, newly_infected as nat));
            lemma_day_keeps_everybody(bs, order, home);
            lemma_emptied_count(bs);
        }
        newly_infected
    }

    /// Advances one day and registers it in the history.
    pub fn advance(&mut self) -> (r: &mut Self)
        requires
            old(self).wf(),
        ensures
            *final(self) == *final(r),
            r.wf(),
            r.spec_recording().infections().len() == old(self).spec_recording().infections().len()
                + 1,
            exists|order: Seq<Individual>| #[trigger]
                is_day(
                    old(self).places(),
                    old(self).spec_population()@,
                    old(self).at_home(),
                    order,
                    r.spec_population()@,
                    r.spec_recording().infections().last() as nat,
                ),
            r.spec_population()@.len() == old(self).headcount(),
            r.headcount() == old(self).headcount(),
            r.spec_population().cursor() == 0,
            r.places() == emptied(old(self).places()),
            r.at_home() == Seq::<Individual>::empty(),
            forall|s: Individual| #[trigger]
                r.spec_recording().table()[s] == old(self).spec_recording().table()[s].push(
                    day_after(
                        old(self).spec_recording().last_column(),
                        r.spec_recording().infections().last(),
                        s,
                    ) as usize,
                ),
            r.spec_recording().infections().drop_last() == old(self).spec_recording().infections(),
            r.spec_recording().openings() == old(self).spec_recording().openings().push(
                open_count(r.places()) as usize,
            ),
            r.spec_recording().mode() == old(self).spec_recording().mode(),
            old(self).in_step() ==> r.in_step(),
            r.rested(),
            one_day(old(self)@, r@),
    {
        let newly_infected = self.advance_population();
        let ghost order = choose|order: Seq<Individual>|
            is_day(
                old(self).places(),
                old(self).population@,
                old(self).inactive@,
                order,
                self.population@,
                newly_infected as nat,
            );
        let ghost after = self.population@;
        let ghost history = self.recording.infections();
        assert(history == old(self).recording.infections());
        self.recording.register(newly_infected, &self.buildings);
        assert(self.population@ == after);
        assert(self.recording.infections() == history.push(newly_infected));
        assert(self.recording.infections().drop_last() =~= history);
        assert(self.recording.infections().last() == newly_infected);
        assert(is_day(
            old(self).places(),
            old(self).population@,
            old(self).inactive@,
            order,
            self.population@,
            self.recording.infections().last() as nat,
        ));
        proof {
            let a = old(self)@;
            let b = self@;
            assert(b.infections.len() == a.infections.len() + 1);
            assert(b.infections.drop_last() == a.infections);
            assert(is_day(a.places, a.people, a.home, order, b.people, b.infections.last() as nat));
            assert(b.places == emptied(a.places));
            assert(b.openings == a.openings.push(open_count(b.places) as usize));
            assert forall|s: Individual| #[trigger]
                b.table[s] == a.table[s].push(
                    day_after(last_column_of(a.table), b.infections.last(), s) as usize,
                ) by {
                assert(self.recording.table()[s] == old(self).recording.table()[s].push(
                    day_after(old(self).recording.last_column(), newly_infected, s) as usize,
                ));
            }
            assert(one_day(a, b));
        }
        proof {
            if old(self).in_step() {
                let bs = old(self).places();
                let before = old(self).population@;
                let home = old(self).inactive@;
                let last = old(self).recording.last_column();
                old(self).recording.lemma_wf();
                lemma_day_counts(bs, order, home);
                lemma_everybody_order(bs, before, order, home, Individual::Healthy);
                lemma_everybody_order(bs, before, order, home, Individual::Infected1);
                lemma_everybody_order(bs, before, order, home, Individual::Infected2);
                lemma_everybody_order(bs, before, order, home, Individual::Infected3);
                lemma_everybody_order(bs, before, order, home, Individual::Sick);
                lemma_everybody_order(bs, before, order, home, Individual::Immune);
                lemma_emptied_count(bs);
                assert(everybody(self.places(), after, self.inactive@) =~= after);
                assert(last[0] == old(self).recording.table()[Individual::Healthy].last());
                assert(last[1] == old(self).recording.table()[Individual::Infected1].last());
                assert(last[2] == old(self).recording.table()[Individual::Infected2].last());
                assert(last[3] == old(self).recording.table()[Individual::Infected3].last());
                assert(last[4] == old(self).recording.table()[Individual::Sick].last());
                assert(last[5] == old(self).recording.table()[Individual::Immune].last());
                assert forall|s: Individual|
                    (#[trigger] self.recording.table()[s]).last() == count_of(after, s) by {
                    assert(self.recording.table()[s].last() == day_after(
                        last,
                        newly_infected,
                        s,
                    ) as usize);
                }
            }
        }
        self
    }

    /// Advances `num_stages` days, one after the other, registering each.
    pub fn advance_many(&mut self, num_stages: usize) -> (r: &mut Self)
        requires
            old(self).wf(),
        ensures
            *final(self) == *final(r),
            r.wf(),
            r.headcount() == old(self).headcount(),
            forall|s: Individual|
                (#[trigger] r.spec_recording().table()[s]).len() == old(
                    self,
                ).spec_recording().table()[s].len() + num_stages && r.spec_recording().table()[s].take(
                    old(self).spec_recording().table()[s].len() as int,
                ) == old(self).spec_recording().table()[s],
            r.spec_recording().infections().len() == old(self).spec_recording().infections().len()
                + num_stages,
            r.spec_recording().mode() == old(self).spec_recording().mode(),
            old(self).in_step() ==> r.in_step(),
            old(self).rested() ==> r.rested(),
            after_days(old(self)@, r@, num_stages as nat),
            num_stages == 0 ==> *r == *old(self),
            num_stages > 0 ==> {
                &&& r.spec_population()@.len() == old(self).headcount()
                &&& r.spec_population().cursor() == 0
                &&& r.places() == emptied(old(self).places())
                &&& r.at_home() == Seq::<Individual>::empty()
            },
    {
        let ghost bs = self.places();
        let mut day: usize = 0;
        assert forall|s: Individual|
            (#[trigger] self.recording.table()[s]).take(self.recording.table()[s].len() as int)
                == self.recording.table()[s] by {
            assert(self.recording.table()[s].take(self.recording.table()[s].len() as int)
                =~= self.recording.table()[s]);
        }
        while day < num_stages
            invariant
                day <= num_stages,
                self.wf(),
                bs == old(self).places(),
                self.headcount() == old(self).headcount(),
                forall|s: Individual|
                    (#[trigger] self.recording.table()[s]).len() == old(self).recording.table()[s].len()
                        + day && self.recording.table()[s].take(
                        old(self).recording.table()[s].len() as int,
                    ) == old(self).recording.table()[s],
                self.recording.infections().len() == old(self).recording.infections().len() + day,
                self.recording.mode() == old(self).recording.mode(),
                old(self).in_step() ==> self.in_step(),
                old(self).rested() ==> self.rested(),
                after_days(old(self)@, self@, day as nat),
                day == 0 ==> *self == *old(self),
                day > 0 ==> {
                    &&& self.population@.len() == old(self).headcount()
                    &&& self.population.cursor() == 0
                    &&& self.places() == emptied(bs)
                    &&& self.inactive@ == Seq::<Individual>::empty()
                },
            decreases num_stages - day,
        {
            let ghost table = self.recording.table();
            let ghost mid = self@;
            self.advance();
            proof {
                lemma_one_more_day(old(self)@, mid, self@, day as nat);
            }
            assert forall|s: Individual|
                (#[trigger] self.recording.table()[s]).len() == old(self).recording.table()[s].len()
                    + day + 1 && self.recording.table()[s].take(
                    old(self).recording.table()[s].len() as int,
                ) == old(self).recording.table()[s] by {
                let first = old(self).recording.table()[s];
                assert(table[s].len() == first.len() + day && table[s].take(first.len() as int)
                    == first);
                assert(self.recording.table()[s].take(first.len() as int) =~= table[s].take(
                    first.len() as int,
                ));
            }
            assert(emptied(emptied(bs)) =~= emptied(bs));
            day += 1;
        }
        self
    }

    /// Immunizes one person: the first healthy individual of the population
    /// becomes immune, and so does one in the history's last column.
    ///
    /// Fails, and changes nothing, where the population or the history has
    /// nobody healthy; between two days, with the history in step, that is
    /// where the population has nobody healthy.
    pub fn immunize(&mut self) -> (r: Result<&mut Self, ActionError>)
        requires
            old(self).wf(),
        ensures
            r.is_ok() == (old(self).spec_population()@.contains(Individual::Healthy) && old(
                self,
            ).spec_recording().table()[Individual::Healthy].last() > 0),
            old(self).in_step() && old(self).rested() ==> r.is_ok() == old(
                self,
            ).spec_population()@.contains(Individual::Healthy),
            match r {
                Ok(b) => {
                    &&& *final(self) == *final(b)
                    &&& b.wf()
                    &&& b.spec_population()@ == replace_first(
                        old(self).spec_population()@,
                        Individual::Healthy,
                        Individual::Immune,
                    )
                    &&& b.spec_population().cursor() == old(self).spec_population().cursor()
                    &&& b.places() == old(self).places()
                    &&& b.at_home() == old(self).at_home()
                    &&& b.spec_recording().table() == move_one(
                        old(self).spec_recording().table(),
                        Individual::Healthy,
                        Individual::Immune,
                    )
                    &&& old(self).in_step() ==> b.in_step()
                    &&& forall|q: Individual|
                        #[trigger] b.count(q) + if q == Individual::Healthy {
                            1nat
                        } else {
                            0nat
                        } == old(self).count(q) + if q == Individual::Immune {
                            1nat
                        } else {
                            0nat
                        }
                    &&& b.spec_recording().infections() == old(self).spec_recording().infections()
                    &&& b.spec_recording().openings() == old(self).spec_recording().openings()
                    &&& b.spec_recording().mode() == old(self).spec_recording().mode()
                },
                Err(e) => e == ActionError::NoHealthyLeft && *final(self) == *old(self),
            },
    {
        proof {
            if self.in_step() && self.rested() {
                self.lemma_in_step_counts(Individual::Healthy);
            }
        }
        if !self.recording.has(Individual::Healthy) {
            return Err(ActionError::NoHealthyLeft);
        }
        match self.population.immunize() {
            Ok(_) => {},
            Err(e) => {
                return Err(e);
            },
        }
        let _ = self.recording.immunize();
        proof {
            old(self).lemma_move_in_step(*self, Individual::Healthy, Individual::Immune);
            assert forall|q: Individual|
                #[trigger] self.count(q) + if q == Individual::Healthy {
                    1nat
                } else {
                    0nat
                } == old(self).count(q) + if q == Individual::Immune {
                    1nat
                } else {
                    0nat
                } by {
                lemma_everybody_replace(
                    old(self).places(),
                    old(self).population@,
                    old(self).inactive@,
                    Individual::Healthy,
                    Individual::Immune,
                    q,
                );
            }
        }
        Ok(self)
    }

    /// Turns one person back from immune to healthy, in the population and
    /// in the history's last column.
    ///
    /// Fails, and changes nothing, where the population or the history has
    /// nobody immune; between two days, with the history in step, that is
    /// where the population has nobody immune.
    pub fn reverse_immunize(&mut self) -> (r: Result<&mut Self, ActionError>)
        requires
            old(self).wf(),
        ensures
            r.is_ok() == (old(self).spec_population()@.contains(Individual::Immune) && old(
                self,
            ).spec_recording().table()[Individual::Immune].last() > 0),
            old(self).in_step() && old(self).rested() ==> r.is_ok() == old(
                self,
            ).spec_population()@.contains(Individual::Immune),
            match r {
                Ok(b) => {
                    &&& *final(self) == *final(b)
                    &&& b.wf()
                    &&& b.spec_population()@ == replace_first(
                        old(self).spec_population()@,
                        Individual::Immune,
                        Individual::Healthy,
                    )
                    &&& b.spec_population().cursor() == old(self).spec_population().cursor()
                    &&& b.places() == old(self).places()
                    &&& b.at_home() == old(self).at_home()
                    &&& b.spec_recording().table() == move_one(
                        old(self).spec_recording().table(),
                        Individual::Immune,
                        Individual::Healthy,
                    )
                    &&& old(self).in_step() ==> b.in_step()
                    &&& forall|q: Individual|
                        #[trigger] b.count(q) + if q == Individual::Immune {
                            1nat
                        } else {
                            0nat
                        } == old(self).count(q) + if q == Individual::Healthy {
                            1nat
                        } else {
                            0nat
                        }
                    &&& b.spec_recording().infections() == old(self).spec_recording().infections()
                    &&& b.spec_recording().openings() == old(self).spec_recording().openings()
                    &&& b.spec_recording().mode() == old(self).spec_recording().mode()
                },
                Err(e) => e == ActionError::NoImmuneLeft && *final(self) == *old(self),
            },
    {
        proof {
            if self.in_step() && self.rested() {
                self.lemma_in_step_counts(Individual::Immune);
            }
        }
        if !self.recording.has(Individual::Immune) {
            return Err(ActionError::NoImmuneLeft);
        }
        match self.population.reverse_immunize() {
            Ok(_) => {},
            Err(e) => {
                return Err(e);
            },
        }
        let _ = self.recording.reverse_immunize();
        proof {
            old(self).lemma_move_in_step(*self, Individual::Immune, Individual::Healthy);
            assert forall|q: Individual|
                #[trigger] self.count(q) + if q == Individual::Immune {
                    1nat
                } else {
                    0nat
                } == old(self).count(q) + if q == Individual::Healthy {
                    1nat
                } else {
                    0nat
                } by {
                lemma_everybody_replace(
                    old(self).places(),
                    old(self).population@,
                    old(self).inactive@,
                    Individual::Immune,
                    Individual::Healthy,
                    q,
                );
            }
        }
        Ok(self)
    }

    /// A board in step stays so when the first `from` of its population
    /// becomes `to` and the history moves one individual likewise.
    proof fn lemma_move_in_step(&self, after: Board, from: Individual, to: Individual)
        requires
            self.spec_recording().wf(),
            from != to,
            self.spec_population()@.contains(from),
            self.spec_recording().table()[from].last() > 0,
            after.spec_population()@ == replace_first(self.spec_population()@, from, to),
            after.places() == self.places(),
            after.at_home() == self.at_home(),
            after.spec_recording().table() == move_one(self.spec_recording().table(), from, to),
        ensures
            self.in_step() ==> after.in_step(),
    {
        if self.in_step() {
            let table = self.spec_recording().table();
            let last = self.spec_recording().last_column();
            self.spec_recording().lemma_wf();
            assert(last[from.rank() as int] == table[Individual::of_rank(from.rank())].last());
            assert(last[to.rank() as int] == table[Individual::of_rank(to.rank())].last());
            assert(Individual::of_rank(from.rank()) == from);
            assert(Individual::of_rank(to.rank()) == to);
            assert(table.contains_key(from) && table.contains_key(to));
            assert forall|s: Individual|
                (#[trigger] after.spec_recording().table()[s]).last() == count_of(
                    everybody(after.places(), after.spec_population()@, after.at_home()),
                    s,
                ) by {
                lemma_everybody_replace(
                    self.places(),
                    self.spec_population()@,
                    self.at_home(),
                    from,
                    to,
                    s,
                );
                assert(table[s].last() == count_of(
                    everybody(self.places(), self.spec_population()@, self.at_home()),
                    s,
                ));
            }
        }
    }

    /// Two boards with the same individuals and the same counting table are
    /// both in step or both out of step.
    proof fn lemma_in_step_same(&self, other: Board)
        requires
            self.spec_recording().table() == other.spec_recording().table(),
            everybody(self.places(), self.spec_population()@, self.at_home()) == everybody(
                other.places(),
                other.spec_population()@,
                other.at_home(),
            ),
        ensures
            self.in_step() == other.in_step(),
    {
        let all = everybody(self.places(), self.spec_population()@, self.at_home());
        let table = self.spec_recording().table();
        if self.in_step() {
            assert forall|s: Individual|
                (#[trigger] other.spec_recording().table()[s]).last() == count_of(all, s) by {
                assert(table[s].last() == count_of(all, s));
            }
        }
        if other.in_step() {
            assert forall|s: Individual| (#[trigger] table[s]).last() == count_of(all, s) by {
                assert(other.spec_recording().table()[s].last() == count_of(all, s));
            }
        }
    }

    /// Applies `action` to the door of every building called `name`.
    fn set_doors(&mut self, name: &str, action: Door)
        ensures
            final(self).places() == with_doors(old(self).places(), name@, action),
            final(self).spec_population() == old(self).spec_population(),
            final(self).at_home() == old(self).at_home(),
            final(self).spec_recording() == old(self).spec_recording(),
            final(self).wf() == old(self).wf(),
            final(self).in_step() == old(self).in_step(),
    {
        let ghost bs = self.places();
        let wanted = name.to_owned();
        let n = self.buildings.len();
        let mut i: usize = 0;
        while i < n
            invariant
                i <= n,
                n == bs.len(),
                wanted@ == name@,
                self.places().len() == n,
                forall|j: int| 0 <= j < i ==> self.places()[j] == with_doors(bs, name@, action)[j],
                forall|j: int| i <= j < n ==> self.places()[j] == bs[j],
                self.population == old(self).population,
                self.inactive == old(self).inactive,
                self.recording == old(self).recording,
            decreases n - i,
        {
            assert(self.places()[i as int] == bs[i as int]);
            let here = self.buildings[i].name().to_owned();
            let ghost before = self.places();
            if here == wanted {
                match action {
                    Door::Toggle => self.buildings[i].toggle(),
                    Door::Open => self.buildings[i].open(),
                    Door::Close => self.buildings[i].close(),
                }
            }
            assert forall|j: int| 0 <= j < i + 1 implies self.places()[j] == with_doors(
                bs,
                name@,
                action,
            )[j] by {
                if j < i {
                    assert(self.places()[j] == before[j]);
                }
            }
            i += 1;
        }
        assert(self.places() =~= with_doors(bs, name@, action));
        proof {
            lemma_housed_same(bs, self.places());
            assert(housed(self.places()) == housed(bs));
            assert(everybody(self.places(), self.population@, self.inactive@) == everybody(
                bs,
                old(self).population@,
                old(self).inactive@,
            ));
            assert(self.recording.table() == old(self).recording.table());
            old(self).lemma_in_step_same(*self);
        }
        proof {
            let after = self.places();
            assert(same_spreading(after) == same_spreading(bs)) by {
                assert forall|i: int| 0 <= i < n implies (#[trigger] after[i]).spreading
                    == bs[i].spreading by {}
                if same_spreading(bs) {
                    assert forall|i: int, j: int| 0 <= i < n && 0 <= j < n implies (
                    #[trigger] after[i]).spreading == (#[trigger] after[j]).spreading by {
                        assert(bs[i].spreading == bs[j].spreading);
                    }
                }
                if same_spreading(after) {
                    assert forall|i: int, j: int| 0 <= i < n && 0 <= j < n implies (
                    #[trigger] bs[i]).spreading == (#[trigger] bs[j]).spreading by {
                        assert(after[i].spreading == after[j].spreading);
                    }
                }
            }
            assert((forall|i: int| 0 <= i < n ==> (#[trigger] after[i]).wf()) == (forall|i: int|
                0 <= i < n ==> (#[trigger] bs[i]).wf())) by {
                assert forall|i: int| 0 <= i < n implies (#[trigger] after[i]).wf() == bs[i].wf() by {}
                if forall|i: int| 0 <= i < n ==> (#[trigger] bs[i]).wf() {
                    assert forall|i: int| 0 <= i < n implies (#[trigger] after[i]).wf() by {
                        assert(bs[i].wf());
                    }
                }
                if forall|i: int| 0 <= i < n ==> (#[trigger] after[i]).wf() {
                    assert forall|i: int| 0 <= i < n implies (#[trigger] bs[i]).wf() by {
                        assert(after[i].wf());
                    }
                }
            }
        }
    }

    /// Opens every closed building called `name` and closes every open one;
    /// does nothing where no building has that name.
    pub fn toggle(&mut self, name: &str) -> (r: &mut Self)
        ensures
            *final(self) == *final(r),
            r.places() == with_doors(old(self).places(), name@, Door::Toggle),
            r.spec_population() == old(self).spec_population(),
            r.at_home() == old(self).at_home(),
            r.spec_recording() == old(self).spec_recording(),
            r.wf() == old(self).wf(),
            r.in_step() == old(self).in_step(),
    {
        self.set_doors(name, Door::Toggle);
        self
    }

    /// Closes every building called `name`; does nothing where no building
    /// has that name.
    pub fn close(&mut self, name: &str) -> (r: &mut Self)
        ensures
            *final(self) == *final(r),
            r.places() == with_doors(old(self).places(), name@, Door::Close),
            r.spec_population() == old(self).spec_population(),
            r.at_home() == old(self).at_home(),
            r.spec_recording() == old(self).spec_recording(),
            r.wf() == old(self).wf(),
            r.in_step() == old(self).in_step(),
    {
        self.set_doors(name, Door::Close);
        self
    }

    /// Opens every building called `name`; does nothing where no building
    /// has that name.
    pub fn open(&mut self, name: &str) -> (r: &mut Self)
        ensures
            *final(self) == *final(r),
            r.places() == with_doors(old(self).places(), name@, Door::Open),
            r.spec_population() == old(self).spec_population(),
            r.at_home() == old(self).at_home(),
            r.spec_recording() == old(self).spec_recording(),
            r.wf() == old(self).wf(),
            r.in_step() == old(self).in_step(),
    {
        self.set_doors(name, Door::Open);
        self
    }

    /// The spreading mode that the buildings share.
    pub fn spreading(&self) -> (r: &Spreading)
        requires
            self.places().len() > 0,
        ensures
            *r == self.places()[0].spreading,
    {
        self.buildings[0].spreading()
    }

    /// Changes the spreading mode of every building and puts it on record.
    pub fn set_spreading(&mut self, new_spreading: Spreading) -> (r: &mut Self)
        requires
            old(self).wf(),
        ensures
            *final(self) == *final(r),
            r.wf(),
            r.places() == with_mode(old(self).places(), new_spreading),
            r.spec_population() == old(self).spec_population(),
            r.at_home() == old(self).at_home(),
            r.spec_recording().table() == old(self).spec_recording().table(),
            r.spec_recording().infections() == old(self).spec_recording().infections(),
            r.spec_recording().openings() == old(self).spec_recording().openings(),
            r.spec_recording().mode() == new_spreading,
            r.in_step() == old(self).in_step(),
    {
        let ghost bs = self.places();
        let n = self.buildings.len();
        let mut i: usize = 0;
        while i < n
            invariant
                i <= n,
                n == bs.len(),
                self.places().len() == n,
                forall|j: int| 0 <= j < i ==> self.places()[j] == bs[j].with_spreading(new_spreading),
                forall|j: int| i <= j < n ==> self.places()[j] == bs[j],
                self.population == old(self).population,
                self.inactive == old(self).inactive,
                self.recording == old(self).recording,
            decreases n - i,
        {
            assert(self.places()[i as int] == bs[i as int]);
            let ghost before = self.places();
            self.buildings[i].set_spreading(new_spreading);
            assert forall|j: int| 0 <= j < i + 1 implies self.places()[j] == bs[j].with_spreading(
                new_spreading,
            ) by {
                if j < i {
                    assert(self.places()[j] == before[j]);
                }
            }
            i += 1;
        }
        assert(self.places() =~= with_mode(bs, new_spreading));
        proof {
            lemma_housed_same(bs, self.places());
            assert(housed(self.places()) == housed(bs));
        }
        self.recording.set_spreading(new_spreading);
        proof {
            assert(everybody(self.places(), self.population@, self.inactive@) == everybody(
                bs,
                old(self).population@,
                old(self).inactive@,
            ));
            assert(self.recording.table() == old(self).recording.table());
            old(self).lemma_in_step_same(*self);
        }
        assert forall|i: int| 0 <= i < n implies (#[trigger] self.places()[i]).wf() by {
            assert(bs[i].wf());
        }
        self
    }

    /// The counting table of the history.
    pub fn counting_table(&self) -> (r: &CountingTable)
        ensures
            r@ == self.spec_recording().table(),
            self.wf() ==> r.wf(),
    {
        self.recording.counting_table()
    }

    /// The population.
    pub fn population(&self) -> (r: &Population)
        ensures
            *r == self.spec_population(),
    {
        &self.population
    }

    /// The buildings.
    pub fn buildings(&self) -> (r: &Vec<Building>)
        ensures
            views_of(r@) == self.places(),
    {
        &self.buildings
    }

    /// Who stays at home today.
    pub fn inactive(&self) -> (r: &Vec<Individual>)
        ensures
            r@ == self.at_home(),
    {
        &self.inactive
    }

    /// The history.
    pub fn recording(&self) -> (r: &Recording)
        ensures
            *r == self.spec_recording(),
    {
        &self.recording
    }

    /// An independent copy: nothing is shared with `self`.
    pub fn duplicate(&self) -> (r: Board)
        requires
            self.wf(),
        ensures
            r.wf(),
            r.spec_population()@ == self.spec_population()@,
            r.spec_population().cursor() == self.spec_population().cursor(),
            r.places() == self.places(),
            r.at_home() == self.at_home(),
            r.spec_recording().table() == self.spec_recording().table(),
            r.spec_recording().infections() == self.spec_recording().infections(),
            r.spec_recording().openings() == self.spec_recording().openings(),
            r.spec_recording().mode() == self.spec_recording().mode(),
    {
        let mut inactive: Vec<Individual> = Vec::new();
        let mut i: usize = 0;
        while i < self.inactive.len()
            invariant
                i <= self.inactive.len(),
                inactive@ == self.inactive@.take(i as int),
            decreases self.inactive.len() - i,
        {
            inactive.push(self.inactive[i]);
            assert(self.inactive@.take(i + 1) =~= self.inactive@.take(i as int).push(
                self.inactive@[i as int],
            ));
            i += 1;
        }
        assert(self.inactive@.take(i as int) =~= self.inactive@);
        Board {
            population: self.population.duplicate(),
            buildings: copy_buildings(&self.buildings),
            inactive,
            recording: self.recording.duplicate(),
        }
    }
}

/// `n` individuals in state `state`.
pub open spec fn copies(state: Individual, n: nat) -> Seq<Individual> {
    Seq::new(n, |k: int| state)
}

/// An empty, open building with the default spreading mode.
pub open spec fn fresh(name: Seq<char>, cols: nat, rows: nat) -> BuildingView {
    BuildingView {
        name,
        cols,
        rows,
        occupants: Seq::empty(),
        open: true,
        spreading: Spreading::OneNear,
    }
}

/// The buildings of the default board.
pub open spec fn default_places() -> Seq<BuildingView> {
    seq![
        fresh("Concert Hall"@, 5, 4),
        fresh("Bakery"@, 2, 2),
        fresh("School"@, 4, 4),
        fresh("Pharmacy"@, 2, 2),
        fresh("Restaurant"@, 4, 3),
        fresh("Gym"@, 4, 2),
        fresh("Supermarket"@, 2, 2),
        fresh("Shopping Center"@, 4, 2),
    ]
}

/// Among `n` individuals in one state, all are counted for that state and
/// none for another.
pub proof fn lemma_count_copies(state: Individual, n: nat, q: Individual)
    ensures
        count_of(copies(state, n), q) == if state == q { n } else { 0 },
    decreases n,
{
    if n == 0 {
        lemma_count_bound(copies(state, 0), q);
    } else {
        lemma_count_copies(state, (n - 1) as nat, q);
        assert(copies(state, n) =~= copies(state, (n - 1) as nat).push(state));
        lemma_count_push(copies(state, (n - 1) as nat), state, q);
    }
}

/// The counts of the default population: 98 healthy, 2 in their first day
/// of infection.
pub proof fn lemma_count_default(q: Individual)
    ensures
        count_of(copies(Individual::Healthy, 98) + copies(Individual::Infected1, 2), q) == if q
            == Individual::Healthy {
            98nat
        } else if q == Individual::Infected1 {
            2nat
        } else {
            0nat
        },
{
    lemma_count_copies(Individual::Healthy, 98, q);
    lemma_count_copies(Individual::Infected1, 2, q);
    lemma_count_concat(copies(Individual::Healthy, 98), copies(Individual::Infected1, 2), q);
}

/// Appends `n` individuals in state `state`.
fn append_copies(items: &mut Vec<Individual>, state: Individual, n: usize)
    ensures
        final(items)@ == old(items)@ + copies(state, n as nat),
{
    let mut k: usize = 0;
    assert(items@ =~= old(items)@ + copies(state, 0));
    while k < n
        invariant
            k <= n,
            items@ == old(items)@ + copies(state, k as nat),
        decreases n - k,
    {
        items.push(state);
        assert(items@ =~= old(items)@ + copies(state, (k + 1) as nat));
        k += 1;
    }
}

/// An empty, open building with the default spreading mode.
fn fresh_building(name: &str, cols: usize, rows: usize) -> (r: Building)
    requires
        cols * rows <= usize::MAX,
    ensures
        r@ == fresh(name@, cols as nat, rows as nat),
        r@.wf(),
{
    BuildingBuilder::new(name).with_size(cols, rows).build()
}

impl Default for Board {
    /// The default board: the default population, and eight open, empty
    /// buildings with the default spreading mode.
    fn default() -> (r: Board)
        ensures
            r.wf(),
            r.spec_population()@ == copies(Individual::Healthy, 98) + copies(
                Individual::Infected1,
                2,
            ),
            r.spec_population().cursor() == 0,
            r.places() == default_places(),
            r.at_home() == Seq::<Individual>::empty(),
            forall|s: Individual| #[trigger]
                r.spec_recording().table()[s] == seq![count_of(r.spec_population()@, s) as usize],
            r.spec_recording().infections() == Seq::<usize>::empty(),
            r.spec_recording().openings() == Seq::<usize>::empty(),
            r.spec_recording().mode() == Spreading::OneNear,
            r.in_step(),
            r.rested(),
            r.count(Individual::Healthy) == 98,
            r.count(Individual::Infected1) == 2,
            r.count(Individual::Infected2) == 0,
            r.count(Individual::Infected3) == 0,
            r.count(Individual::Sick) == 0,
            r.count(Individual::Immune) == 0,
    {
        let population = Population::default();
        assert(population@ =~= copies(Individual::Healthy, 98) + copies(Individual::Infected1, 2));
        let mut buildings: Vec<Building> = Vec::new();
        buildings.push(fresh_building("Concert Hall", 5, 4));
        buildings.push(fresh_building("Bakery", 2, 2));
        buildings.push(fresh_building("School", 4, 4));
        buildings.push(fresh_building("Pharmacy", 2, 2));
        buildings.push(fresh_building("Restaurant", 4, 3));
        buildings.push(fresh_building("Gym", 4, 2));
        buildings.push(fresh_building("Supermarket", 2, 2));
        buildings.push(fresh_building("Shopping Center", 4, 2));
        assert(views_of(buildings@) =~= default_places());
        let ghost people = population@;
        proof {
            lemma_housed_empty(default_places());
            assert(everybody(default_places(), people, Seq::empty()) =~= people);
            lemma_count_default(Individual::Healthy);
            lemma_count_default(Individual::Infected1);
            lemma_count_default(Individual::Infected2);
            lemma_count_default(Individual::Infected3);
            lemma_count_default(Individual::Sick);
            lemma_count_default(Individual::Immune);
        }
        Board::new(population, buildings)
    }
}

/// Description of a board at its start: how many individuals are in each
/// state, the size of each building, and the spreading mode.
#[derive(Debug, Clone, PartialEq, Eq)]
pub struct BoardBuilder {
    /// Number of healthy individuals.
    pub healthy: usize,
    /// Number of individuals in their first day of infection.
    pub infected1: usize,
    /// Number of individuals in their second day of infection.
    pub infected2: usize,
    /// Number of individuals in their third day of infection.
    pub infected3: usize,
    /// Number of sick individuals.
    pub sick: usize,
    /// Number of immune individuals.
    pub immune: usize,
    /// Columns and rows of each building.
    pub buildings: Vec<(usize, usize)>,
    /// Spreading mode of all buildings.
    pub spreading: Spreading,
}

impl Default for BoardBuilder {
    fn default() -> (r: BoardBuilder)
        ensures
            r.healthy == 0 && r.infected1 == 0 && r.infected2 == 0 && r.infected3 == 0 && r.sick
                == 0 && r.immune == 0,
            r.buildings@ == Seq::<(usize, usize)>::empty(),
            r.spreading == Spreading::OneNear,
    {
        BoardBuilder {
            healthy: 0,
            infected1: 0,
            infected2: 0,
            infected3: 0,
            sick: 0,
            immune: 0,
            buildings: Vec::new(),
            spreading: Spreading::OneNear,
        }
    }
}

impl BoardBuilder {
    /// Number of healthy individuals.
    pub fn healthy(&self) -> (r: &usize)
        ensures
            *r == self.healthy,
    {
        &self.healthy
    }

    /// Sets number of healthy individuals.
    pub fn set_healthy(&mut self, val: usize) -> (r: &mut Self)
        ensures
            *final(self) == *final(r),
            *r == (BoardBuilder { healthy: val, ..*old(self) }),
    {
        self.healthy = val;
        self
    }

    /// Number of healthy individuals, to change in place.
    pub fn healthy_mut(&mut self) -> (r: &mut usize)
        ensures
            *r == old(self).healthy,
            *final(self) == (BoardBuilder { healthy: *final(r), ..*old(self) }),
    {
        &mut self.healthy
    }

    /// Number of individuals in their first day of infection.
    pub fn infected1(&self) -> (r: &usize)
        ensures
            *r == self.infected1,
    {
        &self.infected1
    }

    /// Sets number of individuals in their first day of infection.
    pub fn set_infected1(&mut self, val: usize) -> (r: &mut Self)
        ensures
            *final(self) == *final(r),
            *r == (BoardBuilder { infected1: val, ..*old(self) }),
    {
        self.infected1 = val;
        self
    }

    /// Number of individuals in their first day of infection, to change in place.
    pub fn infected1_mut(&mut self) -> (r: &mut usize)
        ensures
            *r == old(self).infected1,
            *final(self) == (BoardBuilder { infected1: *final(r), ..*old(self) }),
    {
        &mut self.infected1
    }

    /// Number of individuals in their second day of infection.
    pub fn infected2(&self) -> (r: &usize)
        ensures
            *r == self.infected2,
    {
        &self.infected2
    }

    /// Sets number of individuals in their second day of infection.
    pub fn set_infected2(&mut self, val: usize) -> (r: &mut Self)
        ensures
            *final(self) == *final(r),
            *r == (BoardBuilder { infected2: val, ..*old(self) }),
    {
        self.infected2 = val;
        self
    }

    /// Number of individuals in their second day of infection, to change in place.
    pub fn infected2_mut(&mut self) -> (r: &mut usize)
        ensures
            *r == old(self).infected2,
            *final(self) == (BoardBuilder { infected2: *final(r), ..*old(self) }),
    {
        &mut self.infected2
    }

    /// Number of individuals in their third day of infection.
    pub fn infected3(&self) -> (r: &usize)
        ensures
            *r == self.infected3,
    {
        &self.infected3
    }

    /// Sets number of individuals in their third day of infection.
    pub fn set_infected3(&mut self, val: usize) -> (r: &mut Self)
        ensures
            *final(self) == *final(r),
            *r == (BoardBuilder { infected3: val, ..*old(self) }),
    {
        self.infected3 = val;
        self
    }

    /// Number of individuals in their third day of infection, to change in place.
    pub fn infected3_mut(&mut self) -> (r: &mut usize)
        ensures
            *r == old(self).infected3,
            *final(self) == (BoardBuilder { infected3: *final(r), ..*old(self) }),
    {
        &mut self.infected3
    }

    /// Number of sick individuals.
    pub fn sick(&self) -> (r: &usize)
        ensures
            *r == self.sick,
    {
        &self.sick
    }

    /// Sets number of sick individuals.
    pub fn set_sick(&mut self, val: usize) -> (r: &mut Self)
        ensures
            *final(self) == *final(r),
            *r == (BoardBuilder { sick: val, ..*old(self) }),
    {
        self.sick = val;
        self
    }

    /// Number of sick individuals, to change in place.
    pub fn sick_mut(&mut self) -> (r: &mut usize)
        ensures
            *r == old(self).sick,
            *final(self) == (BoardBuilder { sick: *final(r), ..*old(self) }),
    {
        &mut self.sick
    }

    /// Number of immune individuals.
    pub fn immune(&self) -> (r: &usize)
        ensures
            *r == self.immune,
    {
        &self.immune
    }

    /// Sets number of immune individuals.
    pub fn set_immune(&mut self, val: usize) -> (r: &mut Self)
        ensures
            *final(self) == *final(r),
            *r == (BoardBuilder { immune: val, ..*old(self) }),
    {
        self.immune = val;
        self
    }

    /// Number of immune individuals, to change in place.
    pub fn immune_mut(&mut self) -> (r: &mut usize)
        ensures
            *r == old(self).immune,
            *final(self) == (BoardBuilder { immune: *final(r), ..*old(self) }),
    {
        &mut self.immune
    }

    /// Columns and rows of each building.
    pub fn buildings(&self) -> (r: &Vec<(usize, usize)>)
        ensures
            *r == self.buildings,
    {
        &self.buildings
    }

    /// Sets columns and rows of each building.
    pub fn set_buildings(&mut self, val: Vec<(usize, usize)>) -> (r: &mut Self)
        ensures
            *final(self) == *final(r),
            *r == (BoardBuilder { buildings: val, ..*old(self) }),
    {
        self.buildings = val;
        self
    }

    /// Columns and rows of each building, to change in place.
    pub fn buildings_mut(&mut self) -> (r: &mut Vec<(usize, usize)>)
        ensures
            *r == old(self).buildings,
            *final(self) == (BoardBuilder { buildings: *final(r), ..*old(self) }),
    {
        &mut self.buildings
    }

    /// Spreading mode of all buildings.
    pub fn spreading(&self) -> (r: &Spreading)
        ensures
            *r == self.spreading,
    {
        &self.spreading
    }

    /// Sets spreading mode of all buildings.
    pub fn set_spreading(&mut self, val: Spreading) -> (r: &mut Self)
        ensures
            *final(self) == *final(r),
            *r == (BoardBuilder { spreading: val, ..*old(self) }),
    {
        self.spreading = val;
        self
    }

    /// Spreading mode of all buildings, to change in place.
    pub fn spreading_mut(&mut self) -> (r: &mut Spreading)
        ensures
            *r == old(self).spreading,
            *final(self) == (BoardBuilder { spreading: *final(r), ..*old(self) }),
    {
        &mut self.spreading
    }

    /// The population described: state after state in the order of
    /// progression.
    pub open spec fn initial_population(&self) -> Seq<Individual> {
        copies(Individual::Healthy, self.healthy as nat) + copies(
            Individual::Infected1,
            self.infected1 as nat,
        ) + copies(Individual::Infected2, self.infected2 as nat) + copies(
            Individual::Infected3,
            self.infected3 as nat,
        ) + copies(Individual::Sick, self.sick as nat) + copies(
            Individual::Immune,
            self.immune as nat,
        )
    }

    /// The buildings described: open, empty, all called "Defult".
    pub open spec fn planned_places(&self) -> Seq<BuildingView> {
        Seq::new(
            self.buildings@.len(),
            |k: int|
                fresh(
                    "Defult"@,
                    self.buildings@[k].0 as nat,
                    self.buildings@[k].1 as nat,
                ).with_spreading(self.spreading),
        )
    }

    /// Every building described has a number of places that is a `usize`.
    pub open spec fn fits(&self) -> bool {
        forall|k: int|
            0 <= k < self.buildings@.len() ==> (#[trigger] self.buildings@[k]).0
                * self.buildings@[k].1 <= usize::MAX
    }

    /// `board` is the board described, at its start.
    pub open spec fn describes(&self, board: Board) -> bool {
        &&& board.wf()
        &&& board.spec_population()@ == self.initial_population()
        &&& board.spec_population().cursor() == 0
        &&& board.places() == self.planned_places()
        &&& board.at_home() == Seq::<Individual>::empty()
        &&& forall|s: Individual| #[trigger]
            board.spec_recording().table()[s] == seq![
                count_of(self.initial_population(), s) as usize,
            ]
        &&& board.spec_recording().infections() == Seq::<usize>::empty()
        &&& board.spec_recording().openings() == Seq::<usize>::empty()
        &&& board.spec_recording().mode() == if self.buildings@.len() > 0 {
            self.spreading
        } else {
            Spreading::OneNear
        }
        &&& board.in_step()
        &&& board.rested()
    }

    /// The board described.
    pub fn build(self) -> (r: Board)
        requires
            self.fits(),
        ensures
            self.describes(r),
    {
        let mut population_vec: Vec<Individual> = Vec::new();
        append_copies(&mut population_vec, Individual::Healthy, self.healthy);
        append_copies(&mut population_vec, Individual::Infected1, self.infected1);
        append_copies(&mut population_vec, Individual::Infected2, self.infected2);
        append_copies(&mut population_vec, Individual::Infected3, self.infected3);
        append_copies(&mut population_vec, Individual::Sick, self.sick);
        append_copies(&mut population_vec, Individual::Immune, self.immune);
        assert(population_vec@ =~= self.initial_population());
        let population = Population::new(population_vec);
        let mut buildings: Vec<Building> = Vec::new();
        let mut k: usize = 0;
        while k < self.buildings.len()
            invariant
                k <= self.buildings.len(),
                self.fits(),
                buildings@.len() == k,
                forall|j: int| 0 <= j < k ==> (#[trigger] buildings@[j])@ == self.planned_places()[j],
                forall|j: int| 0 <= j < k ==> (#[trigger] buildings@[j])@.wf(),
            decreases self.buildings.len() - k,
        {
            let size = self.buildings[k];
            assert(self.buildings@[k as int].0 * self.buildings@[k as int].1 <= usize::MAX);
            let building = BuildingBuilder::new("Defult").with_size(size.0, size.1).with_spreading(
                self.spreading,
            ).and_is_open().build();
            assert(building@ == self.planned_places()[k as int]);
            buildings.push(building);
            k += 1;
        }
        assert(views_of(buildings@) =~= self.planned_places());
        proof {
            lemma_housed_empty(self.planned_places());
        }
        Board::new(population, buildings)
    }
}

} // verus!