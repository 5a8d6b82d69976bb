use crate::building::{spread, BuildingView, Spreading};
use crate::individual::Individual;
use crate::recording::{day_after, last_column_of, open_count};
use crate::building::{day_inside, exposed};
use crate::population::{
    count_of, first_position, lemma_count_bound, lemma_count_concat, lemma_count_none,
    lemma_count_one, lemma_count_push, lemma_first_exists, replace_first,
};
use vstd::prelude::*;

verus! {

/// Number of visitors that a building still lets in: none where it is closed.
pub open spec fn room_of(b: BuildingView) -> nat {
    if b.open {
        (b.capacity() - b.occupants.len()) as nat
    } else {
        0
    }
}

/// Number of draws, from position `c` of `s` on, that a building with `room`
/// free places makes: it draws until it is full or nobody is left, and a sick
/// individual takes no place.
pub open spec fn taken(s: Seq<Individual>, c: nat, room: nat) -> nat
    decreases s.len() - c,
{
    if room == 0 || c >= s.len() {
        0
    } else if s[c as int] == Individual::Sick {
        1 + taken(s, c + 1, room)
    } else {
        1 + taken(s, c + 1, (room - 1) as nat)
    }
}

/// The individuals whom those draws let into the building, in their order.
pub open spec fn admitted(s: Seq<Individual>, c: nat, room: nat) -> Seq<Individual>
    decreases s.len() - c,
{
    if room == 0 || c >= s.len() {
        Seq::empty()
    } else if s[c as int] == Individual::Sick {
        admitted(s, c + 1, room)
    } else {
        seq![s[c as int]] + admitted(s, c + 1, (room - 1) as nat)
    }
}

/// The individuals whom those draws send home, in their order: the sick.
pub open spec fn diverted(s: Seq<Individual>, c: nat, room: nat) -> Seq<Individual>
    decreases s.len() - c,
{
    if room == 0 || c >= s.len() {
        Seq::empty()
    } else if s[c as int] == Individual::Sick {
        seq![s[c as int]] + diverted(s, c + 1, room)
    } else {
        diverted(s, c + 1, (room - 1) as nat)
    }
}

/// Position of the next draw when it is the turn of building `i`, the
/// buildings taking their turns in order from position `c` of `s`.
pub open spec fn cursor_at(bs: Seq<BuildingView>, s: Seq<Individual>, c: nat, i: nat) -> nat
    decreases i,
{
    if i == 0 {
        c
    } else {
        let before = cursor_at(bs, s, c, (i - 1) as nat);
        before + taken(s, before, room_of(bs[i - 1]))
    }
}

/// The individuals sent home during the turns of the first `i` buildings.
pub open spec fn sent_home(bs: Seq<BuildingView>, s: Seq<Individual>, c: nat, i: nat) -> Seq<
    Individual,
>
    decreases i,
{
    if i == 0 {
        Seq::empty()
    } else {
        sent_home(bs, s, c, (i - 1) as nat) + diverted(
            s,
            cursor_at(bs, s, c, (i - 1) as nat),
            room_of(bs[i - 1]),
        )
    }
}

/// Building `i` after its turn.
pub open spec fn visited_one(bs: Seq<BuildingView>, s: Seq<Individual>, c: nat, i: int)
    -> BuildingView {
    bs[i].with_occupants(
        bs[i].occupants + admitted(s, cursor_at(bs, s, c, i as nat), room_of(bs[i])),
    )
}

/// The buildings after all of them had their turn.
pub open spec fn visited(bs: Seq<BuildingView>, s: Seq<Individual>, c: nat) -> Seq<BuildingView> {
    Seq::new(bs.len(), |i: int| visited_one(bs, s, c, i))
}

/// Everybody who is at home after the visits: who was there before, who was
/// sent home during the turns, and who was never drawn.
pub open spec fn home_after_visits(
    bs: Seq<BuildingView>,
    s: Seq<Individual>,
    c: nat,
    home: Seq<Individual>,
) -> Seq<Individual> {
    home + sent_home(bs, s, c, bs.len()) + s.subrange(
        cursor_at(bs, s, c, bs.len()) as int,
        s.len() as int,
    )
}

/// The buildings after one day of contagion inside each.
pub open spec fn propagated(bs: Seq<BuildingView>) -> Seq<BuildingView> {
    Seq::new(
        bs.len(),
        |i: int| bs[i].with_occupants(spread(bs[i].spreading, bs[i].cols as int, bs[i].occupants)),
    )
}

/// The individuals after one day at home.
pub open spec fn aged_at_home(home: Seq<Individual>) -> Seq<Individual> {
    Seq::new(home.len(), |k: int| home[k].aged())
}

/// The occupants of all buildings, building after building.
pub open spec fn housed(bs: Seq<BuildingView>) -> Seq<Individual>
    decreases bs.len(),
{
    if bs.len() == 0 {
        Seq::empty()
    } else {
        housed(bs.drop_last()) + bs.last().occupants
    }
}

/// The buildings, all empty.
pub open spec fn emptied(bs: Seq<BuildingView>) -> Seq<BuildingView> {
    Seq::new(bs.len(), |i: int| bs[i].with_occupants(Seq::empty()))
}

/// Who leaves the buildings at the end of a day that starts with the
/// buildings `bs` and draws from the order `s`.
pub open spec fn drained_after_day(bs: Seq<BuildingView>, s: Seq<Individual>) -> Seq<Individual> {
    housed(propagated(visited(bs, s, 0)))
}

/// The population at the end of that day: who leaves the buildings, then who
/// stayed at home.
pub open spec fn population_after_day(
    bs: Seq<BuildingView>,
    s: Seq<Individual>,
    home: Seq<Individual>,
) -> Seq<Individual> {
    drained_after_day(bs, s) + aged_at_home(home_after_visits(bs, s, 0, home))
}

/// All buildings have the same spreading mode.
pub open spec fn same_spreading(bs: Seq<BuildingView>) -> bool {
    forall|i: int, j: int|
        0 <= i < bs.len() && 0 <= j < bs.len() ==> (#[trigger] bs[i]).spreading == (
        #[trigger] bs[j]).spreading
}

/// Number of individuals on a board with the buildings `bs`, the population
/// `s` and `home` at home.
pub open spec fn headcount_of(bs: Seq<BuildingView>, s: Seq<Individual>, home: Seq<Individual>)
    -> nat {
    housed(bs).len() + s.len() + home.len()
}

/// `after` and `newly` are the population and the number of newly infected
/// at the end of a day that starts with the buildings `bs`, the population
/// `before` and `home` at home, and on which the population is drawn in the
/// order `order`.
pub open spec fn is_day(
    bs: Seq<BuildingView>,
    before: Seq<Individual>,
    home: Seq<Individual>,
    order: Seq<Individual>,
    after: Seq<Individual>,
    newly: nat,
) -> bool {
    &&& order.to_multiset() == before.to_multiset()
    &&& order.len() == before.len()
    &&& after == population_after_day(bs, order, home)
    &&& newly == count_of(drained_after_day(bs, order), Individual::Infected1)
}

/// What to do with the door of a building.
#[derive(Debug, Clone, Copy, PartialEq, Eq, Structural)]
pub enum Door {
    /// Open it if it is closed, close it if it is open.
    Toggle,
    /// Open it.
    Open,
    /// Close it.
    Close,
}

/// Whether a door is open after `action`.
pub open spec fn door_after(action: Door, open: bool) -> bool {
    match action {
        Door::Toggle => !open,
        Door::Open => true,
        Door::Close => false,
    }
}

/// The buildings after `action` on the door of each one called `name`.
pub open spec fn with_doors(bs: Seq<BuildingView>, name: Seq<char>, action: Door) -> Seq<
    BuildingView,
> {
    Seq::new(
        bs.len(),
        |i: int|
            if bs[i].name == name {
                bs[i].with_open(door_after(action, bs[i].open))
            } else {
                bs[i]
            },
    )
}

/// The buildings, all with the spreading mode `mode`.
pub open spec fn with_mode(bs: Seq<BuildingView>, mode: Spreading) -> Seq<BuildingView> {
    Seq::new(bs.len(), |i: int| bs[i].with_spreading(mode))
}

/// One turn: every draw either lets somebody in or sends somebody home, no
/// draw goes past the end, nobody sick is let in and only the sick are sent
/// home.
pub proof fn lemma_turn(s: Seq<Individual>, c: nat, room: nat)
    ensures
        admitted(s, c, room).len() + diverted(s, c, room).len() == taken(s, c, room),
        admitted(s, c, room).len() <= room,
        c <= s.len() ==> c + taken(s, c, room) <= s.len(),
        forall|k: int|
            0 <= k < admitted(s, c, room).len() ==> #[trigger] admitted(s, c, room)[k]
                != Individual::Sick,
        forall|k: int|
            0 <= k < diverted(s, c, room).len() ==> #[trigger] diverted(s, c, room)[k]
                == Individual::Sick,
    decreases s.len() - c,
{
    if room == 0 || c >= s.len() {
    } else if s[c as int] == Individual::Sick {
        lemma_turn(s, c + 1, room);
    } else {
        lemma_turn(s, c + 1, (room - 1) as nat);
    }
}

/// The turns never draw past the end.
pub proof fn lemma_cursor_in_range(bs: Seq<BuildingView>, s: Seq<Individual>, c: nat, i: nat)
    requires
        c <= s.len(),
    ensures
        c <= cursor_at(bs, s, c, i) <= s.len(),
    decreases i,
{
    if i > 0 {
        lemma_cursor_in_range(bs, s, c, (i - 1) as nat);
        lemma_turn(s, cursor_at(bs, s, c, (i - 1) as nat), room_of(bs[i - 1]));
    }
}

/// During the turns of the first `i` buildings nobody is lost: who was drawn
/// is inside one of them or sent home.
pub proof fn lemma_turns_keep_everybody(bs: Seq<BuildingView>, s: Seq<Individual>, c: nat, i: nat)
    requires
        c <= s.len(),
        i <= bs.len(),
    ensures
        housed(visited(bs, s, c).take(i as int)).len() + sent_home(bs, s, c, i).len() == housed(
            bs.take(i as int),
        ).len() + cursor_at(bs, s, c, i) - c,
    decreases i,
{
    if i == 0 {
        assert(visited(bs, s, c).take(0) =~= Seq::empty());
        assert(bs.take(0) =~= Seq::empty());
    } else {
        let j = (i - 1) as nat;
        lemma_turns_keep_everybody(bs, s, c, j);
        lemma_turn(s, cursor_at(bs, s, c, j), room_of(bs[j as int]));
        assert(visited(bs, s, c).take(i as int).drop_last() =~= visited(bs, s, c).take(j as int));
        assert(bs.take(i as int).drop_last() =~= bs.take(j as int));
    }
}

/// A day inside changes nobody's place: as many leave the buildings as were
/// inside.
pub proof fn lemma_propagated_count(bs: Seq<BuildingView>)
    ensures
        housed(propagated(bs)).len() == housed(bs).len(),
    decreases bs.len(),
{
    if bs.len() > 0 {
        lemma_propagated_count(bs.drop_last());
        assert(propagated(bs).drop_last() =~= propagated(bs.drop_last()));
    }
}

/// Empty buildings house nobody.
pub proof fn lemma_emptied_count(bs: Seq<BuildingView>)
    ensures
        housed(emptied(bs)).len() == 0,
    decreases bs.len(),
{
    if bs.len() > 0 {
        lemma_emptied_count(bs.drop_last());
        assert(emptied(bs).drop_last() =~= emptied(bs.drop_last()));
    }
}

/// The visits lose nobody and add nobody.
pub proof fn lemma_visits_keep_everybody(
    bs: Seq<BuildingView>,
    s: Seq<Individual>,
    c: nat,
    home: Seq<Individual>,
)
    requires
        c <= s.len(),
    ensures
        housed(visited(bs, s, c)).len() + home_after_visits(bs, s, c, home).len() == housed(
            bs,
        ).len() + home.len() + s.len() - c,
{
    lemma_turns_keep_everybody(bs, s, c, bs.len());
    lemma_cursor_in_range(bs, s, c, bs.len());
    assert(visited(bs, s, c).take(bs.len() as int) =~= visited(bs, s, c));
    assert(bs.take(bs.len() as int) =~= bs);
}

/// Cardinality is conserved over a day: the population at its end counts
/// everybody who was in the population, in a building or at home at its
/// start, whatever the order of the draws.
pub proof fn lemma_day_keeps_everybody(
    bs: Seq<BuildingView>,
    s: Seq<Individual>,
    home: Seq<Individual>,
)
    ensures
        population_after_day(bs, s, home).len() == headcount_of(bs, s, home),
        housed(bs).len() == 0 && home.len() == 0 ==> population_after_day(bs, s, home).len()
            == s.len(),
{
    lemma_visits_keep_everybody(bs, s, 0, home);
    lemma_propagated_count(visited(bs, s, 0));
}

/// The visits let nobody sick into a building: its occupants are those it
/// had, followed by newcomers none of whom is sick.
pub proof fn lemma_no_sick_enters(bs: Seq<BuildingView>, s: Seq<Individual>, c: nat, i: int)
    requires
        0 <= i < bs.len(),
    ensures
        forall|k: int|
            bs[i].occupants.len() <= k < visited(bs, s, c)[i].occupants.len() ==> #[trigger] visited(
                bs,
                s,
                c,
            )[i].occupants[k] != Individual::Sick,
        visited(bs, s, c)[i].occupants.take(bs[i].occupants.len() as int) == bs[i].occupants,
{
    let at = cursor_at(bs, s, c, i as nat);
    lemma_turn(s, at, room_of(bs[i]));
    let inside = admitted(s, at, room_of(bs[i]));
    assert forall|k: int|
        bs[i].occupants.len() <= k < visited(bs, s, c)[i].occupants.len() implies #[trigger] visited(
        bs,
        s,
        c,
    )[i].occupants[k] != Individual::Sick by {
        assert(visited(bs, s, c)[i].occupants[k] == inside[k - bs[i].occupants.len()]);
    }
    assert(visited(bs, s, c)[i].occupants.take(bs[i].occupants.len() as int) =~= bs[i].occupants);
}

/// Everybody whom a turn sends home is sick.
pub proof fn lemma_sent_home_sick(bs: Seq<BuildingView>, s: Seq<Individual>, c: nat, i: nat)
    ensures
        forall|k: int|
            0 <= k < sent_home(bs, s, c, i).len() ==> #[trigger] sent_home(bs, s, c, i)[k]
                == Individual::Sick,
    decreases i,
{
    if i > 0 {
        let j = (i - 1) as nat;
        lemma_sent_home_sick(bs, s, c, j);
        let at = cursor_at(bs, s, c, j);
        lemma_turn(s, at, room_of(bs[j as int]));
        let earlier = sent_home(bs, s, c, j);
        let now = diverted(s, at, room_of(bs[j as int]));
        assert(sent_home(bs, s, c, i) == earlier + now);
        assert forall|k: int| 0 <= k < sent_home(bs, s, c, i).len() implies #[trigger] sent_home(
            bs,
            s,
            c,
            i,
        )[k] == Individual::Sick by {
            if k < earlier.len() {
                assert(sent_home(bs, s, c, i)[k] == earlier[k]);
            } else {
                assert(sent_home(bs, s, c, i)[k] == now[k - earlier.len()]);
            }
        }
    }
}

/// One turn sends home every sick individual that it draws.
pub proof fn lemma_turn_sick(s: Seq<Individual>, c: nat, room: nat)
    requires
        c <= s.len(),
    ensures
        c + taken(s, c, room) <= s.len(),
        count_of(diverted(s, c, room), Individual::Sick) + count_of(
            s.subrange((c + taken(s, c, room)) as int, s.len() as int),
            Individual::Sick,
        ) == count_of(s.subrange(c as int, s.len() as int), Individual::Sick),
    decreases s.len() - c,
{
    let sick = Individual::Sick;
    lemma_turn(s, c, room);
    if room == 0 || c >= s.len() {
        lemma_count_none(diverted(s, c, room), sick);
    } else {
        let rest = s.subrange(c as int + 1, s.len() as int);
        assert(s.subrange(c as int, s.len() as int) =~= seq![s[c as int]] + rest);
        lemma_count_concat(seq![s[c as int]], rest, sick);
        lemma_count_one(s[c as int], sick);
        if s[c as int] == sick {
            lemma_turn_sick(s, c + 1, room);
            lemma_count_concat(seq![s[c as int]], diverted(s, c + 1, room), sick);
        } else {
            lemma_turn_sick(s, c + 1, (room - 1) as nat);
        }
    }
}

/// The turns of the first `i` buildings send home every sick individual
/// that they draw.
pub proof fn lemma_turns_sick(bs: Seq<BuildingView>, s: Seq<Individual>, c: nat, i: nat)
    requires
        c <= s.len(),
    ensures
        cursor_at(bs, s, c, i) <= s.len(),
        count_of(sent_home(bs, s, c, i), Individual::Sick) + count_of(
            s.subrange(cursor_at(bs, s, c, i) as int, s.len() as int),
            Individual::Sick,
        ) == count_of(s.subrange(c as int, s.len() as int), Individual::Sick),
    decreases i,
{
    let sick = Individual::Sick;
    lemma_cursor_in_range(bs, s, c, i);
    if i == 0 {
        lemma_count_none(sent_home(bs, s, c, 0), sick);
    } else {
        let j = (i - 1) as nat;
        lemma_turns_sick(bs, s, c, j);
        let at = cursor_at(bs, s, c, j);
        lemma_turn_sick(s, at, room_of(bs[j as int]));
        lemma_count_concat(sent_home(bs, s, c, j), diverted(s, at, room_of(bs[j as int])), sick);
    }
}

/// Sick individuals stay at home: after the visits everybody sick of the
/// population that was still to draw is at home, with the sick who were
/// there before.
pub proof fn lemma_all_sick_at_home(
    bs: Seq<BuildingView>,
    s: Seq<Individual>,
    c: nat,
    home: Seq<Individual>,
)
    requires
        c <= s.len(),
    ensures
        count_of(home_after_visits(bs, s, c, home), Individual::Sick) == count_of(
            home,
            Individual::Sick,
        ) + count_of(s.subrange(c as int, s.len() as int), Individual::Sick),
        c == 0 ==> count_of(home_after_visits(bs, s, c, home), Individual::Sick) == count_of(
            home,
            Individual::Sick,
        ) + count_of(s, Individual::Sick),
{
    let sick = Individual::Sick;
    let n = bs.len();
    lemma_turns_sick(bs, s, c, n);
    let left = s.subrange(cursor_at(bs, s, c, n) as int, s.len() as int);
    lemma_count_concat(home, sent_home(bs, s, c, n), sick);
    lemma_count_concat(home + sent_home(bs, s, c, n), left, sick);
    assert(s.subrange(0, s.len() as int) =~= s);
}

/// Whoever a turn lets in comes from the population.
pub proof fn lemma_admitted_drawn(s: Seq<Individual>, c: nat, room: nat)
    ensures
        forall|k: int|
            0 <= k < admitted(s, c, room).len() ==> s.contains(#[trigger] admitted(s, c, room)[k]),
    decreases s.len() - c,
{
    if room == 0 || c >= s.len() {
    } else if s[c as int] == Individual::Sick {
        let rest = admitted(s, c + 1, room);
        lemma_admitted_drawn(s, c + 1, room);
        assert(admitted(s, c, room) == rest);
        assert forall|k: int| 0 <= k < admitted(s, c, room).len() implies s.contains(
            #[trigger] admitted(s, c, room)[k],
        ) by {
            assert(s.contains(rest[k]));
        }
    } else {
        let rest = admitted(s, c + 1, (room - 1) as nat);
        lemma_admitted_drawn(s, c + 1, (room - 1) as nat);
        assert forall|k: int| 0 <= k < admitted(s, c, room).len() implies s.contains(
            #[trigger] admitted(s, c, room)[k],
        ) by {
            if k == 0 {
                assert(admitted(s, c, room)[0] == s[c as int]);
            } else {
                assert(admitted(s, c, room)[k] == rest[k - 1]);
                assert(s.contains(rest[k - 1]));
            }
        }
    }
}

/// Nobody in state `q` leaves the buildings where none of them holds
/// anybody in that state.
pub proof fn lemma_housed_none(bs: Seq<BuildingView>, q: Individual)
    requires
        forall|i: int, k: int|
            0 <= i < bs.len() && 0 <= k < bs[i].occupants.len() ==> #[trigger] bs[i].occupants[k]
                != q,
    ensures
        forall|k: int| 0 <= k < housed(bs).len() ==> #[trigger] housed(bs)[k] != q,
    decreases bs.len(),
{
    if bs.len() > 0 {
        let init = bs.drop_last();
        assert forall|i: int, k: int|
            0 <= i < init.len() && 0 <= k < init[i].occupants.len() implies #[trigger] init[i].occupants[k]
            != q by {
            assert(bs[i].occupants[k] != q);
        }
        lemma_housed_none(init, q);
        assert forall|k: int| 0 <= k < housed(bs).len() implies #[trigger] housed(bs)[k] != q by {
            if k >= housed(init).len() {
                assert(housed(bs)[k] == bs[bs.len() - 1].occupants[k - housed(init).len()]);
            }
        }
    }
}

/// Nobody in the population or inside a building is in a state for which
/// `avoided` holds.
pub open spec fn nobody(
    bs: Seq<BuildingView>,
    s: Seq<Individual>,
    avoided: spec_fn(Individual) -> bool,
) -> bool {
    &&& forall|j: int| 0 <= j < s.len() ==> !avoided(#[trigger] s[j])
    &&& forall|i: int, k: int|
        0 <= i < bs.len() && 0 <= k < bs[i].occupants.len() ==> !avoided(
            #[trigger] bs[i].occupants[k],
        )
}

/// Where nobody on the board is in one of some states, nobody inside a
/// building after the visits is.
pub proof fn lemma_visited_nobody(
    bs: Seq<BuildingView>,
    s: Seq<Individual>,
    avoided: spec_fn(Individual) -> bool,
    i: int,
    k: int,
)
    requires
        nobody(bs, s, avoided),
        0 <= i < bs.len(),
        0 <= k < visited(bs, s, 0)[i].occupants.len(),
    ensures
        !avoided(visited(bs, s, 0)[i].occupants[k]),
{
    let inside = visited(bs, s, 0)[i].occupants;
    let newcomers = admitted(s, cursor_at(bs, s, 0, i as nat), room_of(bs[i]));
    lemma_admitted_drawn(s, cursor_at(bs, s, 0, i as nat), room_of(bs[i]));
    if k < bs[i].occupants.len() {
        assert(inside[k] == bs[i].occupants[k]);
    } else {
        let x = newcomers[k - bs[i].occupants.len()];
        assert(inside[k] == x);
        assert(s.contains(x));
        let j = choose|j: int| 0 <= j < s.len() && s[j] == x;
        assert(!avoided(s[j]));
    }
}

/// Without anybody healthy, in the population or inside a building, a day
/// brings no new infection, whatever the order of the draws.
pub proof fn lemma_no_healthy_no_infection(bs: Seq<BuildingView>, s: Seq<Individual>)
    requires
        nobody(bs, s, |x: Individual| x == Individual::Healthy),
    ensures
        count_of(drained_after_day(bs, s), Individual::Infected1) == 0,
{
    let avoided = |x: Individual| x == Individual::Healthy;
    let after = propagated(visited(bs, s, 0));
    assert forall|i: int, k: int|
        0 <= i < after.len() && 0 <= k < after[i].occupants.len() implies #[trigger] after[i].occupants[k]
        != Individual::Infected1 by {
        lemma_visited_nobody(bs, s, avoided, i, k);
    }
    lemma_housed_none(after, Individual::Infected1);
    lemma_count_none(housed(after), Individual::Infected1);
}

/// Without anybody infected, in the population or inside a building, a day
/// brings no new infection, whatever the order of the draws.
pub proof fn lemma_no_infected_no_infection(bs: Seq<BuildingView>, s: Seq<Individual>)
    requires
        nobody(bs, s, |x: Individual| x.is_infected()),
    ensures
        count_of(drained_after_day(bs, s), Individual::Infected1) == 0,
{
    let avoided = |x: Individual| x.is_infected();
    let before = visited(bs, s, 0);
    let after = propagated(before);
    assert forall|i: int, k: int|
        0 <= i < after.len() && 0 <= k < after[i].occupants.len() implies #[trigger] after[i].occupants[k]
        != Individual::Infected1 by {
        let inside = before[i].occupants;
        lemma_visited_nobody(bs, s, avoided, i, k);
        assert(!inside[k].is_infected());
        assert forall|j: int| 0 <= j < inside.len() implies !(#[trigger] inside[j]).is_infected() by {
            lemma_visited_nobody(bs, s, avoided, i, j);
        }
        assert(!exposed(before[i].spreading, before[i].cols as int, inside, k));
        assert(after[i].occupants[k] == day_inside(
            before[i].spreading,
            before[i].cols as int,
            inside,
            k,
        ));
    }
    lemma_housed_none(after, Individual::Infected1);
    lemma_count_none(housed(after), Individual::Infected1);
}

/// Everybody on the board, in one sequence: who is inside a building, the
/// population, and who is at home.
pub open spec fn everybody(bs: Seq<BuildingView>, s: Seq<Individual>, home: Seq<Individual>) -> Seq<
    Individual,
> {
    housed(bs) + s + home
}

/// `b` holds the individuals of `a` one day later, each at its place: who
/// was healthy is healthy or in the first day of infection, and everybody
/// else has aged by a day.
pub open spec fn one_day_later(a: Seq<Individual>, b: Seq<Individual>) -> bool {
    &&& a.len() == b.len()
    &&& forall|k: int|
        0 <= k < a.len() ==> if a[k] == Individual::Healthy {
            #[trigger] b[k] == Individual::Healthy || b[k] == Individual::Infected1
        } else {
            b[k] == a[k].aged()
        }
}

/// What one day does to the counts: the healthy split into those who stay
/// healthy and those newly infected, every infected stage moves on, the sick
/// are joined by those who were in their third day, the immune stay.
pub open spec fn counts_one_day_later(a: Seq<Individual>, b: Seq<Individual>) -> bool {
    &&& count_of(b, Individual::Healthy) + count_of(b, Individual::Infected1) == count_of(
        a,
        Individual::Healthy,
    )
    &&& count_of(b, Individual::Infected2) == count_of(a, Individual::Infected1)
    &&& count_of(b, Individual::Infected3) == count_of(a, Individual::Infected2)
    &&& count_of(b, Individual::Sick) == count_of(a, Individual::Sick) + count_of(
        a,
        Individual::Infected3,
    )
    &&& count_of(b, Individual::Immune) == count_of(a, Individual::Immune)
}

/// The counts follow the individuals.
pub proof fn lemma_one_day_counts(a: Seq<Individual>, b: Seq<Individual>)
    requires
        one_day_later(a, b),
    ensures
        counts_one_day_later(a, b),
    decreases a.len(),
{
    if a.len() == 0 {
        lemma_count_bound(a, Individual::Healthy);
        lemma_count_bound(a, Individual::Infected1);
        lemma_count_bound(a, Individual::Infected2);
        lemma_count_bound(a, Individual::Infected3);
        lemma_count_bound(a, Individual::Sick);
        lemma_count_bound(a, Individual::Immune);
        lemma_count_bound(b, Individual::Healthy);
        lemma_count_bound(b, Individual::Infected1);
        lemma_count_bound(b, Individual::Infected2);
        lemma_count_bound(b, Individual::Infected3);
        lemma_count_bound(b, Individual::Sick);
        lemma_count_bound(b, Individual::Immune);
    } else {
        let a0 = a.drop_last();
        let b0 = b.drop_last();
        let x = a.last();
        let y = b.last();
        assert forall|k: int| 0 <= k < a0.len() implies if a0[k] == Individual::Healthy {
            #[trigger] b0[k] == Individual::Healthy || b0[k] == Individual::Infected1
        } else {
            b0[k] == a0[k].aged()
        } by {
            assert(b0[k] == b[k]);
        }
        lemma_one_day_counts(a0, b0);
        assert(a =~= a0.push(x));
        assert(b =~= b0.push(y));
        assert(b[a.len() - 1] == y);
        lemma_count_push(a0, x, Individual::Healthy);
        lemma_count_push(a0, x, Individual::Infected1);
        lemma_count_push(a0, x, Individual::Infected2);
        lemma_count_push(a0, x, Individual::Infected3);
        lemma_count_push(a0, x, Individual::Sick);
        lemma_count_push(a0, x, Individual::Immune);
        lemma_count_push(b0, y, Individual::Healthy);
        lemma_count_push(b0, y, Individual::Infected1);
        lemma_count_push(b0, y, Individual::Infected2);
        lemma_count_push(b0, y, Individual::Infected3);
        lemma_count_push(b0, y, Individual::Sick);
        lemma_count_push(b0, y, Individual::Immune);
    }
}

/// Two groups, each one day later, are together one day later.
pub proof fn lemma_one_day_concat(
    a1: Seq<Individual>,
    b1: Seq<Individual>,
    a2: Seq<Individual>,
    b2: Seq<Individual>,
)
    requires
        one_day_later(a1, b1),
        one_day_later(a2, b2),
    ensures
        one_day_later(a1 + a2, b1 + b2),
{
    let a = a1 + a2;
    let b = b1 + b2;
    assert forall|k: int| 0 <= k < a.len() implies if a[k] == Individual::Healthy {
        #[trigger] b[k] == Individual::Healthy || b[k] == Individual::Infected1
    } else {
        b[k] == a[k].aged()
    } by {
        if k < a1.len() {
            assert(b[k] == b1[k]);
        } else {
            assert(b[k] == b2[k - a1.len()]);
        }
    }
}

/// Who leaves the buildings after the contagion is who was inside, one day
/// later.
pub proof fn lemma_propagated_one_day(bs: Seq<BuildingView>)
    ensures
        one_day_later(housed(bs), housed(propagated(bs))),
    decreases bs.len(),
{
    if bs.len() > 0 {
        lemma_propagated_one_day(bs.drop_last());
        assert(propagated(bs).drop_last() =~= propagated(bs.drop_last()));
        let last = bs.last();
        let after = spread(last.spreading, last.cols as int, last.occupants);
        assert forall|k: int| 0 <= k < last.occupants.len() implies if last.occupants[k]
            == Individual::Healthy {
            #[trigger] after[k] == Individual::Healthy || after[k] == Individual::Infected1
        } else {
            after[k] == last.occupants[k].aged()
        } by {
            assert(after[k] == day_inside(last.spreading, last.cols as int, last.occupants, k));
        }
        lemma_one_day_concat(
            housed(bs.drop_last()),
            housed(propagated(bs.drop_last())),
            last.occupants,
            after,
        );
    }
}

/// One turn keeps every state's count: who is drawn is let in or sent home.
pub proof fn lemma_turn_counts(s: Seq<Individual>, c: nat, room: nat, q: Individual)
    requires
        c <= s.len(),
    ensures
        c + taken(s, c, room) <= s.len(),
        count_of(admitted(s, c, room), q) + count_of(diverted(s, c, room), q) + count_of(
            s.subrange((c + taken(s, c, room)) as int, s.len() as int),
            q,
        ) == count_of(s.subrange(c as int, s.len() as int), q),
    decreases s.len() - c,
{
    lemma_turn(s, c, room);
    if room == 0 || c >= s.len() {
        lemma_count_bound(admitted(s, c, room), q);
        lemma_count_bound(diverted(s, c, room), q);
    } else {
        let rest = s.subrange(c as int + 1, s.len() as int);
        assert(s.subrange(c as int, s.len() as int) =~= seq![s[c as int]] + rest);
        lemma_count_concat(seq![s[c as int]], rest, q);
        if s[c as int] == Individual::Sick {
            lemma_turn_counts(s, c + 1, room, q);
            lemma_count_concat(seq![s[c as int]], diverted(s, c + 1, room), q);
        } else {
            lemma_turn_counts(s, c + 1, (room - 1) as nat, q);
            lemma_count_concat(seq![s[c as int]], admitted(s, c + 1, (room - 1) as nat), q);
        }
    }
}

/// The turns of the first `i` buildings keep every state's count.
pub proof fn lemma_turns_counts(
    bs: Seq<BuildingView>,
    s: Seq<Individual>,
    c: nat,
    i: nat,
    q: Individual,
)
    requires
        c <= s.len(),
        i <= bs.len(),
    ensures
        cursor_at(bs, s, c, i) <= s.len(),
        count_of(housed(visited(bs, s, c).take(i as int)), q) + count_of(sent_home(bs, s, c, i), q)
            + count_of(s.subrange(cursor_at(bs, s, c, i) as int, s.len() as int), q) == count_of(
            housed(bs.take(i as int)),
            q,
        ) + count_of(s.subrange(c as int, s.len() as int), q),
    decreases i,
{
    lemma_cursor_in_range(bs, s, c, i);
    if i == 0 {
        assert(visited(bs, s, c).take(0) =~= Seq::empty());
        assert(bs.take(0) =~= Seq::empty());
        lemma_count_bound(sent_home(bs, s, c, 0), q);
    } else {
        let j = (i - 1) as nat;
        lemma_turns_counts(bs, s, c, j, q);
        let at = cursor_at(bs, s, c, j);
        let room = room_of(bs[j as int]);
        lemma_turn_counts(s, at, room, q);
        assert(visited(bs, s, c).take(i as int).drop_last() =~= visited(bs, s, c).take(j as int));
        assert(bs.take(i as int).drop_last() =~= bs.take(j as int));
        lemma_count_concat(sent_home(bs, s, c, j), diverted(s, at, room), q);
        lemma_count_concat(housed(bs.take(j as int)), bs[j as int].occupants, q);
        lemma_count_concat(
            housed(visited(bs, s, c).take(j as int)),
            visited_one(bs, s, c, j as int).occupants,
            q,
        );
        lemma_count_concat(bs[j as int].occupants, admitted(s, at, room), q);
    }
}

/// The visits keep every state's count: after them, inside the buildings
/// and at home are as many in each state as were on the board.
pub proof fn lemma_visits_counts(
    bs: Seq<BuildingView>,
    s: Seq<Individual>,
    home: Seq<Individual>,
    q: Individual,
)
    ensures
        count_of(housed(visited(bs, s, 0)) + home_after_visits(bs, s, 0, home), q) == count_of(
            everybody(bs, s, home),
            q,
        ),
{
    let n = bs.len();
    lemma_turns_counts(bs, s, 0, n, q);
    assert(visited(bs, s, 0).take(n as int) =~= visited(bs, s, 0));
    assert(bs.take(n as int) =~= bs);
    assert(s.subrange(0, s.len() as int) =~= s);
    let left = s.subrange(cursor_at(bs, s, 0, n) as int, s.len() as int);
    lemma_count_concat(home, sent_home(bs, s, 0, n), q);
    lemma_count_concat(home + sent_home(bs, s, 0, n), left, q);
    lemma_count_concat(housed(visited(bs, s, 0)), home_after_visits(bs, s, 0, home), q);
    lemma_count_concat(housed(bs), s, q);
    lemma_count_concat(housed(bs) + s, home, q);
}

/// The counts at the end of a day, from those at its start and the number of
/// newly infected, whatever the order of the draws: the healthy lose the
/// newly infected, who are all who are in their first day; every other
/// infected stage holds who was one stage before; the sick are joined by
/// those who were in their third day; the immune stay.
pub proof fn lemma_day_counts(bs: Seq<BuildingView>, s: Seq<Individual>, home: Seq<Individual>)
    ensures
        ({
            let before = everybody(bs, s, home);
            let after = population_after_day(bs, s, home);
            let newly = count_of(drained_after_day(bs, s), Individual::Infected1);
            &&& count_of(after, Individual::Healthy) + newly == count_of(before, Individual::Healthy)
            &&& count_of(after, Individual::Infected1) == newly
            &&& count_of(after, Individual::Infected2) == count_of(before, Individual::Infected1)
            &&& count_of(after, Individual::Infected3) == count_of(before, Individual::Infected2)
            &&& count_of(after, Individual::Sick) == count_of(before, Individual::Sick) + count_of(
                before,
                Individual::Infected3,
            )
            &&& count_of(after, Individual::Immune) == count_of(before, Individual::Immune)
        }),
{
    let inside = housed(visited(bs, s, 0));
    let outside = home_after_visits(bs, s, 0, home);
    let drained = drained_after_day(bs, s);
    let rested = aged_at_home(outside);
    lemma_propagated_one_day(visited(bs, s, 0));
    assert(one_day_later(outside, rested));
    lemma_one_day_concat(inside, drained, outside, rested);
    lemma_one_day_counts(inside + outside, drained + rested);
    lemma_visits_counts(bs, s, home, Individual::Healthy);
    lemma_visits_counts(bs, s, home, Individual::Infected1);
    lemma_visits_counts(bs, s, home, Individual::Infected2);
    lemma_visits_counts(bs, s, home, Individual::Infected3);
    lemma_visits_counts(bs, s, home, Individual::Sick);
    lemma_visits_counts(bs, s, home, Individual::Immune);
    lemma_count_none(rested, Individual::Infected1);
    lemma_count_concat(drained, rested, Individual::Infected1);
}

/// Buildings that differ at most in their doors and spreading modes house
/// the same individuals.
pub proof fn lemma_housed_same(a: Seq<BuildingView>, b: Seq<BuildingView>)
    requires
        a.len() == b.len(),
        forall|i: int| 0 <= i < a.len() ==> (#[trigger] a[i]).occupants == b[i].occupants,
    ensures
        housed(a) == housed(b),
    decreases a.len(),
{
    if a.len() > 0 {
        assert forall|i: int| 0 <= i < a.drop_last().len() implies (#[trigger] a.drop_last()[i]).occupants
            == b.drop_last()[i].occupants by {
            assert(a[i].occupants == b[i].occupants);
        }
        lemma_housed_same(a.drop_last(), b.drop_last());
        assert(a[a.len() - 1].occupants == b[a.len() - 1].occupants);
    }
}

/// Empty buildings house nobody.
pub proof fn lemma_housed_empty(bs: Seq<BuildingView>)
    requires
        forall|i: int| 0 <= i < bs.len() ==> (#[trigger] bs[i]).occupants.len() == 0,
    ensures
        housed(bs) == Seq::<Individual>::empty(),
    decreases bs.len(),
{
    if bs.len() > 0 {
        assert forall|i: int| 0 <= i < bs.drop_last().len() implies (#[trigger] bs.drop_last()[i]).occupants.len()
            == 0 by {
            assert(bs[i].occupants.len() == 0);
        }
        lemma_housed_empty(bs.drop_last());
        assert(bs[bs.len() - 1].occupants.len() == 0);
        assert(housed(bs) =~= Seq::<Individual>::empty());
    }
}

/// The order of the population does not change the counts on the board.
pub proof fn lemma_everybody_order(
    bs: Seq<BuildingView>,
    s: Seq<Individual>,
    order: Seq<Individual>,
    home: Seq<Individual>,
    q: Individual,
)
    requires
        order.to_multiset() == s.to_multiset(),
    ensures
        count_of(everybody(bs, order, home), q) == count_of(everybody(bs, s, home), q),
{
    lemma_count_concat(housed(bs), s, q);
    lemma_count_concat(housed(bs) + s, home, q);
    lemma_count_concat(housed(bs), order, q);
    lemma_count_concat(housed(bs) + order, home, q);
}

/// The counts on a board after its first `from` became `to`.
pub proof fn lemma_everybody_replace(
    bs: Seq<BuildingView>,
    s: Seq<Individual>,
    home: Seq<Individual>,
    from: Individual,
    to: Individual,
    q: Individual,
)
    requires
        s.contains(from),
        from != to,
    ensures
        count_of(everybody(bs, replace_first(s, from, to), home), q) + if q == from {
            1nat
        } else {
            0nat
        } == count_of(everybody(bs, s, home), q) + if q == to {
            1nat
        } else {
            0nat
        },
{
    broadcast use vstd::multiset::group_multiset_axioms;

    let t = replace_first(s, from, to);
    lemma_first_exists(s, from);
    vstd::seq_lib::to_multiset_update(s, first_position(s, from), to);
    s.to_multiset_ensures();
    assert(s.to_multiset().count(from) > 0);
    lemma_count_concat(housed(bs), s, q);
    lemma_count_concat(housed(bs) + s, home, q);
    lemma_count_concat(housed(bs), t, q);
    lemma_count_concat(housed(bs) + t, home, q);
}

/// What a board is, in plain values.
pub ghost struct BoardView {
    /// The population, in its order.
    pub people: Seq<Individual>,
    /// Position of the next draw.
    pub cursor: nat,
    /// The buildings.
    pub places: Seq<BuildingView>,
    /// Who stays at home today.
    pub home: Seq<Individual>,
    /// The counting table of the history.
    pub table: Map<Individual, Seq<usize>>,
    /// The new infections of each registered day.
    pub infections: Seq<usize>,
    /// The number of open buildings at the end of each registered day.
    pub openings: Seq<usize>,
    /// The spreading mode on record.
    pub mode: Spreading,
}

/// `b` is the board `a` one day later, the day registered: for some order of
/// the draws, the population is the one at the end of the day, the buildings
/// are empty, nobody is marked as at home, and the history has one more day.
pub open spec fn one_day(a: BoardView, b: BoardView) -> bool {
    &&& b.infections.len() == a.infections.len() + 1
    &&& b.infections.drop_last() == a.infections
    &&& exists|order: Seq<Individual>| #[trigger]
        is_day(a.places, a.people, a.home, order, b.people, b.infections.last() as nat)
    &&& b.cursor == 0
    &&& b.places == emptied(a.places)
    &&& b.home == Seq::<Individual>::empty()
    &&& forall|s: Individual| #[trigger]
        b.table[s] == a.table[s].push(
            day_after(last_column_of(a.table), b.infections.last(), s) as usize,
        )
    &&& b.openings == a.openings.push(open_count(b.places) as usize)
    &&& b.mode == a.mode
}

/// `b` is the board `a` after `n` days, each registered.
pub open spec fn after_days(a: BoardView, b: BoardView, n: nat) -> bool
    decreases n,
{
    if n == 0 {
        b == a
    } else {
        exists|mid: BoardView| after_days(a, mid, (n - 1) as nat) && #[trigger] one_day(mid, b)
    }
}

/// One more day after `n` days makes `n + 1` days.
pub proof fn lemma_one_more_day(a: BoardView, mid: BoardView, b: BoardView, n: nat)
    requires
        after_days(a, mid, n),
        one_day(mid, b),
    ensures
        after_days(a, b, (n + 1) as nat),
{
    let m = (n + 1) as nat;
    assert((m - 1) as nat == n);
    assert(after_days(a, mid, (m - 1) as nat) && one_day(mid, b));
}

} // verus!
