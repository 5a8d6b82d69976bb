use crate::individual::Individual;
use crate::model::{
    after_days, drained_after_day, emptied, everybody, housed, is_day, lemma_day_counts,
    lemma_emptied_count, lemma_everybody_order, lemma_no_infected_no_infection, nobody, one_day,
    BoardView,
};
use crate::building::BuildingView;
use crate::population::{count_of, lemma_count_concat};
use vstd::prelude::*;

verus! {

/// Everybody on a board.
pub open spec fn all_of(v: BoardView) -> Seq<Individual> {
    everybody(v.places, v.people, v.home)
}

/// Number of days for which somebody on the board is still infected: three
/// where somebody is in the first day, two where the youngest infection is
/// in its second day, one where it is in its third, none without infection.
pub open spec fn days_infectious(all: Seq<Individual>) -> nat {
    if count_of(all, Individual::Infected1) > 0 {
        3
    } else if count_of(all, Individual::Infected2) > 0 {
        2
    } else if count_of(all, Individual::Infected3) > 0 {
        1
    } else {
        0
    }
}

/// A bound on the number of days for which the infection can go on: three
/// for each healthy individual, who may catch it on the last day of somebody
/// else's infection, and those of the youngest infection there is.
pub open spec fn fuse(all: Seq<Individual>) -> nat {
    3 * count_of(all, Individual::Healthy) + days_infectious(all)
}

/// A state that is counted zero times is the state of no element.
pub proof fn lemma_count_zero(s: Seq<Individual>, q: Individual)
    requires
        count_of(s, q) == 0,
    ensures
        forall|k: int| 0 <= k < s.len() ==> #[trigger] s[k] != q,
{
    s.to_multiset_ensures();
    assert forall|k: int| 0 <= k < s.len() implies #[trigger] s[k] != q by {
        if s[k] == q {
            assert(s.contains(q));
            assert(s.to_multiset().count(q) > 0);
        }
    }
}

/// Who is inside a building is among those whom the buildings house.
pub proof fn lemma_housed_holds(bs: Seq<BuildingView>, i: int, k: int)
    requires
        0 <= i < bs.len(),
        0 <= k < bs[i].occupants.len(),
    ensures
        housed(bs).contains(bs[i].occupants[k]),
    decreases bs.len(),
{
    let init = bs.drop_last();
    if i == bs.len() - 1 {
        assert(housed(bs)[housed(init).len() + k] == bs[i].occupants[k]);
    } else {
        lemma_housed_holds(init, i, k);
        let j = choose|j: int| 0 <= j < housed(init).len() && housed(init)[j] == init[i].occupants[k];
        assert(housed(bs)[j] == bs[i].occupants[k]);
    }
}

/// Where the board counts nobody infected, nobody in the population or
/// inside a building is infected, in whatever order the population stands.
pub proof fn lemma_nobody_infected(
    bs: Seq<BuildingView>,
    s: Seq<Individual>,
    home: Seq<Individual>,
    order: Seq<Individual>,
)
    requires
        days_infectious(everybody(bs, s, home)) == 0,
        order.to_multiset() == s.to_multiset(),
    ensures
        nobody(bs, order, |x: Individual| x.is_infected()),
{
    let all = everybody(bs, order, home);
    lemma_everybody_order(bs, s, order, home, Individual::Infected1);
    lemma_everybody_order(bs, s, order, home, Individual::Infected2);
    lemma_everybody_order(bs, s, order, home, Individual::Infected3);
    lemma_count_zero(all, Individual::Infected1);
    lemma_count_zero(all, Individual::Infected2);
    lemma_count_zero(all, Individual::Infected3);
    assert forall|j: int| 0 <= j < order.len() implies !(#[trigger] order[j]).is_infected() by {
        assert(all[housed(bs).len() + j] == order[j]);
    }
    assert forall|i: int, k: int|
        0 <= i < bs.len() && 0 <= k < bs[i].occupants.len() implies !(
        #[trigger] bs[i].occupants[k]).is_infected() by {
        lemma_housed_holds(bs, i, k);
        let j = choose|j: int| 0 <= j < housed(bs).len() && housed(bs)[j] == bs[i].occupants[k];
        assert(all[j] == bs[i].occupants[k]);
    }
}

/// One day burns the fuse: at its end nobody is infected any more, or the
/// bound has gone down by a day. And a day brings new infections only where
/// at its start somebody was infected and somebody healthy.
pub proof fn lemma_day_burns_fuse(a: BoardView, b: BoardView)
    requires
        one_day(a, b),
    ensures
        days_infectious(all_of(b)) == 0 || fuse(all_of(b)) + 1 <= fuse(all_of(a)),
        fuse(all_of(b)) <= fuse(all_of(a)),
        days_infectious(all_of(a)) == 0 ==> days_infectious(all_of(b)) == 0,
        b.infections.last() > 0 ==> days_infectious(all_of(a)) > 0 && fuse(all_of(a)) >= 4,
        count_of(b.people, Individual::Infected1) == b.infections.last(),
{
    let order = choose|order: Seq<Individual>|
        is_day(a.places, a.people, a.home, order, b.people, b.infections.last() as nat);
    lemma_day_counts(a.places, order, a.home);
    lemma_everybody_order(a.places, a.people, order, a.home, Individual::Healthy);
    lemma_everybody_order(a.places, a.people, order, a.home, Individual::Infected1);
    lemma_everybody_order(a.places, a.people, order, a.home, Individual::Infected2);
    lemma_everybody_order(a.places, a.people, order, a.home, Individual::Infected3);
    lemma_emptied_count(a.places);
    assert(all_of(b) =~= b.people);
    if days_infectious(all_of(a)) == 0 {
        lemma_nobody_infected(a.places, a.people, a.home, order);
        lemma_no_infected_no_infection(a.places, order);
    }
}

/// Many days burn the fuse day by day: at their end nobody is infected any
/// more, or the bound has gone down by their number.
pub proof fn lemma_days_burn_fuse(a: BoardView, b: BoardView, n: nat)
    requires
        after_days(a, b, n),
    ensures
        days_infectious(all_of(b)) == 0 || fuse(all_of(b)) + n <= fuse(all_of(a)),
        fuse(all_of(b)) <= fuse(all_of(a)),
    decreases n,
{
    if n > 0 {
        let mid = choose|mid: BoardView| after_days(a, mid, (n - 1) as nat) && one_day(mid, b);
        lemma_days_burn_fuse(a, mid, (n - 1) as nat);
        lemma_day_burns_fuse(mid, b);
    }
}

/// The infection dies out: once a board has gone on for more days than
/// three for each of its healthy individuals and those of its youngest
/// infection, a further day brings no new infection, and nobody is in the
/// first day of infection at its end, whatever the orders of the draws were.
pub proof fn lemma_infection_dies_out(a: BoardView, mid: BoardView, b: BoardView, n: nat)
    requires
        after_days(a, mid, n),
        one_day(mid, b),
        n + 4 > fuse(all_of(a)),
    ensures
        b.infections.last() == 0,
        count_of(b.people, Individual::Infected1) == 0,
{
    lemma_days_burn_fuse(a, mid, n);
    lemma_day_burns_fuse(mid, b);
}

/// After three days for each healthy individual that a board had, no day
/// brings a new infection any more.
pub proof fn lemma_no_infection_after(a: BoardView, mid: BoardView, b: BoardView, n: nat)
    requires
        after_days(a, mid, n),
        one_day(mid, b),
        n >= 3 * count_of(all_of(a), Individual::Healthy),
    ensures
        b.infections.last() == 0,
        count_of(b.people, Individual::Infected1) == 0,
{
    lemma_infection_dies_out(a, mid, b, n);
}

} // verus!
