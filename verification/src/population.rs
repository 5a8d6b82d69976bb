use crate::errors::ActionError;
use crate::individual::{Individual, STATES};
use rand::seq::SliceRandom;
use vstd::prelude::*;

verus! {

/// Number of occurrences of `q` in `s`.
pub open spec fn count_of(s: Seq<Individual>, q: Individual) -> nat {
    s.to_multiset().count(q)
}

/// `k` is the position of the first `q` in `s`.
pub open spec fn is_first(s: Seq<Individual>, k: int, q: Individual) -> bool {
    &&& 0 <= k < s.len()
    &&& s[k] == q
    &&& forall|j: int| 0 <= j < k ==> s[j] != q
}

/// Position of the first `q` in `s`, where there is one.
pub open spec fn first_position(s: Seq<Individual>, q: Individual) -> int {
    choose|k: int| is_first(s, k, q)
}

/// `s` with its first `from` replaced by `to`, where there is one.
pub open spec fn replace_first(s: Seq<Individual>, from: Individual, to: Individual) -> Seq<
    Individual,
> {
    if s.contains(from) {
        s.update(first_position(s, from), to)
    } else {
        s
    }
}

/// The first occurrence is unique, so `first_position` names it.
pub proof fn lemma_first_position(s: Seq<Individual>, k: int, q: Individual)
    requires
        is_first(s, k, q),
    ensures
        first_position(s, q) == k,
        s.contains(q),
{
    let c = first_position(s, q);
    assert(is_first(s, c, q));
    if c < k {
        assert(s[c] != q);
    }
    if k < c {
        assert(s[k] != q);
    }
}

/// Counting over a sequence that grows by one element.
pub proof fn lemma_count_push(s: Seq<Individual>, x: Individual, q: Individual)
    ensures
        count_of(s.push(x), q) == count_of(s, q) + if x == q { 1nat } else { 0nat },
{
    broadcast use vstd::multiset::group_multiset_axioms;

    vstd::seq_lib::to_multiset_build(s, x);
}

/// No state is counted more often than there are elements.
pub proof fn lemma_count_bound(s: Seq<Individual>, q: Individual)
    ensures
        count_of(s, q) <= s.len(),
    decreases s.len(),
{
    broadcast use vstd::multiset::group_multiset_axioms;

    if s.len() == 0 {
        s.to_multiset_ensures();
        assert(s.to_multiset().len() == 0);
        if s.to_multiset().count(q) > 0 {
            assert(s.to_multiset().contains(q));
            assert(s.contains(q));
        }
    } else {
        lemma_count_bound(s.drop_last(), q);
        assert(s =~= s.drop_last().push(s.last()));
        lemma_count_push(s.drop_last(), s.last(), q);
    }
}

/// Counting over two sequences joined.
pub proof fn lemma_count_concat(a: Seq<Individual>, b: Seq<Individual>, q: Individual)
    ensures
        count_of(a + b, q) == count_of(a, q) + count_of(b, q),
{
    broadcast use vstd::multiset::group_multiset_axioms;

    vstd::seq_lib::lemma_multiset_commutative(a, b);
}

/// A state that no element is in is counted zero times.
pub proof fn lemma_count_none(s: Seq<Individual>, q: Individual)
    requires
        forall|k: int| 0 <= k < s.len() ==> s[k] != q,
    ensures
        count_of(s, q) == 0,
{
    s.to_multiset_ensures();
    if s.to_multiset().count(q) > 0 {
        assert(s.to_multiset().contains(q));
        assert(s.contains(q));
    }
}

/// One element counts once for its own state and not for any other.
pub proof fn lemma_count_one(x: Individual, q: Individual)
    ensures
        count_of(seq![x], q) == if x == q { 1nat } else { 0nat },
{
    let none = Seq::<Individual>::empty();
    lemma_count_bound(none, q);
    lemma_count_push(none, x, q);
    assert(seq![x] =~= none.push(x));
}

/// Sum of the numbers of individuals in the six states.
pub open spec fn count_total(s: Seq<Individual>) -> nat {
    count_of(s, Individual::Healthy) + count_of(s, Individual::Infected1) + count_of(
        s,
        Individual::Infected2,
    ) + count_of(s, Individual::Infected3) + count_of(s, Individual::Sick) + count_of(
        s,
        Individual::Immune,
    )
}

/// Every individual is in exactly one state: the six counts add up to the
/// number of individuals.
pub proof fn lemma_counts_total(s: Seq<Individual>)
    ensures
        count_total(s) == s.len(),
    decreases s.len(),
{
    if s.len() == 0 {
        lemma_count_bound(s, Individual::Healthy);
        lemma_count_bound(s, Individual::Infected1);
        lemma_count_bound(s, Individual::Infected2);
        lemma_count_bound(s, Individual::Infected3);
        lemma_count_bound(s, Individual::Sick);
        lemma_count_bound(s, Individual::Immune);
    } else {
        let init = s.drop_last();
        lemma_counts_total(init);
        assert(s =~= init.push(s.last()));
        lemma_count_push(init, s.last(), Individual::Healthy);
        lemma_count_push(init, s.last(), Individual::Infected1);
        lemma_count_push(init, s.last(), Individual::Infected2);
        lemma_count_push(init, s.last(), Individual::Infected3);
        lemma_count_push(init, s.last(), Individual::Sick);
        lemma_count_push(init, s.last(), Individual::Immune);
    }
}

/// Number of elements of `items` in state `query`.
pub fn count_in(items: &Vec<Individual>, query: Individual) -> (r: usize)
    ensures
        r == count_of(items@, query),
{
    let mut total: usize = 0;
    let mut i: usize = 0;
    assert(items@.take(0) =~= Seq::<Individual>::empty());
    proof {
        lemma_count_bound(items@.take(0), query);
    }
    while i < items.len()
        invariant
            i <= items.len(),
            total == count_of(items@.take(i as int), query),
            total <= i,
        decreases items.len() - i,
    {
        proof {
            assert(items@.take(i + 1) =~= items@.take(i as int).push(items@[i as int]));
            lemma_count_push(items@.take(i as int), items@[i as int], query);
        }
        if items[i] == query {
            total += 1;
        }
        i += 1;
    }
    assert(items@.take(i as int) =~= items@);
    total
}

/// The individuals of one day, in a fixed order, with the position of the
/// next draw.
#[derive(Debug, PartialEq, Eq)]
pub struct Population {
    population: Vec<Individual>,
    counter: usize,
}

impl View for Population {
    type V = Seq<Individual>;

    closed spec fn view(&self) -> Seq<Individual> {
        self.population@
    }
}

/// `rand::rngs::ThreadRng`, the handle of the current thread's generator.
/// Verus sees nothing inside it.
#[verifier::external_type_specification]
#[verifier::external_body]
pub struct ExThreadRng(rand::rngs::ThreadRng);

/// `rand_pcg::Lcg64Xsh32`, also known as `Pcg32`: a generator that a seed
/// and a stream determine. Verus sees nothing inside it.
#[verifier::external_type_specification]
#[verifier::external_body]
pub struct ExLcg64Xsh32(rand_pcg::Lcg64Xsh32);

/// Reorders `items` with `rand::seq::SliceRandom::shuffle`, drawing from the
/// current thread's generator. The call only swaps elements of the slice:
/// the same elements are there afterwards, each as often as before. Nothing
/// is said of their order. The generator asks the system for fresh entropy
/// from time to time, and `rand` panics where the system gives none.
#[verifier::external_body]
fn shuffle_items(items: &mut Vec<Individual>, rng: &mut rand::rngs::ThreadRng)
    ensures
        final(items)@.to_multiset() == old(items)@.to_multiset(),
        final(items)@.len() == old(items)@.len(),
{
    items.as_mut_slice().shuffle(rng);
}

/// Reorders `items` with `rand::seq::SliceRandom::shuffle`, drawing from a
/// seeded generator, whose every state leads through all of its states, so
/// that each draw ends. The call only swaps elements of the slice: the same
/// elements are there afterwards, each as often as before. Nothing is said
/// of their order, nor of the generator afterwards.
#[verifier::external_body]
fn shuffle_items_seeded(items: &mut Vec<Individual>, rng: &mut rand_pcg::Pcg32)
    ensures
        final(items)@.to_multiset() == old(items)@.to_multiset(),
        final(items)@.len() == old(items)@.len(),
{
    items.as_mut_slice().shuffle(rng);
}

impl Population {
    /// Position of the next draw: the number of draws since the last shuffle.
    pub closed spec fn cursor(&self) -> nat {
        self.counter as nat
    }

    /// The position of the next draw is not past the end.
    pub closed spec fn wf(&self) -> bool {
        self.counter <= self.population@.len()
    }

    /// What the call of `next` after `k` more calls returns.
    pub open spec fn drawn(&self, k: nat) -> Option<Individual> {
        if self.cursor() + k < self@.len() {
            Some(self@[(self.cursor() + k) as int])
        } else {
            None
        }
    }

    /// A population of the given individuals, in their order, with every one
    /// of them still to draw.
    pub fn new(individuals: Vec<Individual>) -> (r: Population)
        ensures
            r@ == individuals@,
            r.cursor() == 0,
            r.wf(),
    {
        Population { population: individuals, counter: 0 }
    }

    /// An independent copy: same individuals, same position of the next draw.
    pub fn duplicate(&self) -> (r: Population)
        ensures
            r@ == self@,
            r.cursor() == self.cursor(),
            r.wf() == self.wf(),
    {
        let mut items: Vec<Individual> = Vec::new();
        let mut i: usize = 0;
        while i < self.population.len()
            invariant
                i <= self.population.len(),
                items@ == self.population@.take(i as int),
            decreases self.population.len() - i,
        {
            items.push(self.population[i]);
            assert(self.population@.take(i + 1) =~= self.population@.take(i as int).push(
                self.population@[i as int],
            ));
            i += 1;
        }
        assert(self.population@.take(i as int) =~= self.population@);
        Population { population: items, counter: self.counter }
    }

    /// Position of the first individual in state `query`.
    fn position(&self, query: Individual) -> (r: Option<usize>)
        ensures
            match r {
                Some(k) => is_first(self@, k as int, query),
                None => !self@.contains(query),
            },
    {
        let mut i: usize = 0;
        while i < self.population.len()
            invariant
                i <= self.population.len(),
                forall|j: int| 0 <= j < i ==> self.population@[j] != query,
            decreases self.population.len() - i,
        {
            if self.population[i] == query {
                return Some(i);
            }
            i += 1;
        }
        None
    }

    /// Immunizes one person: the first healthy individual becomes immune.
    ///
    /// Fails, and changes nothing, where nobody is healthy.
    pub fn immunize(&mut self) -> (r: Result<&mut Self, ActionError>)
        requires
            old(self).wf(),
        ensures
            r.is_ok() == old(self)@.contains(Individual::Healthy),
            match r {
                Ok(p) => {
                    &&& *final(self) == *final(p)
                    &&& p@ == replace_first(old(self)@, Individual::Healthy, Individual::Immune)
                    &&& p.cursor() == old(self).cursor()
                    &&& p.wf()
                },
                Err(e) => e == ActionError::NoHealthyLeft && *final(self) == *old(self),
            },
    {
        match self.position(Individual::Healthy) {
            Some(k) => {
                proof {
                    lemma_first_position(self@, k as int, Individual::Healthy);
                }
                self.population.set(k, Individual::Immune);
                Ok(self)
            },
            None => Err(ActionError::NoHealthyLeft),
        }
    }

    /// Turns one person back: the first immune individual becomes healthy.
    ///
    /// Fails, and changes nothing, where nobody is immune.
    pub fn reverse_immunize(&mut self) -> (r: Result<&mut Self, ActionError>)
        requires
            old(self).wf(),
        ensures
            r.is_ok() == old(self)@.contains(Individual::Immune),
            match r {
                Ok(p) => {
                    &&& *final(self) == *final(p)
                    &&& p@ == replace_first(old(self)@, Individual::Immune, Individual::Healthy)
                    &&& p.cursor() == old(self).cursor()
                    &&& p.wf()
                },
                Err(e) => e == ActionError::NoImmuneLeft && *final(self) == *old(self),
            },
    {
        match self.position(Individual::Immune) {
            Some(k) => {
                proof {
                    lemma_first_position(self@, k as int, Individual::Immune);
                }
                self.population.set(k, Individual::Healthy);
                Ok(self)
            },
            None => Err(ActionError::NoImmuneLeft),
        }
    }

    /// Replaces the individuals by `new_population`, which has as many.
    pub fn update(&mut self, new_population: Vec<Individual>)
        requires
            old(self).wf(),
            new_population@.len() == old(self)@.len(),
        ensures
            final(self).wf(),
            final(self)@ == new_population@,
            final(self).cursor() == old(self).cursor(),
    {
        self.population = new_population;
    }

    /// Reorders the population at random, with the current thread's
    /// generator, and starts the draws anew.
    ///
    /// Whatever the generator gives, the same individuals are there afterwards,
    /// each state as often as before, and none of them is drawn yet.
    pub fn shuffle(&mut self, rng: &mut rand::rngs::ThreadRng)
        ensures
            final(self).wf(),
            final(self).cursor() == 0,
            final(self)@.len() == old(self)@.len(),
            final(self)@.to_multiset() == old(self)@.to_multiset(),
    {
        shuffle_items(&mut self.population, rng);
        self.counter = 0;
    }

    /// Reorders the population with a seeded generator, so that the same
    /// seed gives the same order again, and starts the draws anew.
    ///
    /// Whatever the generator gives, the same individuals are there afterwards,
    /// each state as often as before, and none of them is drawn yet.
    pub fn shuffle_seeded(&mut self, rng: &mut rand_pcg::Pcg32)
        ensures
            final(self).wf(),
            final(self).cursor() == 0,
            final(self)@.len() == old(self)@.len(),
            final(self)@.to_multiset() == old(self)@.to_multiset(),
    {
        shuffle_items_seeded(&mut self.population, rng);
        self.counter = 0;
    }

    /// Number of individuals.
    pub fn len(&self) -> (r: usize)
        ensures
            r == self@.len(),
    {
        self.population.len()
    }

    /// True where there is no individual.
    pub fn is_empty(&self) -> (r: bool)
        ensures
            r == (self@.len() == 0),
    {
        self.population.len() == 0
    }

    /// Number of draws made since the last shuffle.
    pub fn drawn_so_far(&self) -> (r: usize)
        ensures
            r == self.cursor(),
            self.wf() ==> r <= self@.len(),
    {
        self.counter
    }

    /// The individual at position `index`.
    pub fn get(&self, index: usize) -> (r: Individual)
        requires
            index < self@.len(),
        ensures
            r == self@[index as int],
    {
        self.population[index]
    }

    /// Number of individuals in state `query`.
    pub fn counting(&self, query: Individual) -> (r: usize)
        ensures
            r == count_of(self@, query),
    {
        count_in(&self.population, query)
    }

    /// Number of individuals in each state: one entry per state, in the order
    /// of progression, zero for a state that nobody is in.
    pub fn counting_all(&self) -> (r: Vec<usize>)
        ensures
            r@.len() == STATES,
            forall|k: int|
                0 <= k < STATES ==> #[trigger] r@[k] == count_of(self@, Individual::of_rank(k as nat)),
    {
        let mut counts: Vec<usize> = Vec::new();
        let mut k: usize = 0;
        while k < STATES
            invariant
                k <= STATES,
                counts@.len() == k,
                forall|j: int|
                    0 <= j < k ==> #[trigger] counts@[j] == count_of(
                        self@,
                        Individual::of_rank(j as nat),
                    ),
            decreases STATES - k,
        {
            counts.push(self.counting(Individual::from_index(k)));
            k += 1;
        }
        counts
    }

    /// Draws the next individual; none once every one has been drawn since
    /// the last shuffle.
    pub fn next(&mut self) -> (r: Option<Individual>)
        requires
            old(self).wf(),
        ensures
            final(self).wf(),
            final(self)@ == old(self)@,
            r == old(self).drawn(0),
            final(self).cursor() == old(self).cursor() + if r.is_some() { 1nat } else { 0nat },
    {
        if self.counter < self.population.len() {
            self.counter += 1;
            Some(self.population[self.counter - 1])
        } else {
            None
        }
    }
}

impl Default for Population {
    /// A hundred individuals: 98 healthy, then 2 in their first day of
    /// infection.
    fn default() -> (r: Population)
        ensures
            r.wf(),
            r.cursor() == 0,
            r@.len() == 100,
            forall|k: int| 0 <= k < 98 ==> r@[k] == Individual::Healthy,
            r@[98] == Individual::Infected1,
            r@[99] == Individual::Infected1,
    {
        let mut population: Vec<Individual> = Vec::new();
        let mut i: usize = 0;
        while i < 98
            invariant
                i <= 98,
                population@.len() == i,
                forall|k: int| 0 <= k < i ==> population@[k] == Individual::Healthy,
            decreases 98 - i,
        {
            population.push(Individual::Healthy);
            i += 1;
        }
        population.push(Individual::Infected1);
        population.push(Individual::Infected1);
        Population { population, counter: 0 }
    }
}

impl Clone for Population {
    fn clone(&self) -> (r: Population)
        ensures
            r@ == self@,
            r.cursor() == self.cursor(),
    {
        self.duplicate()
    }
}

impl From<Vec<Individual>> for Population {
    fn from(vec: Vec<Individual>) -> (r: Population)
        ensures
            r@ == vec@,
            r.cursor() == 0,
            r.wf(),
    {
        Population { population: vec, counter: 0 }
    }
}

impl vstd::std_specs::convert::FromSpecImpl<Vec<Individual>> for Population {
    open spec fn obeys_from_spec() -> bool {
        true
    }

    closed spec fn from_spec(vec: Vec<Individual>) -> Population {
        Population { population: vec, counter: 0 }
    }
}

/// After a shuffle, as many draws as there are individuals give every
/// individual of the population exactly once, and the draw after them gives
/// none.
pub proof fn lemma_shuffle_then_draw_all(before: Population, after: Population)
    requires
        after.cursor() == 0,
        after@.len() == before@.len(),
        after@.to_multiset() == before@.to_multiset(),
    ensures
        forall|k: nat| k < before@.len() ==> (#[trigger] after.drawn(k)).is_some(),
        Seq::new(before@.len(), |k: int| after.drawn(k as nat).unwrap()).to_multiset()
            == before@.to_multiset(),
        after.drawn(before@.len()).is_none(),
{
    assert(Seq::new(before@.len(), |k: int| after.drawn(k as nat).unwrap()) =~= after@);
}

/// Immunizing and then turning one person back restores the number of
/// individuals in every state, where somebody was healthy.
pub proof fn lemma_immunize_then_reverse(s: Seq<Individual>, q: Individual)
    requires
        s.contains(Individual::Healthy),
    ensures
        count_of(
            replace_first(
                replace_first(s, Individual::Healthy, Individual::Immune),
                Individual::Immune,
                Individual::Healthy,
            ),
            q,
        ) == count_of(s, q),
{
    broadcast use vstd::multiset::group_multiset_axioms;

    let a = first_position(s, Individual::Healthy);
    lemma_first_exists(s, Individual::Healthy);
    let t = s.update(a, Individual::Immune);
    assert(t[a] == Individual::Immune);
    assert(t.contains(Individual::Immune));
    lemma_first_exists(t, Individual::Immune);
    let b = first_position(t, Individual::Immune);
    vstd::seq_lib::to_multiset_update(s, a, Individual::Immune);
    vstd::seq_lib::to_multiset_update(t, b, Individual::Healthy);
    s.to_multiset_ensures();
    assert(s.to_multiset().count(Individual::Healthy) > 0);
}

/// Where `q` occurs, it occurs a first time.
pub proof fn lemma_first_exists(s: Seq<Individual>, q: Individual)
    requires
        s.contains(q),
    ensures
        is_first(s, first_position(s, q), q),
    decreases s.len(),
{
    if s[0] == q {
        assert(is_first(s, 0, q));
    } else {
        let w = choose|i: int| 0 <= i < s.len() && s[i] == q;
        let rest = s.drop_first();
        assert(rest[w - 1] == q);
        lemma_first_exists(rest, q);
        let k = first_position(rest, q);
        assert forall|j: int| 0 <= j < k + 1 implies s[j] != q by {
            if j > 0 {
                assert(rest[j - 1] != q);
            }
        }
        assert(s[k + 1] == rest[k]);
        assert(is_first(s, k + 1, q));
    }
}

} // verus!
