use vstd::prelude::*;

verus! {

/// State of health of one person.
///
/// The variants are declared in the order of the disease's progression, and
/// the derived order follows it.
#[derive(Hash, Debug, Copy, Clone, PartialEq, Eq, Structural, PartialOrd, Ord)]
pub enum Individual {
    /// Healthy, can be infected.
    Healthy,
    /// Infected, first day.
    Infected1,
    /// Infected, second day.
    Infected2,
    /// Infected, third and last day.
    Infected3,
    /// Sick: stays at home.
    Sick,
    /// Immune: can neither be infected nor infect.
    Immune,
}

/// Number of health states.
pub const STATES: usize = 6;

impl Individual {
    /// True for the three infected stages.
    pub open spec fn is_infected(self) -> bool {
        self == Individual::Infected1 || self == Individual::Infected2 || self
            == Individual::Infected3
    }

    /// Position of the state in the order of progression, from 0.
    pub open spec fn rank(self) -> nat {
        match self {
            Individual::Healthy => 0,
            Individual::Infected1 => 1,
            Individual::Infected2 => 2,
            Individual::Infected3 => 3,
            Individual::Sick => 4,
            Individual::Immune => 5,
        }
    }

    /// The state with the given rank; `Immune` for every rank past the last.
    pub open spec fn of_rank(r: nat) -> Individual {
        if r == 0 {
            Individual::Healthy
        } else if r == 1 {
            Individual::Infected1
        } else if r == 2 {
            Individual::Infected2
        } else if r == 3 {
            Individual::Infected3
        } else if r == 4 {
            Individual::Sick
        } else {
            Individual::Immune
        }
    }

    /// The state one day later for somebody who meets nobody: the infected
    /// stages move on, the third one to `Sick`; the others stay.
    pub open spec fn aged(self) -> Individual {
        match self {
            Individual::Infected1 => Individual::Infected2,
            Individual::Infected2 => Individual::Infected3,
            Individual::Infected3 => Individual::Sick,
            other => other,
        }
    }

    /// Returns true if `other` can be infected by `self`: `self` is infected
    /// and `other` is healthy.
    pub fn can_infect(&self, other: &Individual) -> (r: bool)
        ensures
            r == (self.is_infected() && *other == Individual::Healthy),
    {
        match self {
            Individual::Healthy | Individual::Sick | Individual::Immune => false,
            Individual::Infected1 | Individual::Infected2 | Individual::Infected3 => matches!(
                other,
                Individual::Healthy
            ),
        }
    }

    /// Returns true if either can infect the other.
    pub fn interacts_with(&self, other: &Individual) -> (r: bool)
        ensures
            r == ((self.is_infected() && *other == Individual::Healthy) || (other.is_infected()
                && *self == Individual::Healthy)),
    {
        self.can_infect(other) || other.can_infect(self)
    }

    /// Position of the state in the order of progression, from 0.
    pub fn index(&self) -> (r: usize)
        ensures
            r == self.rank(),
            r < STATES,
    {
        match self {
            Individual::Healthy => 0,
            Individual::Infected1 => 1,
            Individual::Infected2 => 2,
            Individual::Infected3 => 3,
            Individual::Sick => 4,
            Individual::Immune => 5,
        }
    }

    /// The state at position `index` of the order of progression.
    pub fn from_index(index: usize) -> (r: Individual)
        requires
            index < STATES,
        ensures
            r == Individual::of_rank(index as nat),
            r.rank() == index,
    {
        if index == 0 {
            Individual::Healthy
        } else if index == 1 {
            Individual::Infected1
        } else if index == 2 {
            Individual::Infected2
        } else if index == 3 {
            Individual::Infected3
        } else if index == 4 {
            Individual::Sick
        } else {
            Individual::Immune
        }
    }

    /// The state one day later for somebody who stays at home.
    pub fn next_day(&self) -> (r: Individual)
        ensures
            r == self.aged(),
    {
        match self {
            Individual::Infected1 => Individual::Infected2,
            Individual::Infected2 => Individual::Infected3,
            Individual::Infected3 => Individual::Sick,
            Individual::Healthy => Individual::Healthy,
            Individual::Sick => Individual::Sick,
            Individual::Immune => Individual::Immune,
        }
    }

    /// The state's name, as text.
    pub open spec fn label(self) -> Seq<char> {
        match self {
            Individual::Healthy => "Healthy"@,
            Individual::Infected1 => "Infected1"@,
            Individual::Infected2 => "Infected2"@,
            Individual::Infected3 => "Infected3"@,
            Individual::Sick => "Sick"@,
            Individual::Immune => "Immune"@,
        }
    }

    /// The state's name: that of its variant.
    pub fn to_string(&self) -> (r: String)
        ensures
            r@ == self.label(),
    {
        match self {
            Individual::Healthy => "Healthy".to_owned(),
            Individual::Infected1 => "Infected1".to_owned(),
            Individual::Infected2 => "Infected2".to_owned(),
            Individual::Infected3 => "Infected3".to_owned(),
            Individual::Sick => "Sick".to_owned(),
            Individual::Immune => "Immune".to_owned(),
        }
    }

    /// Every state, in the order of progression.
    pub fn all() -> (r: Vec<Individual>)
        ensures
            r@.len() == STATES,
            forall|k: int| 0 <= k < STATES ==> (#[trigger] r@[k]).rank() == k,
    {
        vec![
            Individual::Healthy,
            Individual::Infected1,
            Individual::Infected2,
            Individual::Infected3,
            Individual::Sick,
            Individual::Immune,
        ]
    }
}

/// A stay at home never brings anybody back: the rank does not fall, and it
/// rises by exactly one through the infected stages.
pub proof fn lemma_home_clock(i: Individual)
    ensures
        i.is_infected() ==> i.aged().rank() == i.rank() + 1,
        !i.is_infected() ==> i.aged() == i,
        Individual::Infected1.aged() == Individual::Infected2,
        Individual::Infected2.aged() == Individual::Infected3,
        Individual::Infected3.aged() == Individual::Sick,
{
}

} // verus!
