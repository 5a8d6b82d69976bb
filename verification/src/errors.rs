use vstd::prelude::*;

verus! {

/// Why a building refused an individual.
#[derive(Debug, Clone, Copy, PartialEq, Eq, Structural)]
pub enum BuildingError {
    /// Every place of the building is taken.
    Full,
    /// Sick individuals stay at home.
    Sick,
}

/// Why a manual intervention on the population failed.
#[derive(Debug, Clone, Copy, PartialEq, Eq, Structural)]
pub enum ActionError {
    /// No healthy individual is left to immunize.
    NoHealthyLeft,
    /// No immune individual is left to turn back.
    NoImmuneLeft,
}

impl BuildingError {
    /// The error, in words.
    pub open spec fn text(self) -> Seq<char> {
        match self {
            BuildingError::Full => "building is full"@,
            BuildingError::Sick => "Sick individuals are not allowed in the buildings"@,
        }
    }

    /// The error, in words.
    pub fn to_string(&self) -> (r: String)
        ensures
            r@ == self.text(),
    {
        match self {
            BuildingError::Full => "building is full".to_owned(),
            BuildingError::Sick => "Sick individuals are not allowed in the buildings".to_owned(),
        }
    }
}

impl ActionError {
    /// The error, in words.
    pub open spec fn text(self) -> Seq<char> {
        match self {
            ActionError::NoHealthyLeft => "There are no more healthy individuals in the population"@,
            ActionError::NoImmuneLeft => "There are no more immune individuals in the population"@,
        }
    }

    /// The error, in words.
    pub fn to_string(&self) -> (r: String)
        ensures
            r@ == self.text(),
    {
        match self {
            ActionError::NoHealthyLeft => {
                "There are no more healthy individuals in the population".to_owned()
            },
            ActionError::NoImmuneLeft => {
                "There are no more immune individuals in the population".to_owned()
            },
        }
    }
}

} // verus!
