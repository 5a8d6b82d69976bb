use virus_alarm::errors::{ActionError, BuildingError};
use virus_alarm::individual::Individual;
use virus_alarm::prelude::Spreading;

#[test]
fn can_infect() {
    let cases = [
        (Individual::Healthy, Individual::Infected1, false),
        (Individual::Infected1, Individual::Healthy, true),
        (Individual::Infected2, Individual::Healthy, true),
        (Individual::Infected3, Individual::Healthy, true),
        (Individual::Infected2, Individual::Immune, false),
        (Individual::Sick, Individual::Healthy, false),
        (Individual::Immune, Individual::Healthy, false),
    ];
    for (i, other, expected) in cases {
        assert_eq!(i.can_infect(&other), expected);
    }
}

#[test]
fn interacts_with() {
    let cases = [
        (Individual::Healthy, Individual::Infected1, true),
        (Individual::Infected1, Individual::Healthy, true),
        (Individual::Infected2, Individual::Healthy, true),
        (Individual::Infected3, Individual::Healthy, true),
        (Individual::Infected2, Individual::Immune, false),
        (Individual::Immune, Individual::Immune, false),
    ];
    for (i, other, expected) in cases {
        assert_eq!(i.interacts_with(&other), expected);
    }
}

#[test]
fn order() {
    let cases = [
        (Individual::Healthy, Individual::Infected1, true),
        (Individual::Infected1, Individual::Infected2, true),
        (Individual::Infected2, Individual::Infected3, true),
        (Individual::Infected3, Individual::Sick, true),
        (Individual::Sick, Individual::Immune, true),
        (Individual::Immune, Individual::Healthy, false),
    ];
    for (i, other, expected) in cases {
        assert_eq!(i < other, expected);
    }
}

#[test]
fn index_follows_the_order() {
    let all = Individual::all();
    assert_eq!(all.len(), 6);
    for (k, state) in all.iter().enumerate() {
        assert_eq!(state.index(), k);
        assert_eq!(Individual::from_index(k), *state);
    }
    assert!(all.windows(2).all(|w| w[0] < w[1]));
}

#[test]
fn next_day_at_home() {
    assert_eq!(Individual::Healthy.next_day(), Individual::Healthy);
    assert_eq!(Individual::Infected1.next_day(), Individual::Infected2);
    assert_eq!(Individual::Infected2.next_day(), Individual::Infected3);
    assert_eq!(Individual::Infected3.next_day(), Individual::Sick);
    assert_eq!(Individual::Sick.next_day(), Individual::Sick);
    assert_eq!(Individual::Immune.next_day(), Individual::Immune);
    assert_eq!(Spreading::default(), Spreading::OneNear);
}

#[test]
fn names() {
    assert_eq!(Individual::Healthy.to_string(), "Healthy");
    assert_eq!(Individual::Infected1.to_string(), "Infected1");
    assert_eq!(Individual::Infected2.to_string(), "Infected2");
    assert_eq!(Individual::Infected3.to_string(), "Infected3");
    assert_eq!(Individual::Sick.to_string(), "Sick");
    assert_eq!(Individual::Immune.to_string(), "Immune");
}

#[test]
fn error_texts() {
    assert_eq!(BuildingError::Full.to_string(), "building is full");
    assert_eq!(
        BuildingError::Sick.to_string(),
        "Sick individuals are not allowed in the buildings"
    );
    assert_eq!(
        ActionError::NoHealthyLeft.to_string(),
        "There are no more healthy individuals in the population"
    );
    assert_eq!(
        ActionError::NoImmuneLeft.to_string(),
        "There are no more immune individuals in the population"
    );
}
