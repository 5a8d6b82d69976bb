use virus_alarm::building::{Building, BuildingBuilder, Spreading};
use virus_alarm::errors::BuildingError;

use virus_alarm::individual::Individual::{Healthy, Immune, Infected1, Infected2, Infected3, Sick};

#[test]
fn try_push_fills_in_order() {
    let mut building = Building::new(2, 1, "Shop");
    assert!(!building.is_full());
    assert_eq!(building.try_push(Healthy), Ok(()));
    assert_eq!(building.try_push(Sick), Err(BuildingError::Sick));
    assert_eq!(building.try_push(Infected1), Ok(()));
    assert!(building.is_full());
    assert_eq!(building.try_push(Immune), Err(BuildingError::Full));
    assert_eq!(building.try_push(Sick), Err(BuildingError::Full));
    assert_eq!(building.occupants(), &vec![Healthy, Infected1]);
    assert_eq!(building.empty(), vec![Healthy, Infected1]);
    assert!(building.occupants().is_empty());
    assert_eq!(building.capacity(), 2);
}

#[test]
fn propagate_one_near() {
    // 3 columns:  H  H  H
    //             H  I1 H
    //             H  H  H
    //             H  Im I3
    let mut building = Building::unchecked_from(
        3,
        4,
        "Hall",
        vec![
            Healthy, Healthy, Healthy, Healthy, Infected1, Healthy, Healthy, Healthy, Healthy,
            Healthy, Immune, Infected3,
        ],
    );
    building.propagate();
    assert_eq!(
        building.occupants(),
        &vec![
            Infected1, Infected1, Infected1, Infected1, Infected2, Infected1, Infected1, Infected1,
            Infected1, Healthy, Immune, Sick,
        ]
    );
}

#[test]
fn propagate_one_very_near() {
    let mut building = Building::unchecked_from(
        3,
        3,
        "Hall",
        vec![Healthy, Healthy, Healthy, Healthy, Infected2, Healthy, Healthy, Healthy, Healthy],
    );
    building.set_spreading(Spreading::OneVeryNear);
    building.propagate();
    assert_eq!(
        building.occupants(),
        &vec![
            Healthy, Infected1, Healthy, Infected1, Infected3, Infected1, Healthy, Infected1,
            Healthy,
        ]
    );
}

#[test]
fn propagate_everyone() {
    let mut building = Building::unchecked_from(
        4,
        2,
        "Hall",
        vec![Infected3, Healthy, Immune, Sick, Healthy, Healthy],
    );
    building.set_spreading(Spreading::Everyone);
    building.propagate();
    assert_eq!(
        building.occupants(),
        &vec![Sick, Infected1, Immune, Sick, Infected1, Infected1]
    );
}

#[test]
fn propagate_without_infected_changes_nothing() {
    let occupants = vec![Healthy, Immune, Sick, Healthy];
    for mode in [Spreading::Everyone, Spreading::OneNear, Spreading::OneVeryNear] {
        let mut building = Building::unchecked_from(2, 2, "Hall", occupants.clone());
        building.set_spreading(mode);
        building.propagate();
        assert_eq!(building.occupants(), &occupants);
    }
}

#[test]
fn row_ends_are_not_neighbours() {
    // 2 columns: place 1 ends the first row, place 2 starts the second one.
    let mut building =
        Building::unchecked_from(2, 2, "Hall", vec![Immune, Infected1, Healthy]);
    building.set_spreading(Spreading::OneVeryNear);
    building.propagate();
    assert_eq!(building.occupants(), &vec![Immune, Infected2, Healthy]);
}

#[test]
fn doors_and_builder() {
    let mut building = BuildingBuilder::new("Gym")
        .with_size(4, 2)
        .with_spreading(Spreading::Everyone)
        .and_is_closed()
        .build();
    assert_eq!(building.name(), "Gym");
    assert_eq!(building.capacity(), 8);
    assert_eq!(building.spreading(), &Spreading::Everyone);
    assert!(!building.is_open());
    building.toggle();
    assert!(building.is_open());
    building.close();
    assert!(!building.is_open());
    building.open();
    assert!(building.is_open());
    assert_eq!(building.clone(), building);
    let plain = BuildingBuilder::new("Gym").with_size(4, 2).and_is_open().build();
    assert_eq!(plain, Building::new(4, 2, "Gym"));
}
