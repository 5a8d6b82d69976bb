use virus_alarm::board::{Board, BoardBuilder};
use virus_alarm::building::{Building, Spreading};
use virus_alarm::errors::ActionError;
use virus_alarm::individual::Individual;
use virus_alarm::population::Population;

fn cell(occupants: Vec<Individual>) -> Building {
    Building::unchecked_from(1, 1, "Defult", occupants)
}

#[test]
fn visit1() {
    let population = Population::from(vec![Individual::Healthy]);
    let buildings = vec![cell(vec![]), cell(vec![])];
    let mut board = Board::new(population, buildings);
    board.visit();
    let expected = vec![cell(vec![Individual::Healthy]), cell(vec![])];
    assert_eq!(board.buildings(), &expected);
}

#[test]
fn visit2() {
    let population = Population::from(vec![Individual::Infected1, Individual::Infected1]);
    let buildings = vec![cell(vec![])];
    let mut board = Board::new(population, buildings);
    board.visit();
    let expected = vec![Individual::Infected1];
    assert_eq!(board.inactive(), &expected);
}

#[test]
fn visit_building1() {
    let population = Population::from(vec![Individual::Healthy]);
    let buildings = vec![cell(vec![])];
    let mut board = Board::new(population, buildings);
    assert_eq!(board.visit_building(0), &cell(vec![Individual::Healthy]));
}

#[test]
fn visit_building2() {
    let population = Population::from(vec![Individual::Sick]);
    let buildings = vec![cell(vec![])];
    let mut board = Board::new(population, buildings);
    assert_eq!(board.visit_building(0), &cell(vec![]));
    assert_eq!(board.inactive(), &vec![Individual::Sick]);
}

#[test]
fn visit_building3() {
    let population = Population::from(vec![Individual::Infected1, Individual::Infected1]);
    let buildings = vec![cell(vec![Individual::Healthy])];
    let mut board = Board::new(population, buildings);
    assert_eq!(board.visit_building(0), &cell(vec![Individual::Healthy]));
}

#[test]
fn propagate() {
    let population = Population::from(vec![Individual::Infected1, Individual::Infected1]);
    let buildings = vec![Building::unchecked_from(
        2,
        1,
        "Defult",
        vec![Individual::Healthy, Individual::Infected1],
    )];
    let mut board = Board::new(population.clone(), buildings);
    board.visit();
    board.propagate();
    assert_eq!(
        board.buildings()[0],
        Building::unchecked_from(2, 1, "Defult", vec![Individual::Infected1, Individual::Infected2])
    );
    assert_eq!(board.population(), &population);
    assert_eq!(board.inactive(), &vec![Individual::Infected2, Individual::Infected2]);
}

#[test]
fn advance_population1() {
    let population =
        Population::from(vec![Individual::Healthy, Individual::Sick, Individual::Immune]);
    let buildings = vec![Building::new(2, 2, "My bulding")];
    let mut board = Board::new(population, buildings);
    assert_eq!(board.advance_population(), 0);
}

#[test]
fn advance() {
    let mut board = Board::default();
    for _ in 0..96 {
        board.immunize().unwrap();
    }
    assert_eq!(board.population().counting(Individual::Immune), 96);
    board.advance_many(8);
    for _ in 0..10 {
        board.advance();
        if board.population().counting(Individual::Infected1) != 0 {
            panic!("Recording table:\n{:?}", board.recording().counting_table());
        }
    }
}

#[test]
fn default_board() {
    let board = Board::default();
    assert_eq!(board.population().len(), 100);
    assert_eq!(board.buildings().len(), 8);
    assert_eq!(board.buildings()[0].name(), "Concert Hall");
    assert_eq!(board.buildings()[7].name(), "Shopping Center");
    let places: usize = board.buildings().iter().map(|b| b.capacity()).sum();
    assert_eq!(places, 20 + 4 + 16 + 4 + 12 + 8 + 4 + 8);
    assert_eq!(&Spreading::OneNear, board.spreading());
    assert!(board.inactive().is_empty());
}

#[test]
fn day_keeps_everybody() {
    let mut board = Board::default();
    let before = board.population().len();
    for _ in 0..5 {
        board.advance();
        assert_eq!(board.population().len(), before);
        assert!(board.inactive().is_empty());
        assert!(board.buildings().iter().all(|b| b.occupants().is_empty()));
    }
    assert_eq!(board.counting_table().days(), 6);
    assert_eq!(board.recording().newly_infected().len(), 5);
    assert_eq!(board.recording().open_buildings(), &vec![8, 8, 8, 8, 8]);
}

#[test]
fn occupants_count_towards_the_next_population() {
    let population = Population::from(vec![Individual::Immune]);
    let buildings =
        vec![Building::unchecked_from(2, 1, "Hall", vec![Individual::Immune, Individual::Sick])];
    let mut board = Board::new(population, buildings);
    assert_eq!(board.advance_population(), 0);
    assert_eq!(board.population().len(), 3);
    assert_eq!(board.population().counting(Individual::Sick), 1);
}

#[test]
fn sick_never_enter() {
    let population = Population::from(vec![
        Individual::Sick,
        Individual::Healthy,
        Individual::Sick,
        Individual::Immune,
        Individual::Sick,
    ]);
    let buildings = vec![Building::new(2, 1, "A"), Building::new(3, 3, "B")];
    let mut board = Board::new(population, buildings);
    board.visit();
    for building in board.buildings() {
        assert!(building.occupants().iter().all(|i| *i != Individual::Sick));
    }
    assert_eq!(board.inactive(), &vec![Individual::Sick; 3]);
    let inside: usize = board.buildings().iter().map(|b| b.occupants().len()).sum();
    assert_eq!(inside, 2);
}

#[test]
fn distribute_follows_the_order() {
    let population = Population::from(vec![
        Individual::Healthy,
        Individual::Sick,
        Individual::Infected1,
        Individual::Immune,
        Individual::Infected2,
        Individual::Healthy,
    ]);
    let mut closed = Building::new(5, 5, "Closed");
    closed.close();
    let buildings = vec![Building::new(2, 1, "A"), closed, Building::new(1, 1, "B")];
    let mut board = Board::new(population, buildings);
    board.distribute();
    assert_eq!(board.buildings()[0].occupants(), &vec![Individual::Healthy, Individual::Infected1]);
    assert!(board.buildings()[1].occupants().is_empty());
    assert_eq!(board.buildings()[2].occupants(), &vec![Individual::Immune]);
    assert_eq!(
        board.inactive(),
        &vec![Individual::Sick, Individual::Infected2, Individual::Healthy]
    );
    assert_eq!(board.population().drawn_so_far(), 4);
}

#[test]
fn home_clock() {
    let population = Population::from(vec![
        Individual::Healthy,
        Individual::Infected1,
        Individual::Infected2,
        Individual::Infected3,
        Individual::Sick,
        Individual::Immune,
    ]);
    let mut board = Board::new(population, vec![]);
    board.distribute();
    board.propagate();
    assert_eq!(
        board.inactive(),
        &vec![
            Individual::Healthy,
            Individual::Infected2,
            Individual::Infected3,
            Individual::Sick,
            Individual::Sick,
            Individual::Immune,
        ]
    );
}

#[test]
fn go_home_counts_first_day_infections_from_buildings_only() {
    let population = Population::from(vec![Individual::Infected1, Individual::Immune]);
    let buildings = vec![Building::unchecked_from(
        2,
        1,
        "Hall",
        vec![Individual::Infected1, Individual::Healthy],
    )];
    let mut board = Board::new(population, buildings);
    board.distribute();
    assert_eq!(board.go_home(), 1);
    assert_eq!(
        board.population(),
        &Population::from(vec![
            Individual::Infected1,
            Individual::Healthy,
            Individual::Infected1,
            Individual::Immune,
        ])
    );
    assert!(board.inactive().is_empty());
    assert!(board.buildings()[0].occupants().is_empty());
}

#[test]
fn board_immunize_and_back() {
    let mut board = Board::default();
    board.immunize().unwrap();
    assert_eq!(board.population().counting(Individual::Immune), 1);
    assert_eq!(board.population().counting(Individual::Healthy), 97);
    assert_eq!(board.counting_table().get(Individual::Immune), Some(&vec![1]));
    assert_eq!(board.counting_table().get(Individual::Healthy), Some(&vec![97]));
    board.reverse_immunize().unwrap();
    assert_eq!(board.population().counting(Individual::Immune), 0);
    assert_eq!(board.population(), &Population::default());
    assert_eq!(board.counting_table().get(Individual::Healthy), Some(&vec![98]));
    assert_eq!(board.reverse_immunize().err(), Some(ActionError::NoImmuneLeft));
}

#[test]
fn board_immunize_without_healthy() {
    let mut board = Board::new(Population::from(vec![Individual::Sick]), vec![]);
    let before = board.clone();
    assert_eq!(board.immunize().err(), Some(ActionError::NoHealthyLeft));
    assert_eq!(board, before);
}

#[test]
fn doors() {
    let mut board = Board::default();
    board.close("Gym");
    assert!(!board.buildings()[5].is_open());
    assert!(board.buildings()[4].is_open());
    board.close("Gym");
    assert!(!board.buildings()[5].is_open());
    board.toggle("Gym");
    assert!(board.buildings()[5].is_open());
    board.toggle("Gym").toggle("Bakery");
    assert!(!board.buildings()[5].is_open());
    assert!(!board.buildings()[1].is_open());
    board.open("Gym");
    assert!(board.buildings()[5].is_open());
    let before = board.clone();
    board.toggle("Nowhere").open("Nowhere").close("Nowhere");
    assert_eq!(board, before);
}

#[test]
fn closed_buildings_stay_empty() {
    let mut board = Board::new(
        Population::from(vec![Individual::Healthy, Individual::Immune]),
        vec![Building::new(2, 2, "Only")],
    );
    board.close("Only");
    board.visit();
    assert!(board.buildings()[0].occupants().is_empty());
    assert_eq!(board.inactive().len(), 2);
    board.propagate();
    assert_eq!(board.go_home(), 0);
    board.advance();
    assert_eq!(board.recording().open_buildings(), &vec![0]);
}

#[test]
fn spreading_mode() {
    let mut board = Board::default();
    board.set_spreading(Spreading::Everyone);
    assert_eq!(board.spreading(), &Spreading::Everyone);
    assert!(board.buildings().iter().all(|b| b.spreading() == &Spreading::Everyone));
    assert_eq!(board.recording().spreading(), &Spreading::Everyone);
}

#[test]
fn builder() {
    let builder = BoardBuilder {
        healthy: 2,
        infected1: 1,
        infected2: 0,
        infected3: 1,
        sick: 1,
        immune: 2,
        buildings: vec![(2, 3), (0, 0)],
        spreading: Spreading::OneVeryNear,
    };
    let board = builder.build();
    assert_eq!(
        board.population(),
        &Population::from(vec![
            Individual::Healthy,
            Individual::Healthy,
            Individual::Infected1,
            Individual::Infected3,
            Individual::Sick,
            Individual::Immune,
            Individual::Immune,
        ])
    );
    assert_eq!(board.buildings().len(), 2);
    assert_eq!(board.buildings()[0].capacity(), 6);
    assert_eq!(board.buildings()[0].name(), "Defult");
    assert!(board.buildings()[1].is_full());
    assert_eq!(board.spreading(), &Spreading::OneVeryNear);
    assert_eq!(BoardBuilder::default().build().population().len(), 0);
}

#[test]
fn history_stays_in_step() {
    let mut board = Board::default();
    for _ in 0..40 {
        board.immunize().unwrap();
    }
    for day in 1..=12 {
        board.advance();
        let counts = board.population().counting_all();
        for (k, state) in Individual::all().into_iter().enumerate() {
            let series = board.counting_table().get(state).unwrap();
            assert_eq!(series.len(), day + 1);
            assert_eq!(series[day], counts[k]);
        }
        let newly = *board.recording().newly_infected().last().unwrap();
        assert_eq!(board.population().counting(Individual::Infected1), newly);
    }
    assert_eq!(board.population().counting(Individual::Immune), 40);
    assert_eq!(board.population().len(), 100);
}

#[test]
fn history_starts_with_the_mode_of_the_first_building() {
    let mut first = Building::new(1, 1, "A");
    first.set_spreading(Spreading::Everyone);
    let mut second = Building::new(1, 1, "B");
    second.set_spreading(Spreading::Everyone);
    let board = Board::new(Population::from(vec![]), vec![first, second]);
    assert_eq!(board.recording().spreading(), &Spreading::Everyone);
    assert_eq!(Board::new(Population::from(vec![]), vec![]).recording().spreading(), &Spreading::OneNear);
    assert_eq!(Board::default().recording().spreading(), &Spreading::OneNear);
    let built = BoardBuilder {
        healthy: 1,
        infected1: 0,
        infected2: 0,
        infected3: 0,
        sick: 0,
        immune: 0,
        buildings: vec![(1, 1)],
        spreading: Spreading::OneVeryNear,
    }
    .build();
    assert_eq!(built.recording().spreading(), &Spreading::OneVeryNear);
}

#[test]
fn infection_dies_out_after_three_days_for_each_healthy() {
    for _ in 0..20 {
        let population = Population::from(vec![
            Individual::Healthy,
            Individual::Healthy,
            Individual::Healthy,
            Individual::Infected3,
            Individual::Immune,
        ]);
        let mut board = Board::new(population, vec![Building::new(2, 2, "Hall")]);
        board.advance_many(9);
        for _ in 0..6 {
            board.advance();
            assert_eq!(board.recording().newly_infected().last(), Some(&0));
            assert_eq!(board.population().counting(Individual::Infected1), 0);
        }
    }
}

#[test]
fn immunize_fails_exactly_without_healthy_between_days() {
    let mut board = Board::new(
        Population::from(vec![Individual::Healthy, Individual::Infected1]),
        vec![Building::new(1, 1, "Hall")],
    );
    board.advance_many(2);
    let healthy = board.population().counting(Individual::Healthy);
    for _ in 0..healthy {
        assert!(board.immunize().is_ok());
    }
    assert_eq!(board.population().counting(Individual::Healthy), 0);
    assert_eq!(board.immunize().err(), Some(ActionError::NoHealthyLeft));
}
