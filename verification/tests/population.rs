use rand_pcg::Pcg32;
use virus_alarm::board::Board;
use virus_alarm::errors::ActionError;
use virus_alarm::individual::Individual;
use virus_alarm::population::{count_in, Population};

fn rng(seed: u64) -> Pcg32 {
    let inc: u64 = 11634580027462260723;
    Pcg32::new(seed, inc)
}

#[test]
fn shuffle() {
    let mut population = Population::default();
    population.shuffle_seeded(&mut rng(1));
    let shuffled = {
        let mut vec = vec![Individual::Healthy; 100];
        vec[4] = Individual::Infected1;
        vec[96] = Individual::Infected1;
        Population::from(vec)
    };
    assert_eq!(shuffled, population);
}

#[test]
fn counting1() {
    let population = Population::default();
    assert_eq!(population.counting(Individual::Healthy), 98);
    assert_eq!(population.counting(Individual::Infected1), 2);
}

#[test]
fn counting_all_has_every_state() {
    let population = Population::default();
    assert_eq!(population.counting_all(), vec![98, 2, 0, 0, 0, 0]);
    let mixed = Population::from(vec![
        Individual::Immune,
        Individual::Sick,
        Individual::Immune,
        Individual::Infected3,
    ]);
    assert_eq!(mixed.counting_all(), vec![0, 0, 0, 1, 1, 2]);
    assert_eq!(Population::from(vec![]).counting_all(), vec![0; 6]);
    assert_eq!(count_in(&vec![Individual::Sick, Individual::Sick], Individual::Sick), 2);
}

#[test]
fn shuffle_changes_the_order_only() {
    let items: Vec<Individual> = (0..40).map(|k| Individual::from_index(k % 6)).collect();
    let mut population = Population::from(items.clone());
    let before = population.counting_all();
    population.next();
    population.next();
    population.shuffle_seeded(&mut rng(7));
    assert_eq!(population.drawn_so_far(), 0);
    assert_eq!(population.len(), 40);
    assert_eq!(population.counting_all(), before);
    assert_ne!(population, Population::from(items));
}

#[test]
fn shuffle_then_draw_everybody_once() {
    let mut population = Population::default();
    population.shuffle_seeded(&mut rng(3));
    let mut drawn = Vec::new();
    for _ in 0..population.len() {
        drawn.push(population.next().unwrap());
    }
    assert_eq!(population.next(), None);
    assert_eq!(population.next(), None);
    assert_eq!(count_in(&drawn, Individual::Healthy), 98);
    assert_eq!(count_in(&drawn, Individual::Infected1), 2);
    assert_eq!(drawn.len(), 100);
    population.shuffle_seeded(&mut rng(4));
    assert!(population.next().is_some());
}

#[test]
fn next_goes_forward_only() {
    let mut population =
        Population::from(vec![Individual::Sick, Individual::Healthy, Individual::Immune]);
    assert_eq!(population.next(), Some(Individual::Sick));
    assert_eq!(population.drawn_so_far(), 1);
    assert_eq!(population.next(), Some(Individual::Healthy));
    assert_eq!(population.next(), Some(Individual::Immune));
    assert_eq!(population.next(), None);
    assert_eq!(population.drawn_so_far(), 3);
    assert_eq!(population.len(), 3);
}

#[test]
fn immunize_takes_the_first_healthy() {
    let mut population = Population::from(vec![
        Individual::Sick,
        Individual::Healthy,
        Individual::Healthy,
        Individual::Immune,
    ]);
    population.immunize().unwrap();
    assert_eq!(
        population,
        Population::from(vec![
            Individual::Sick,
            Individual::Immune,
            Individual::Healthy,
            Individual::Immune,
        ])
    );
    population.reverse_immunize().unwrap();
    assert_eq!(
        population,
        Population::from(vec![
            Individual::Sick,
            Individual::Healthy,
            Individual::Healthy,
            Individual::Immune,
        ])
    );
}

#[test]
fn immunize_then_reverse_restores_counts() {
    let mut population = Population::from(vec![
        Individual::Immune,
        Individual::Infected2,
        Individual::Healthy,
        Individual::Healthy,
    ]);
    let before = population.counting_all();
    population.immunize().unwrap();
    assert_eq!(population.counting(Individual::Immune), 2);
    assert_eq!(population.counting(Individual::Healthy), 1);
    population.reverse_immunize().unwrap();
    assert_eq!(population.counting_all(), before);
}

#[test]
fn immunize_errors() {
    let items = vec![Individual::Sick, Individual::Infected1];
    let mut population = Population::from(items.clone());
    assert_eq!(population.immunize().err(), Some(ActionError::NoHealthyLeft));
    assert_eq!(population, Population::from(items.clone()));
    assert_eq!(population.reverse_immunize().err(), Some(ActionError::NoImmuneLeft));
    assert_eq!(population, Population::from(items));
}

#[test]
fn update_replaces_the_individuals() {
    let mut population = Population::from(vec![Individual::Healthy, Individual::Sick]);
    population.next();
    population.update(vec![Individual::Immune, Individual::Immune]);
    assert_eq!(population.counting(Individual::Immune), 2);
    assert_eq!(population.drawn_so_far(), 1);
    assert_eq!(population.get(1), Individual::Immune);
    assert!(!population.is_empty());
    assert!(Population::from(vec![]).is_empty());
}

#[test]
fn default_population() {
    let population = Population::default();
    assert_eq!(population.len(), 100);
    assert_eq!(population.get(97), Individual::Healthy);
    assert_eq!(population.get(98), Individual::Infected1);
    assert_eq!(population.get(99), Individual::Infected1);
    assert_eq!(population.clone(), population);
    assert_eq!(population.duplicate(), population);
}

#[test]
fn visit_with_a_seeded_generator_repeats() {
    let mut first = Board::default();
    let mut second = Board::default();
    first.visit_seeded(&mut rng(5));
    second.visit_seeded(&mut rng(5));
    assert_eq!(first, second);
    let inside: usize = first.buildings().iter().map(|b| b.occupants().len()).sum();
    assert_eq!(inside, 76);
    assert_eq!(first.inactive().len(), 24);
    assert_eq!(first.population().drawn_so_far(), 76);
}

#[test]
fn shuffle_with_the_thread_generator() {
    let items: Vec<Individual> = (0..60).map(|k| Individual::from_index(k % 6)).collect();
    let mut population = Population::from(items);
    let before = population.counting_all();
    population.next();
    let mut generator = rand::thread_rng();
    population.shuffle(&mut generator);
    assert_eq!(population.drawn_so_far(), 0);
    assert_eq!(population.len(), 60);
    assert_eq!(population.counting_all(), before);
    let mut drawn = Vec::new();
    while let Some(individual) = population.next() {
        drawn.push(individual);
    }
    assert_eq!(drawn.len(), 60);
    assert_eq!(count_in(&drawn, Individual::Sick), 10);
}

#[test]
fn seeded_shuffle_is_not_the_identity() {
    let items: Vec<Individual> = (0..40).map(|k| Individual::from_index(k % 6)).collect();
    let mut first = Population::from(items.clone());
    let mut second = Population::from(items.clone());
    first.shuffle_seeded(&mut rng(11));
    second.shuffle_seeded(&mut rng(11));
    assert_eq!(first, second);
    assert_ne!(first, Population::from(items));
}
