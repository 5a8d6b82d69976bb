use virus_alarm::board::{Board, BoardBuilder};
use virus_alarm::building::{Building, Spreading};
use virus_alarm::errors::ActionError;
use virus_alarm::individual::Individual;
use virus_alarm::population::Population;
use virus_alarm::recording::{CountingTable, Recording};
use virus_alarm::simulation::{Report, ReportPlan, Simulation, SimulationBuilder};

fn table(series: Vec<usize>) -> CountingTable {
    CountingTable::from(
        Individual::all().into_iter().map(|i| (i, series.clone())).collect::<Vec<_>>(),
    )
}

#[test]
fn run() {
    let simulation_builder = SimulationBuilder {
        board_builder: BoardBuilder {
            healthy: 100,
            infected1: 0,
            infected2: 0,
            infected3: 0,
            sick: 3,
            immune: 20,
            buildings: vec![(0, 0)],
            spreading: Spreading::OneNear,
        },
        report_plan: ReportPlan { num_simulations: 1, days: 0 },
    };
    let simulation = simulation_builder.build();
    let report = simulation.run();
    let expected = CountingTable::from(vec![
        (Individual::Healthy, vec![100]),
        (Individual::Infected1, vec![0]),
        (Individual::Infected2, vec![0]),
        (Individual::Infected3, vec![0]),
        (Individual::Sick, vec![3]),
        (Individual::Immune, vec![20]),
    ]);
    assert_eq!(report.counting_tables(), &vec![expected]);
}

#[test]
fn healthy() {
    let counting_tables: Vec<CountingTable> = vec![table(vec![0, 0]), table(vec![1, 2])];
    let report = Report::new(counting_tables);
    assert_eq!(report.healthy(), vec![&vec![0, 0], &vec![1, 2]]);
}

#[test]
fn healthy_tranpose() {
    let counting_tables: Vec<CountingTable> = vec![table(vec![0, 0]), table(vec![1, 2])];
    let report = Report::new(counting_tables);
    assert_eq!(report.healthy_transpose(), vec![vec![0, 1], vec![0, 2]]);
}

#[test]
fn healthy_last() {
    let counting_tables: Vec<CountingTable> = vec![table(vec![0, 0]), table(vec![1, 2])];
    let report = Report::new(counting_tables);
    assert_eq!(report.healthy_last(), vec![&0, &2]);
}

#[test]
fn average_healthy() {
    let counting_tables: Vec<CountingTable> =
        vec![table(vec![0, 0]), table(vec![8, 9]), table(vec![16, 0])];
    let report = Report::new(counting_tables);
    let average_healthy: Vec<average::Variance> = report
        .healthy_transpose()
        .iter()
        .map(|day| day.iter().map(|&count| count as f64).collect())
        .collect();
    assert_eq!(average_healthy.iter().map(|v| v.mean()).collect::<Vec<f64>>(), vec![8.0, 3.0]);
    assert_eq!(
        average_healthy.iter().map(|v| v.error()).collect::<Vec<f64>>(),
        vec![4.618802153517006, 3.0]
    );
}

#[test]
fn average_counting_table() {
    let report = Report::new(vec![table(vec![0]), table(vec![1])]);
    let variance: average::Variance = vec![0., 1.].into_iter().collect();
    assert_eq!(variance.mean(), 0.5);
    for state in Individual::all() {
        let days = report.transpose(state);
        assert_eq!(days, vec![vec![0, 1]]);
        let cell: average::Variance = days[0].iter().map(|&count| count as f64).collect();
        assert_eq!(cell.mean(), variance.mean());
        assert_eq!(cell.error(), variance.error());
    }
}

#[test]
fn series_and_transpose_of_any_state() {
    let first = CountingTable::from(vec![
        (Individual::Healthy, vec![5, 4, 3]),
        (Individual::Sick, vec![0, 1, 2]),
    ]);
    let second = CountingTable::from(vec![(Individual::Healthy, vec![9, 9, 8])]);
    let third = CountingTable::from(vec![
        (Individual::Healthy, vec![1, 1, 1]),
        (Individual::Sick, vec![7, 7, 7]),
    ]);
    let report = Report::new(vec![first, second, third]);
    assert_eq!(report.series(Individual::Sick), vec![&vec![0, 1, 2], &vec![7, 7, 7]]);
    assert_eq!(report.transpose(Individual::Sick), vec![vec![0, 7], vec![1, 7], vec![2, 7]]);
    assert_eq!(report.transpose(Individual::Immune), vec![vec![], vec![], vec![]]);
    assert_eq!(report.series(Individual::Healthy), report.healthy());
    assert_eq!(report.transpose(Individual::Healthy), report.healthy_transpose());
}

#[test]
fn replicates_without_healthy_are_left_out() {
    let sick_only = CountingTable::from(vec![(Individual::Sick, vec![4, 4, 4])]);
    let report = Report::new(vec![table(vec![5, 6]), sick_only, table(vec![7, 8])]);
    assert_eq!(report.healthy(), vec![&vec![5, 6], &vec![7, 8]]);
    assert_eq!(report.healthy_transpose(), vec![vec![5, 7], vec![6, 8]]);
    assert_eq!(report.healthy_last(), vec![&6, &8]);
    let empty = Report::new(vec![]);
    assert!(empty.healthy().is_empty());
    assert!(empty.healthy_last().is_empty());
}

#[test]
fn no_replicate_no_table() {
    let simulation = Simulation::new(Board::default(), ReportPlan { num_simulations: 0, days: 5 });
    assert_eq!(simulation.report_plan(), &ReportPlan { num_simulations: 0, days: 5 });
    assert_eq!(simulation.board(), &Board::default());
    let report = simulation.run();
    assert!(report.counting_tables().is_empty());
    assert_eq!(ReportPlan::default(), ReportPlan { num_simulations: 0, days: 0 });
}

#[test]
fn replicates_continue_the_history() {
    let simulation = Simulation::new(Board::default(), ReportPlan { num_simulations: 4, days: 6 });
    let report = simulation.run();
    assert_eq!(report.counting_tables().len(), 4);
    for table in report.counting_tables() {
        assert_eq!(table.days(), 7);
        for (k, state) in Individual::all().into_iter().enumerate() {
            let series = table.get(state).unwrap();
            assert_eq!(series.len(), 7);
            assert_eq!(series[0], [98, 2, 0, 0, 0, 0][k]);
        }
        for day in 0..7 {
            let total: usize =
                Individual::all().into_iter().map(|s| table.get(s).unwrap()[day]).sum();
            assert_eq!(total, 100);
        }
        assert_eq!(table.get(Individual::Sick).unwrap()[3], 2);
    }
    assert_eq!(report.healthy().len(), 4);
    assert_eq!(report.healthy_transpose().len(), 7);
    assert_eq!(report.healthy_transpose()[0], vec![98; 4]);
}

#[test]
fn counting_table_from_pairs() {
    let table = CountingTable::from(vec![
        (Individual::Sick, vec![1, 2, 3]),
        (Individual::Healthy, vec![9]),
        (Individual::Sick, vec![4]),
    ]);
    assert_eq!(table.get(Individual::Sick), Some(&vec![4]));
    assert_eq!(table.get(Individual::Healthy), Some(&vec![9]));
    assert_eq!(table.get(Individual::Immune), None);
    assert_eq!(table.days(), 1);
    assert_eq!(CountingTable::new().days(), 0);
    assert_eq!(CountingTable::from(vec![(Individual::Immune, vec![1, 1])]).days(), 2);
    let mut other = CountingTable::new();
    other.insert(Individual::Healthy, vec![9]);
    other.insert(Individual::Sick, vec![4]);
    assert_eq!(other, table);
    assert_eq!(table.duplicate(), table);
}

#[test]
fn register_moves_everybody_one_stage() {
    let population = Population::from(vec![
        Individual::Healthy,
        Individual::Healthy,
        Individual::Healthy,
        Individual::Infected1,
        Individual::Infected2,
        Individual::Infected2,
        Individual::Infected3,
        Individual::Sick,
        Individual::Immune,
    ]);
    let mut closed = Building::new(1, 1, "B");
    closed.close();
    let buildings = vec![Building::new(1, 1, "A"), closed];
    let mut recording = Recording::new(population, buildings.clone());
    recording.register(2, &buildings);
    let expected = CountingTable::from(vec![
        (Individual::Healthy, vec![3, 1]),
        (Individual::Infected1, vec![1, 2]),
        (Individual::Infected2, vec![2, 1]),
        (Individual::Infected3, vec![1, 2]),
        (Individual::Sick, vec![1, 2]),
        (Individual::Immune, vec![1, 1]),
    ]);
    assert_eq!(recording.counting_table(), &expected);
    assert_eq!(recording.newly_infected(), &vec![2]);
    assert_eq!(recording.open_buildings(), &vec![1]);
    recording.register(5, &buildings);
    assert_eq!(recording.counting_table().get(Individual::Healthy), Some(&vec![3, 1, 0]));
    assert_eq!(recording.counting_table().get(Individual::Infected1), Some(&vec![1, 2, 1]));
    assert_eq!(recording.newly_infected(), &vec![2, 5]);
}

#[test]
fn recording_immunize() {
    let population = Population::from(vec![Individual::Healthy, Individual::Sick]);
    let mut recording = Recording::new(population, vec![]);
    assert_eq!(recording.spreading(), &Spreading::OneNear);
    assert_eq!(recording.reverse_immunize().err(), Some(ActionError::NoImmuneLeft));
    assert!(recording.has(Individual::Healthy));
    recording.immunize().unwrap();
    assert_eq!(recording.counting_table().get(Individual::Healthy), Some(&vec![0]));
    assert_eq!(recording.counting_table().get(Individual::Immune), Some(&vec![1]));
    assert_eq!(recording.immunize().err(), Some(ActionError::NoHealthyLeft));
    recording.reverse_immunize().unwrap();
    assert_eq!(recording.counting_table().get(Individual::Healthy), Some(&vec![1]));
    recording.set_spreading(Spreading::Everyone);
    assert_eq!(recording.spreading(), &Spreading::Everyone);
    assert_eq!(recording.duplicate(), recording);
}

#[test]
fn builder_fields() {
    let mut builder = SimulationBuilder::default();
    assert_eq!(builder.report_plan(), &ReportPlan { num_simulations: 0, days: 0 });
    builder.set_report_plan(ReportPlan { num_simulations: 2, days: 1 });
    *builder.report_plan_mut().days_mut() += 2;
    builder.board_builder_mut().set_healthy(3).set_sick(1).set_buildings(vec![(1, 2)]);
    *builder.board_builder_mut().immune_mut() = 4;
    builder.board_builder_mut().buildings_mut().push((2, 2));
    builder.board_builder_mut().set_spreading(Spreading::Everyone);
    assert_eq!(builder.board_builder().healthy(), &3);
    assert_eq!(builder.board_builder().infected1(), &0);
    assert_eq!(builder.board_builder().buildings(), &vec![(1, 2), (2, 2)]);
    assert_eq!(builder.board_builder().spreading(), &Spreading::Everyone);
    assert_eq!(builder.report_plan().days(), &3);
    assert_eq!(builder.report_plan().num_simulations(), &2);
    let report = builder.build().run();
    assert_eq!(report.counting_tables().len(), 2);
    assert_eq!(report.healthy_last().len(), 2);
    for table in report.counting_tables() {
        assert_eq!(table.get(Individual::Healthy), Some(&vec![3, 3, 3, 3]));
        assert_eq!(table.get(Individual::Sick), Some(&vec![1, 1, 1, 1]));
        assert_eq!(table.get(Individual::Immune), Some(&vec![4, 4, 4, 4]));
    }
}
