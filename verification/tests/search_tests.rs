//! Tests of the search machinery: move cost bookkeeping, the metaheuristics'
//! bookkeeping, and whole solver runs.

use railnet::metaheuristic::{ScoredCandidate, SimAnneal, SimAnnealParams, TabuParams, TabuSearch};
use railnet::problem::{Problem, ScheduleType, TrainLine};
use railnet::rng::SplitMix64;
use railnet::solver::{Solver, StrategyParams};
use railnet::working::WorkingSolution;

fn test_problem() -> Problem {
    Problem {
        n: 3,
        track_costs: vec![vec![0, 1, 2], vec![1, 0, 3], vec![2, 3, 0]],
        track_times: vec![vec![0, 3, 2], vec![3, 0, 4], vec![2, 4, 0]],
        travel_frequencies: vec![vec![0, 5, 1], vec![5, 0, 2], vec![1, 2, 0]],
        train_price: 5,
        total_budget: 1000,
    }
}

fn seed_solution(problem: &Problem) -> WorkingSolution {
    let lines = vec![TrainLine { route: vec![0, 1, 2], ty: ScheduleType::Bidirectional, n: 1 }];
    WorkingSolution::from_lines(problem, lines).unwrap()
}

/// The incrementally tracked cost equals the from-scratch recomputation
/// after every kind of move.
#[test]
fn test_incremental_cost_exact() {
    let problem = test_problem();
    let base = seed_solution(&problem);
    // Tracks 0-1 (1) and 1-2 (3) plus one train (5).
    assert_eq!(base.cost, 9);
    assert_eq!(base.calc_cost(&problem), Some(base.cost));

    let dup = base.duplicate_line(&problem, 0).unwrap();
    assert_eq!(dup.cost, 9 + 5);
    assert_eq!(dup.calc_cost(&problem), Some(dup.cost));

    let more_trains = base.change_train_count(&problem, 0, true).unwrap();
    assert_eq!(more_trains.cost, 9 + 5);
    assert_eq!(more_trains.calc_cost(&problem), Some(more_trains.cost));

    // Turning the line circular builds the wrap track 0-2 (cost 2).
    let circular = base.change_schedule_type(&problem, 0).unwrap();
    assert_eq!(circular.cost, 9 + 2);
    assert_eq!(circular.calc_cost(&problem), Some(circular.cost));

    // Removing the middle stop of [0,1,2] retires 0-1 and 1-2 and builds
    // 0-2: 9 - 1 - 3 + 2.
    let shorter = base.remove_stop(&problem, 0, 1).unwrap();
    assert_eq!(shorter.cost, 9 - 1 - 3 + 2);
    assert_eq!(shorter.calc_cost(&problem), Some(shorter.cost));

    // Inserting stop 2 between 0 and 1 of the line [0,1] builds 0-2 (2) and
    // 1-2 (3) and retires 0-1 (1).
    let two_stop = WorkingSolution::from_lines(
        &problem,
        vec![TrainLine { route: vec![0, 1], ty: ScheduleType::Bidirectional, n: 1 }],
    )
    .unwrap();
    assert_eq!(two_stop.cost, 1 + 5);
    let inserted = two_stop.insert_stop(&problem, 0, 2, 1).unwrap();
    assert_eq!(inserted.cost, 6 + 2 + 3 - 1);
    assert_eq!(inserted.calc_cost(&problem), Some(inserted.cost));

    // Removing the duplicated line credits its train but keeps the tracks
    // the remaining line still needs.
    let undone = dup.remove_line(&problem, 1);
    assert_eq!(undone.cost, 9);
    assert_eq!(undone.calc_cost(&problem), Some(undone.cost));
}

/// Across consecutive accepted iterations within the active timeout window,
/// the accepted line-list signature never repeats.
#[test]
fn test_tabu_non_repetition() {
    let problem = test_problem();
    let candidate = || ScoredCandidate { solution: seed_solution(&problem), score: 25 };
    let mut tabu = TabuSearch::new(TabuParams { initial_timeout: 10, size_adjust: 1 });

    let first = tabu.choose_update(&problem, &vec![candidate()], 100, 0);
    assert!(first.is_some());
    // The same signature is forbidden while the window is active.
    for time in 1..5 {
        let again = tabu.choose_update(&problem, &vec![candidate()], 100, time);
        assert!(again.is_none());
    }
}

/// Among candidates that are not forbidden, tabu search picks the least
/// score.
#[test]
fn test_tabu_picks_minimum() {
    let problem = test_problem();
    let mk = |score: u64, trains: usize| ScoredCandidate {
        solution: WorkingSolution::from_lines(
            &problem,
            vec![TrainLine { route: vec![0, 1, 2], ty: ScheduleType::Bidirectional, n: trains }],
        )
        .unwrap(),
        score,
    };
    let mut tabu = TabuSearch::new(TabuParams { initial_timeout: 10, size_adjust: 1 });
    let picked = tabu
        .choose_update(&problem, &vec![mk(40, 1), mk(20, 2), mk(30, 3)], 100, 0)
        .unwrap();
    assert_eq!(picked.score, 20);
    assert_eq!(picked.solution.train_lines[0].n, 2);
}

/// The annealing temperature never rises, falls strictly under a cooling
/// factor below one, and stays equal under a factor of one.
#[test]
fn test_annealing_monotonic_cooling() {
    let mut sa = SimAnneal::new(SimAnnealParams {
        initial_temp: 540,
        temp_scale_num: 9,
        temp_scale_den: 10,
    });
    let mut last = sa.temp;
    while sa.temp > 0 {
        sa.cool();
        assert!(sa.temp < last);
        last = sa.temp;
    }
    sa.cool();
    assert_eq!(sa.temp, 0);

    let mut fixed = SimAnneal::new(SimAnnealParams {
        initial_temp: 77,
        temp_scale_num: 1,
        temp_scale_den: 1,
    });
    fixed.cool();
    assert_eq!(fixed.temp, 77);
}

/// Annealing always adopts an improving candidate, and rejects every
/// worsening candidate once the temperature has hit zero.
#[test]
fn test_annealing_acceptance() {
    let problem = test_problem();
    let mut rng = SplitMix64::new(7);
    let mk = |score: u64| ScoredCandidate { solution: seed_solution(&problem), score };
    let mut sa = SimAnneal::new(SimAnnealParams {
        initial_temp: 0,
        temp_scale_num: 1,
        temp_scale_den: 2,
    });
    let picked = sa.choose_update(&problem, vec![mk(90), mk(50)], &mut rng, 80).unwrap();
    assert_eq!(picked.score, 50);
    let none = sa.choose_update(&problem, vec![mk(90), mk(85)], &mut rng, 80);
    assert!(none.is_none());
}

/// A whole tabu solver run returns a feasible solution.
#[test]
fn test_solver_tabu_feasible() {
    let problem = test_problem();
    let solver = Solver {
        problem: &problem,
        max_iterations: 60,
        neighbour_chance_num: 4,
        neighbour_chance_den: 5,
        strategy: StrategyParams::Tabu(TabuParams { initial_timeout: 20, size_adjust: 2 }),
    };
    let mut rng = SplitMix64::new(42);
    let solution = solver.solve(&mut rng);
    assert!(solution.check_feasibility(&problem));
    assert!(solution.train_lines.len() >= 1);
}

/// A whole annealing solver run returns a feasible solution, also under a
/// tight budget.
#[test]
fn test_solver_annealing_feasible() {
    let mut problem = test_problem();
    problem.total_budget = 12;
    let solver = Solver {
        problem: &problem,
        max_iterations: 80,
        neighbour_chance_num: 1,
        neighbour_chance_den: 1,
        strategy: StrategyParams::Annealing(SimAnnealParams {
            initial_temp: 540,
            temp_scale_num: 99,
            temp_scale_den: 100,
        }),
    };
    let mut rng = SplitMix64::new(3);
    let solution = solver.solve(&mut rng);
    assert!(solution.check_feasibility(&problem));
}

/// The neighbourhood generator only proposes candidates that satisfy the
/// candidate invariant: their tracked cost survives the from-scratch check.
#[test]
fn test_neighbours_cost_consistent() {
    let problem = test_problem();
    let base = seed_solution(&problem);
    let mut rng = SplitMix64::new(11);
    let neighbours = base.generate_neighbours(&problem, &mut rng, 1, 1);
    assert!(neighbours.len() > 0);
    for w in &neighbours {
        assert_eq!(w.calc_cost(&problem), Some(w.cost));
    }
}

/// Under a certain proposal chance, every applicable move of every family is
/// in the batch: for the one three-stop line, that is the duplication, one
/// stop removal per position, the train increase, the toggle, and nothing
/// else (no second line to remove, no station left to insert, one train
/// already).
#[test]
fn test_neighbours_complete_at_certain_chance() {
    let problem = test_problem();
    let base = seed_solution(&problem);
    let mut rng = SplitMix64::new(5);
    let neighbours = base.generate_neighbours(&problem, &mut rng, 1, 1);
    assert_eq!(neighbours.len(), 1 + 3 + 1 + 1);
    let has_lines = |lines: &Vec<TrainLine>| {
        neighbours.iter().any(|w| &w.train_lines == lines)
    };
    let line = |route: Vec<usize>, ty: ScheduleType, n: usize| TrainLine { route, ty, n };
    // The duplication.
    assert!(has_lines(&vec![
        line(vec![0, 1, 2], ScheduleType::Bidirectional, 1),
        line(vec![0, 1, 2], ScheduleType::Bidirectional, 1),
    ]));
    // The three stop removals.
    assert!(has_lines(&vec![line(vec![1, 2], ScheduleType::Bidirectional, 1)]));
    assert!(has_lines(&vec![line(vec![0, 2], ScheduleType::Bidirectional, 1)]));
    assert!(has_lines(&vec![line(vec![0, 1], ScheduleType::Bidirectional, 1)]));
    // The train increase.
    assert!(has_lines(&vec![line(vec![0, 1, 2], ScheduleType::Bidirectional, 2)]));
    // The schedule style toggle.
    assert!(has_lines(&vec![line(vec![0, 1, 2], ScheduleType::Circular, 1)]));
}

/// The solver never returns a network scoring worse than the baseline seed.
#[test]
fn test_solver_no_worse_than_baseline() {
    let problem = test_problem();
    let baseline = railnet::baseline::big_loop(&problem, ScheduleType::Bidirectional);
    let solver = Solver {
        problem: &problem,
        max_iterations: 40,
        neighbour_chance_num: 1,
        neighbour_chance_den: 1,
        strategy: StrategyParams::Tabu(TabuParams { initial_timeout: 10, size_adjust: 1 }),
    };
    let mut rng = SplitMix64::new(9);
    let solution = solver.solve(&mut rng);
    assert!(solution.obj_value <= baseline.obj_value);
}
