//! Tests of the core library: the baseline network, solution costs,
//! feasibility, the evaluator, and the problem codec.

use railnet::baseline::big_loop;
use railnet::codec::{decode_problem, encode_problem};
use railnet::evaluate::{compute_travel_times, evaluate, QueueNode, TravelDirection};
use railnet::heap::{heap_new, heap_pop, heap_push};
use railnet::problem::{Problem, ScheduleType, Solution, TrainLine};

/// The three-station triangle instance used throughout the tests.
fn test_problem() -> Problem {
    Problem {
        n: 3,
        track_costs: vec![vec![0, 1, 2], vec![1, 0, 3], vec![2, 3, 0]],
        track_times: vec![vec![0, 3, 2], vec![3, 0, 4], vec![2, 4, 0]],
        travel_frequencies: vec![vec![0, 5, 1], vec![5, 0, 2], vec![1, 2, 0]],
        train_price: 5,
        total_budget: 1000,
    }
}

fn random_symmetric_matrix(n: usize) -> Vec<Vec<u64>> {
    let mut m = vec![vec![0u64; n]; n];
    for i in 0..n {
        for j in (i + 1)..n {
            let v = fastrand::u64(0..1000);
            m[i][j] = v;
            m[j][i] = v;
        }
    }
    m
}

fn gen_random_problem(n: usize, train_price: u64, total_budget: u64) -> Problem {
    Problem {
        n,
        track_costs: random_symmetric_matrix(n),
        track_times: random_symmetric_matrix(n),
        travel_frequencies: random_symmetric_matrix(n),
        train_price,
        total_budget,
    }
}

/// Tests saving and loading capabilities, ensuring that problem data is
/// consistently (de)serialised.
#[test]
fn test_problem_serde() {
    let problem = gen_random_problem(10, 1, 1);
    let bytes = encode_problem(&problem);
    let problem2 = decode_problem(&bytes).unwrap();
    assert_eq!(problem, problem2, "Ensure problem data (de)serialises consistently");
}

/// Ensures cost is calculated correctly, given a solution's description.
#[test]
fn test_solution_cost() {
    let problem = test_problem();
    let solution = Solution {
        built_tracks: vec![
            vec![false, true, true],
            vec![true, false, false],
            vec![true, false, false],
        ],
        train_lines: vec![TrainLine { route: vec![0, 1, 2], ty: ScheduleType::Bidirectional, n: 3 }],
        obj_value: 0, // arbitrary
    };
    let cost = solution.cost(&problem);
    assert_eq!(cost, 3 + 3 * 5, "Ensure cost is calculated correctly");
    assert!(solution.check_feasibility(&problem));
}

/// Ensures big loop baseline solution is constructed correctly.
#[test]
fn test_big_loop() {
    let problem = test_problem();
    let ref_sol1 = Solution {
        built_tracks: vec![
            vec![false, true, false],
            vec![true, false, true],
            vec![false, true, false],
        ],
        train_lines: vec![TrainLine { route: vec![0, 1, 2], ty: ScheduleType::Bidirectional, n: 1 }],
        obj_value: 25,
    };
    let sol1 = big_loop(&problem, ScheduleType::Bidirectional);
    assert_eq!(sol1, ref_sol1, "Ensure big loop is constructed correctly (bidirectionally)");

    let ref_sol2 = Solution {
        built_tracks: vec![
            vec![false, true, true],
            vec![true, false, true],
            vec![true, true, false],
        ],
        train_lines: vec![TrainLine { route: vec![0, 1, 2], ty: ScheduleType::Circular, n: 1 }],
        obj_value: 30,
    };
    let sol2 = big_loop(&problem, ScheduleType::Circular);
    assert_eq!(sol2, ref_sol2, "Ensure big loop is constructed correctly (circular)");
}

/// The evaluator is a pure function: identical inputs give identical output.
#[test]
fn test_evaluate_deterministic() {
    let problem = gen_random_problem(8, 2, 500);
    let lines = vec![
        TrainLine { route: vec![0, 3, 5, 7], ty: ScheduleType::Circular, n: 2 },
        TrainLine { route: vec![1, 2, 4, 6], ty: ScheduleType::Bidirectional, n: 1 },
    ];
    let a = evaluate(&problem, &lines);
    let b = evaluate(&problem, &lines);
    assert_eq!(a, b);
}

/// The computed travel time matrix is symmetric.
#[test]
fn test_travel_times_symmetric() {
    let problem = gen_random_problem(7, 1, 100);
    let lines = vec![
        TrainLine { route: vec![0, 2, 4], ty: ScheduleType::Bidirectional, n: 1 },
        TrainLine { route: vec![1, 3, 5, 6], ty: ScheduleType::Circular, n: 2 },
    ];
    let times = compute_travel_times(&problem, &lines);
    for i in 0..7 {
        for j in 0..7 {
            assert_eq!(times[i][j], times[j][i]);
        }
    }
}

/// A station served by no line keeps the large finite penalty time, so the
/// objective stays finite but heavily penalized.
#[test]
fn test_unreached_station_penalty() {
    let problem = test_problem();
    // Only stations 0 and 1 are served; station 2 is stranded.
    let lines = vec![TrainLine { route: vec![0, 1], ty: ScheduleType::Bidirectional, n: 1 }];
    // Pair (0,1) takes 3 with demand 5; pairs (0,2) and (1,2) take the
    // penalty of ten billion with demands 1 and 2.
    let expected = 5 * 3 + 3 * 10_000_000_000u64;
    assert_eq!(evaluate(&problem, &lines), expected);
}

/// A line's expected wait enters a journey that switches lines: riding from
/// station 0 to station 2 over two lines costs the ride times plus the
/// second line's wait.
#[test]
fn test_switch_pays_target_line_delay() {
    let problem = test_problem();
    // Line a serves 0-1, line b serves 1-2 with one train: b's cycle is 4,
    // so its expected wait is 4 / 2 = 2.
    let lines = vec![
        TrainLine { route: vec![0, 1], ty: ScheduleType::Bidirectional, n: 1 },
        TrainLine { route: vec![1, 2], ty: ScheduleType::Bidirectional, n: 1 },
    ];
    let times = compute_travel_times(&problem, &lines);
    assert_eq!(times[0][1], 3);
    assert_eq!(times[1][2], 4);
    // 0 -> 1 (3), switch (wait 2), 1 -> 2 (4).
    assert_eq!(times[0][2], 3 + 2 + 4);
}

/// A malformed serialization is rejected: truncation, a non-digit, an
/// asymmetric matrix, a nonzero diagonal, and trailing bytes.
#[test]
fn test_decode_rejects_malformed() {
    let problem = test_problem();
    let good = encode_problem(&problem);
    assert!(decode_problem(&good).is_some());

    let mut truncated = good.clone();
    truncated.pop();
    assert!(decode_problem(&truncated).is_none());

    let mut bad_digit = good.clone();
    bad_digit[5] = b'x';
    assert!(decode_problem(&bad_digit).is_none());

    let mut trailing = good.clone();
    trailing.push(b'0');
    assert!(decode_problem(&trailing).is_none());

    let mut asymmetric = test_problem();
    asymmetric.track_costs[0][1] = 9;
    let bytes = encode_problem(&asymmetric);
    assert!(decode_problem(&bytes).is_none());

    let mut diagonal = test_problem();
    diagonal.track_times[1][1] = 4;
    let bytes2 = encode_problem(&diagonal);
    assert!(decode_problem(&bytes2).is_none());
}

/// A journey may switch lines at most once: a destination that needs two
/// switches is unreached and keeps the penalty time.
#[test]
fn test_single_switch_limit() {
    let problem = Problem {
        n: 4,
        track_costs: vec![
            vec![0, 1, 1, 1],
            vec![1, 0, 1, 1],
            vec![1, 1, 0, 1],
            vec![1, 1, 1, 0],
        ],
        track_times: vec![
            vec![0, 1, 5, 5],
            vec![1, 0, 1, 5],
            vec![5, 1, 0, 1],
            vec![5, 5, 1, 0],
        ],
        travel_frequencies: vec![
            vec![0, 1, 1, 1],
            vec![1, 0, 1, 1],
            vec![1, 1, 0, 1],
            vec![1, 1, 1, 0],
        ],
        train_price: 1,
        total_budget: 100,
    };
    let lines = vec![
        TrainLine { route: vec![0, 1], ty: ScheduleType::Bidirectional, n: 1 },
        TrainLine { route: vec![1, 2], ty: ScheduleType::Bidirectional, n: 1 },
        TrainLine { route: vec![2, 3], ty: ScheduleType::Bidirectional, n: 1 },
    ];
    let times = compute_travel_times(&problem, &lines);
    // One switch reaches station 2 (ride 1, wait 0 since the cycle time 1
    // rounds down to no wait, ride 1); a second switch is not allowed, so
    // station 3 keeps the penalty.
    assert_eq!(times[0][2], 2);
    assert_eq!(times[0][3], 10_000_000_000);
}

/// The search queue pops its entries greatest key first, which the
/// evaluator relies on to expand the cheapest rider state next.
#[test]
fn test_queue_pops_greatest_key_first() {
    let node = |score: u64| QueueNode {
        station: 0,
        train: 0,
        score,
        direction: TravelDirection::Forward,
        train_schedule_progress: 0,
        has_switched: false,
    };
    let mut q = heap_new();
    heap_push(&mut q, 3, node(3));
    heap_push(&mut q, 5, node(5));
    heap_push(&mut q, 4, node(4));
    assert_eq!(heap_pop(&mut q).map(|e| e.0), Some(5));
    assert_eq!(heap_pop(&mut q).map(|e| e.0), Some(4));
    assert_eq!(heap_pop(&mut q).map(|e| e.0), Some(3));
    assert!(heap_pop(&mut q).is_none());
}

/// Feasibility is exactly cost within budget: the same network is feasible
/// under a budget of its cost and infeasible one unit below it.
#[test]
fn test_feasibility_boundary() {
    let mut problem = test_problem();
    let solution = Solution {
        built_tracks: vec![
            vec![false, true, false],
            vec![true, false, true],
            vec![false, true, false],
        ],
        train_lines: vec![TrainLine { route: vec![0, 1, 2], ty: ScheduleType::Bidirectional, n: 1 }],
        obj_value: 25,
    };
    // Tracks 0-1 and 1-2 cost 1 + 3, one train costs 5: total 9.
    assert_eq!(solution.cost(&problem), 9);
    problem.total_budget = 9;
    assert!(solution.check_feasibility(&problem));
    problem.total_budget = 8;
    assert!(!solution.check_feasibility(&problem));
}
