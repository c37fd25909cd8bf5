//! The solver loop: start from the baseline network, repeatedly generate
//! neighbours, drop those over budget, let the chosen metaheuristic pick the
//! next candidate, track the best network seen, and occasionally restart from
//! a previously good network after the search goes stale. Every solution the
//! loop adopts or returns is within the budget.

use crate::baseline::{big_loop, big_loop_line};
use crate::evaluate::{evaluate, lemma_objective_unique, objective_of};
use crate::metaheuristic::{ScoredCandidate, SimAnneal, SimAnnealParams, TabuParams, TabuSearch};
use crate::problem::{
    bool_matrix_sized, lines_use_track, lines_wf, Problem, ScheduleType, Solution,
};
use crate::rng::RandomSource;
use crate::working::{lines_cost, same_network, WorkingSolution};
use vstd::prelude::*;

verus! {

/// How many consecutive non-improving accepted moves the loop tolerates
/// before it restarts from a pooled good solution.
pub const STALE_LIMIT: usize = 20;

/// Every so many accepted moves, the best network seen is added to the pool
/// of good solutions, if it is not already there.
pub const GOOD_POOL_PERIOD: usize = 100;

/// Which metaheuristic drives the search, with its configuration.
pub enum StrategyParams {
    /// Tabu search with its configuration.
    Tabu(TabuParams),
    /// Simulated annealing with its configuration.
    Annealing(SimAnnealParams),
}

impl StrategyParams {
    /// The configuration is valid.
    pub open spec fn wf(&self) -> bool {
        match self {
            StrategyParams::Tabu(_) => true,
            StrategyParams::Annealing(p) => p.wf(),
        }
    }
}

enum Strategy {
    Tabu(TabuSearch),
    Annealing(SimAnneal),
}

impl Strategy {
    spec fn wf(&self) -> bool {
        match self {
            Strategy::Tabu(_) => true,
            Strategy::Annealing(s) => s.params.wf(),
        }
    }
}

/// A same network, judged by its projections, is well formed whenever the
/// original is.
proof fn lemma_wf_same_network(a: WorkingSolution, b: WorkingSolution, p: Problem)
    requires
        same_network(a, b),
        a.wf(p),
    ensures
        b.wf(p),
{
}

/// Whether the pool already holds this network.
fn pool_contains(pool: &Vec<WorkingSolution>, s: &WorkingSolution) -> (r: bool)
    ensures
        r == exists|k: int| 0 <= k < pool@.len() && same_network(#[trigger] pool@[k], *s),
{
    let mut k: usize = 0;
    while k < pool.len()
        invariant
            k <= pool@.len(),
            forall|m: int| 0 <= m < k ==> !same_network(#[trigger] pool@[m], *s),
        decreases pool@.len() - k,
    {
        if pool[k].same_as(s) {
            return true;
        }
        k = k + 1;
    }
    false
}

/// The solver's parameters: the problem, the iteration budget, how eagerly
/// neighbours are proposed, and the metaheuristic configuration.
pub struct Solver<'a> {
    /// The train routing problem to solve.
    pub problem: &'a Problem,
    /// The number of iterations to run the search for.
    pub max_iterations: usize,
    /// Numerator of the probability that a neighbour is proposed at a site.
    pub neighbour_chance_num: u64,
    /// Denominator of that probability.
    pub neighbour_chance_den: u64,
    /// The metaheuristic that picks each move.
    pub strategy: StrategyParams,
}

impl<'a> Solver<'a> {
    /// Valid solver parameters over a valid problem.
    pub open spec fn wf(&self) -> bool {
        &&& self.problem.wf()
        &&& self.neighbour_chance_den >= 1
        &&& self.strategy.wf()
    }

    /// The baseline network the search is seeded from fits the budget.
    pub open spec fn baseline_feasible(&self) -> bool {
        lines_cost(
            seq![big_loop_line(self.problem.n as int, ScheduleType::Bidirectional)],
            self.problem.track_costs.deep_view(),
            self.problem.n as int,
            self.problem.train_price,
        ) <= self.problem.total_budget as int
    }

    /// Run the search and return the best network found. The answer is a
    /// consistent network — its built tracks are exactly the tracks its
    /// lines require — and it fits the budget: candidates over budget are
    /// filtered out before the metaheuristic ever sees them.
    #[verifier::loop_isolation(false)]
    pub fn solve<R: RandomSource>(&self, rng: &mut R) -> (r: Solution)
        requires
            self.wf(),
            self.baseline_feasible(),
        ensures
            r.train_lines.deep_view().len() >= 1,
            lines_wf(r.train_lines.deep_view(), self.problem.n as int),
            bool_matrix_sized(r.built_tracks.deep_view(), self.problem.n as int),
            forall|i: int, j: int|
                0 <= i < self.problem.n as int && 0 <= j < self.problem.n as int
                    ==> #[trigger] r.built_tracks.deep_view()[i][j] == lines_use_track(
                    r.train_lines.deep_view(),
                    i,
                    j,
                ),
            r.spec_cost(*self.problem) <= self.problem.total_budget as int,
            objective_of(r.obj_value, r.train_lines.deep_view(), *self.problem),
            // the answer is never worse than the baseline seed's score
            forall|b: u64|
                objective_of(
                    b,
                    seq![big_loop_line(self.problem.n as int, ScheduleType::Bidirectional)],
                    *self.problem,
                ) ==> r.obj_value <= b,
    {
        let problem = self.problem;
        let budget = problem.total_budget;

        // Construct the basic feasible seed network.
        let base = big_loop(problem, ScheduleType::Bidirectional);
        let mut solution = match WorkingSolution::from_lines(problem, base.train_lines) {
            Some(w) => w,
            None => {
                // The baseline fits the budget, so its cost fits a word.
                proof {
                    assert(false);
                }
                WorkingSolution { train_lines: Vec::new(), cost: 0, built_tracks: Vec::new() }
            },
        };
        proof {
            solution.lemma_cost_exact(*problem);
        }
        let mut best = solution.clone_solution();
        let mut best_score = evaluate(problem, &solution.train_lines);
        let ghost base_score = best_score;
        proof {
            assert(objective_of(
                base_score,
                seq![big_loop_line(problem.n as int, ScheduleType::Bidirectional)],
                *problem,
            ));
        }
        let mut current_score = best_score;
        let mut time: usize = 0;
        let mut stale_time: usize = 0;
        let mut good_solutions: Vec<WorkingSolution> = Vec::new();

        let mut mh = match &self.strategy {
            StrategyParams::Tabu(p) => Strategy::Tabu(TabuSearch::new(*p)),
            StrategyParams::Annealing(p) => Strategy::Annealing(SimAnneal::new(*p)),
        };

        let mut it: usize = 0;
        while it < self.max_iterations
            invariant
                solution.wf(*problem),
                solution.cost <= budget,
                best.wf(*problem),
                best.cost <= budget,
                objective_of(best_score, best.train_lines.deep_view(), *problem),
                best_score <= base_score,
                forall|k: int|
                    0 <= k < good_solutions@.len() ==> (#[trigger] good_solutions@[k]).wf(*problem)
                        && good_solutions@[k].cost <= budget,
                mh.wf(),
                it <= self.max_iterations,
                time <= it,
                stale_time <= time,
            decreases self.max_iterations - it,
        {
            // Consider possible neighbours of the current network; drop any
            // over budget, and score the rest.
            let neighbours = solution.generate_neighbours(
                problem,
                rng,
                self.neighbour_chance_num,
                self.neighbour_chance_den,
            );
            let mut scored: Vec<ScoredCandidate> = Vec::new();
            let mut k: usize = 0;
            while k < neighbours.len()
                invariant
                    k <= neighbours@.len(),
                    forall|m: int|
                        0 <= m < neighbours@.len() ==> (#[trigger] neighbours@[m]).wf(*problem),
                    forall|m: int|
                        0 <= m < scored@.len() ==> (#[trigger] scored@[m]).solution.wf(*problem)
                            && scored@[m].solution.cost <= budget && objective_of(
                            scored@[m].score,
                            scored@[m].solution.train_lines.deep_view(),
                            *problem,
                        ),
                decreases neighbours@.len() - k,
            {
                let w = neighbours[k].clone_solution();
                proof {
                    lemma_wf_same_network(neighbours@[k as int], w, *problem);
                }
                if w.cost <= budget {
                    let score = evaluate(problem, &w.train_lines);
                    scored.push(ScoredCandidate { solution: w, score });
                }
                k = k + 1;
            }

            // Let the strategy pick the next move.
            let picked: Option<ScoredCandidate> = match &mut mh {
                Strategy::Tabu(ts) => ts.choose_update(problem, &scored, current_score, time),
                Strategy::Annealing(sa) => sa.choose_update(problem, scored, rng, current_score),
            };
            match picked {
                None => {},  // no acceptable candidate: skip this iteration
                Some(sc) => {
                    proof {
                        let k2 = choose|k2: int|
                            0 <= k2 < scored@.len() && same_network(
                                (#[trigger] scored@[k2]).solution,
                                sc.solution,
                            ) && scored@[k2].score == sc.score;
                        lemma_wf_same_network(scored@[k2].solution, sc.solution, *problem);
                        assert(objective_of(
                            sc.score,
                            sc.solution.train_lines.deep_view(),
                            *problem,
                        ));
                    }
                    let score = sc.score;
                    solution = sc.solution;
                    if score < best_score {
                        best = solution.clone_solution();
                        best_score = score;
                    }
                    // Track staleness: consecutive accepted moves that do
                    // not improve on the previous score.
                    if current_score <= score {
                        stale_time = stale_time + 1;
                    } else {
                        stale_time = 0;
                    }
                    current_score = score;
                    if stale_time > STALE_LIMIT && good_solutions.len() > 0 {
                        // Intensification: restart near a previously good
                        // network.
                        let j = rng.pick(good_solutions.len());
                        solution = good_solutions[j].clone_solution();
                        proof {
                            lemma_wf_same_network(good_solutions@[j as int], solution, *problem);
                        }
                        current_score = evaluate(problem, &solution.train_lines);
                        stale_time = 0;
                    }
                    if time % GOOD_POOL_PERIOD == 0 && !pool_contains(&good_solutions, &best) {
                        good_solutions.push(best.clone_solution());
                        proof {
                            lemma_wf_same_network(
                                best,
                                good_solutions@[good_solutions@.len() - 1],
                                *problem,
                            );
                        }
                    }
                    time = time + 1;
                },
            }
            it = it + 1;
        }
        let r = Solution {
            built_tracks: best.built_tracks,
            train_lines: best.train_lines,
            obj_value: best_score,
        };
        proof {
            assert(r.spec_cost(*problem) == best.cost as int);
            assert forall|b: u64|
                objective_of(
                    b,
                    seq![big_loop_line(problem.n as int, ScheduleType::Bidirectional)],
                    *problem,
                ) implies r.obj_value <= b by {
                lemma_objective_unique(
                    b,
                    base_score,
                    seq![big_loop_line(problem.n as int, ScheduleType::Bidirectional)],
                    *problem,
                );
            }
        }
        r
    }
}

} // verus!
