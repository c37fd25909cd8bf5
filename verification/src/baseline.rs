//! A trivially simple seed network used to start the search: one line that
//! visits every station once. Its budget feasibility is not guaranteed; it
//! only provides a starting point for mutation.

use crate::evaluate::{evaluate, objective_of};
use crate::problem::{
    line_wf, lines_use_track, lines_wf, LineView, Problem, ScheduleType, Solution, TrainLine,
};
use crate::tracks::lines_use_track_at;
use vstd::prelude::*;

verus! {

/// The one line of the baseline network: every station in index order,
/// served by a single train.
pub open spec fn big_loop_line(n: int, ty: ScheduleType) -> LineView {
    LineView { route: Seq::new(n as nat, |i: int| i as usize), ty, n: 1 }
}

/// Generate a single train line that visits every station once, with the
/// built-track matrix holding exactly the tracks that line requires, and the
/// evaluator's objective value for it.
#[verifier::loop_isolation(false)]
pub fn big_loop(problem: &Problem, ty: ScheduleType) -> (r: Solution)
    requires
        problem.wf(),
    ensures
        r.train_lines.deep_view() == seq![big_loop_line(problem.n as int, ty)],
        r.built_tracks.deep_view().len() == problem.n,
        forall|i: int|
            0 <= i < problem.n as int ==> (#[trigger] r.built_tracks.deep_view()[i]).len()
                == problem.n,
        forall|i: int, j: int|
            0 <= i < problem.n as int && 0 <= j < problem.n as int
                ==> #[trigger] r.built_tracks.deep_view()[i][j] == lines_use_track(
                seq![big_loop_line(problem.n as int, ty)],
                i,
                j,
            ),
        objective_of(r.obj_value, r.train_lines.deep_view(), *problem),
{
    let ghost n_spec = problem.n as int;
    let n = problem.n;
    let mut route: Vec<usize> = Vec::new();
    let mut k: usize = 0;
    while k < n
        invariant
            k <= n,
            route@.len() == k,
            forall|m: int| 0 <= m < k ==> route@[m] == m,
        decreases n - k,
    {
        route.push(k);
        k = k + 1;
    }
    let line = TrainLine { route, ty, n: 1 };
    let mut train_lines: Vec<TrainLine> = Vec::new();
    train_lines.push(line);
    let ghost ls = train_lines.deep_view();
    proof {
        crate::problem::lemma_lines_view(&train_lines);
        assert(ls[0].route =~= big_loop_line(n_spec, ty).route);
        assert(ls =~= seq![big_loop_line(n_spec, ty)]);
        assert(line_wf(ls[0], n_spec));
        assert(lines_wf(ls, n_spec));
    }
    let obj_value = evaluate(problem, &train_lines);
    let mut built: Vec<Vec<bool>> = Vec::new();
    let mut i: usize = 0;
    while i < n
        invariant
            i <= n,
            built@.len() == i,
            forall|a: int|
                0 <= a < i ==> (#[trigger] built@[a])@.len() == n_spec && forall|b: int|
                    0 <= b < n_spec ==> built@[a]@[b] == lines_use_track(ls, a, b),
        decreases n - i,
    {
        let mut row: Vec<bool> = Vec::new();
        let mut j: usize = 0;
        while j < n
            invariant
                j <= n,
                row@.len() == j,
                forall|b: int| 0 <= b < j ==> row@[b] == lines_use_track(ls, i as int, b),
            decreases n - j,
        {
            row.push(lines_use_track_at(&train_lines, i, j));
            j = j + 1;
        }
        built.push(row);
        i = i + 1;
    }
    let r = Solution { built_tracks: built, train_lines, obj_value };
    proof {
        crate::problem::lemma_bool_matrix_view(&r.built_tracks);
        assert forall|a: int, b: int|
            0 <= a < n_spec && 0 <= b < n_spec implies #[trigger] r.built_tracks.deep_view()[a][b]
            == lines_use_track(seq![big_loop_line(n_spec, ty)], a, b) by {
            assert(r.built_tracks.deep_view()[a] == r.built_tracks@[a]@);
        }
    }
    r
}

} // verus!
