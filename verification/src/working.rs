//! The candidate solution the local search works on: the line list, the
//! derived built-track matrix, and a cached cost that is maintained
//! incrementally, move by move. The well-formedness invariant ties all three
//! together: the built matrix holds exactly the tracks some line requires,
//! and the cached cost equals the from-scratch cost formula.

use crate::problem::{
    bmat_at, bool_matrix_sized, built_cost_sum, built_cost_sum_upto, lemma_bool_matrix_view,
    lemma_built_cost_sum_upto_monotone, lemma_lines_view, lemma_row_cost_sum_nonneg,
    lemma_total_trains_nonneg, lemma_total_trains_take, lemma_total_trains_take_le,
    lemma_u64_matrix_view, line_wf, lines_use_track, lines_wf, mat_at, network_cost,
    pair_connects, row_cost_sum, total_trains, track_pair_cost, LineView, Problem, ScheduleType,
    TrainLine,
};
use crate::evaluate::route_position;
use crate::rng::RandomSource;
use crate::tracks::lines_use_track_at;
use vstd::arithmetic::mul::lemma_mul_inequality;
use vstd::arithmetic::mul::lemma_mul_is_distributive_add_other_way;
use vstd::arithmetic::mul::lemma_mul_is_distributive_sub_other_way;
use vstd::arithmetic::mul::lemma_mul_nonnegative;
use vstd::prelude::*;

verus! {

/// Copy a route so that the copy reads the same.
pub fn clone_route(v: &Vec<usize>) -> (r: Vec<usize>)
    ensures
        r@ == v@,
{
    let mut r: Vec<usize> = Vec::new();
    let mut k: usize = 0;
    while k < v.len()
        invariant
            k <= v@.len(),
            r@ == v@.take(k as int),
        decreases v@.len() - k,
    {
        r.push(v[k]);
        proof {
            assert(r@ =~= v@.take(k as int + 1));
        }
        k = k + 1;
    }
    proof {
        assert(v@.take(v@.len() as int) =~= v@);
    }
    r
}

/// Copy a train line so that the copy's value is the same.
pub fn clone_line(l: &TrainLine) -> (r: TrainLine)
    ensures
        r@ == l@,
{
    TrainLine { route: clone_route(&l.route), ty: l.ty, n: l.n }
}

/// Copy a line list so that the copy's value is the same.
#[verifier::loop_isolation(false)]
pub fn clone_lines(v: &Vec<TrainLine>) -> (r: Vec<TrainLine>)
    ensures
        r.deep_view() == v.deep_view(),
        r@.len() == v@.len(),
{
    proof {
        lemma_lines_view(v);
    }
    let mut r: Vec<TrainLine> = Vec::new();
    let mut k: usize = 0;
    while k < v.len()
        invariant
            k <= v@.len(),
            r@.len() == k,
            forall|m: int| 0 <= m < k ==> r.deep_view()[m] == v.deep_view()[m],
        decreases v@.len() - k,
    {
        let line = clone_line(&v[k]);
        r.push(line);
        proof {
            lemma_lines_view(&r);
        }
        k = k + 1;
    }
    proof {
        assert(r.deep_view() =~= v.deep_view());
    }
    r
}

/// Copy a boolean matrix so that the copy's value is the same.
#[verifier::loop_isolation(false)]
pub fn clone_bool_matrix(m: &Vec<Vec<bool>>) -> (r: Vec<Vec<bool>>)
    ensures
        r.deep_view() == m.deep_view(),
        r@.len() == m@.len(),
{
    proof {
        lemma_bool_matrix_view(m);
    }
    let mut r: Vec<Vec<bool>> = Vec::new();
    let mut i: usize = 0;
    while i < m.len()
        invariant
            i <= m@.len(),
            r@.len() == i,
            forall|a: int| 0 <= a < i ==> r.deep_view()[a] == m.deep_view()[a],
        decreases m@.len() - i,
    {
        let src = &m[i];
        let mut row: Vec<bool> = Vec::new();
        let mut j: usize = 0;
        while j < src.len()
            invariant
                j <= src@.len(),
                row@ == src@.take(j as int),
            decreases src@.len() - j,
        {
            row.push(src[j]);
            proof {
                assert(row@ =~= src@.take(j as int + 1));
            }
            j = j + 1;
        }
        proof {
            assert(row@ =~= src@);
        }
        r.push(row);
        proof {
            lemma_bool_matrix_view(&r);
        }
        i = i + 1;
    }
    proof {
        assert(r.deep_view() =~= m.deep_view());
    }
    r
}

/// Whether two routes read the same.
pub fn routes_equal(a: &Vec<usize>, b: &Vec<usize>) -> (r: bool)
    ensures
        r == (a@ == b@),
{
    if a.len() != b.len() {
        proof {
            assert(a@.len() != b@.len());
        }
        return false;
    }
    let mut k: usize = 0;
    while k < a.len()
        invariant
            k <= a@.len(),
            a@.len() == b@.len(),
            forall|m: int| 0 <= m < k ==> a@[m] == b@[m],
        decreases a@.len() - k,
    {
        if a[k] != b[k] {
            return false;
        }
        k = k + 1;
    }
    proof {
        assert(a@ =~= b@);
    }
    true
}

/// Whether two lines have the same value: route, style and train count.
pub fn line_equal(a: &TrainLine, b: &TrainLine) -> (r: bool)
    ensures
        r == (a@ == b@),
{
    routes_equal(&a.route, &b.route) && a.ty == b.ty && a.n == b.n
}

/// Whether two line lists read the same, element for element.
#[verifier::loop_isolation(false)]
pub fn lines_equal(a: &Vec<TrainLine>, b: &Vec<TrainLine>) -> (r: bool)
    ensures
        r == (a.deep_view() == b.deep_view()),
{
    proof {
        lemma_lines_view(a);
        lemma_lines_view(b);
    }
    if a.len() != b.len() {
        proof {
            assert(a.deep_view().len() != b.deep_view().len());
        }
        return false;
    }
    let mut k: usize = 0;
    while k < a.len()
        invariant
            k <= a@.len(),
            a@.len() == b@.len(),
            forall|m: int| 0 <= m < k ==> a.deep_view()[m] == b.deep_view()[m],
        decreases a@.len() - k,
    {
        if !line_equal(&a[k], &b[k]) {
            proof {
                assert(a.deep_view()[k as int] == a@[k as int]@);
                assert(b.deep_view()[k as int] == b@[k as int]@);
            }
            return false;
        }
        k = k + 1;
    }
    proof {
        assert(a.deep_view() =~= b.deep_view());
    }
    true
}

/// Whether two boolean matrices read the same.
#[verifier::loop_isolation(false)]
pub fn bool_matrices_equal(a: &Vec<Vec<bool>>, b: &Vec<Vec<bool>>) -> (r: bool)
    ensures
        r == (a.deep_view() == b.deep_view()),
{
    proof {
        lemma_bool_matrix_view(a);
        lemma_bool_matrix_view(b);
    }
    if a.len() != b.len() {
        proof {
            assert(a.deep_view().len() != b.deep_view().len());
        }
        return false;
    }
    let mut i: usize = 0;
    while i < a.len()
        invariant
            i <= a@.len(),
            a@.len() == b@.len(),
            forall|m: int| 0 <= m < i ==> a.deep_view()[m] == b.deep_view()[m],
        decreases a@.len() - i,
    {
        let ra = &a[i];
        let rb = &b[i];
        if ra.len() != rb.len() {
            proof {
                assert(a.deep_view()[i as int].len() != b.deep_view()[i as int].len());
            }
            return false;
        }
        let mut j: usize = 0;
        while j < ra.len()
            invariant
                i < a@.len(),
                j <= ra@.len(),
                ra@.len() == rb@.len(),
                ra == &a@[i as int],
                rb == &b@[i as int],
                forall|m: int| 0 <= m < j ==> ra@[m] == rb@[m],
            decreases ra@.len() - j,
        {
            if ra[j] != rb[j] {
                proof {
                    assert(a.deep_view()[i as int][j as int] != b.deep_view()[i as int][j as int]);
                }
                return false;
            }
            j = j + 1;
        }
        proof {
            assert(a.deep_view()[i as int] =~= b.deep_view()[i as int]);
        }
        i = i + 1;
    }
    proof {
        assert(a.deep_view() =~= b.deep_view());
    }
    true
}

/// The tracks a line list requires, as an `n` by `n` boolean matrix.
pub open spec fn required_matrix(ls: Seq<LineView>, n: int) -> Seq<Seq<bool>> {
    Seq::new(n as nat, |i: int| Seq::new(n as nat, |j: int| lines_use_track(ls, i, j)))
}

/// The from-scratch cost of a line list: the construction cost of every
/// track it requires, plus the price of all its trains.
pub open spec fn lines_cost(ls: Seq<LineView>, costs: Seq<Seq<u64>>, n: int, price: u64) -> int {
    network_cost(required_matrix(ls, n), ls, costs, n, price)
}

/// Two matrices that agree above the diagonal in row `i` have the same row
/// sum there.
proof fn lemma_row_sum_congruent(
    b1: Seq<Seq<bool>>,
    b2: Seq<Seq<bool>>,
    costs: Seq<Seq<u64>>,
    i: int,
    j: int,
)
    requires
        forall|c: int| i < c < j ==> b1[i][c] == b2[i][c],
    ensures
        row_cost_sum(b1, costs, i, j) == row_cost_sum(b2, costs, i, j),
    decreases j - i,
{
    if j > i + 1 {
        lemma_row_sum_congruent(b1, b2, costs, i, j - 1);
    }
}

/// Two matrices that agree above the diagonal in row `i` except at one
/// column differ in that row's sum by exactly that column's contribution.
proof fn lemma_row_sum_flip(
    b1: Seq<Seq<bool>>,
    b2: Seq<Seq<bool>>,
    costs: Seq<Seq<u64>>,
    i: int,
    c: int,
    j: int,
)
    requires
        i < c,
        forall|c2: int| i < c2 < j && c2 != c ==> b1[i][c2] == b2[i][c2],
    ensures
        row_cost_sum(b2, costs, i, j) == row_cost_sum(b1, costs, i, j) + if i < c < j {
            track_pair_cost(b2, costs, i, c) - track_pair_cost(b1, costs, i, c)
        } else {
            0
        },
    decreases j - i,
{
    if j > i + 1 {
        lemma_row_sum_flip(b1, b2, costs, i, c, j - 1);
    }
}

/// Two matrices that agree above the diagonal except at one cell `(a, c)`
/// differ in the whole track cost sum by exactly that cell's contribution.
proof fn lemma_upto_flip(
    b1: Seq<Seq<bool>>,
    b2: Seq<Seq<bool>>,
    costs: Seq<Seq<u64>>,
    n: int,
    r: int,
    a: int,
    c: int,
)
    requires
        0 <= a < c < n,
        r <= n,
        forall|r2: int, c2: int|
            0 <= r2 < n && r2 < c2 < n && !(r2 == a && c2 == c) ==> b1[r2][c2] == b2[r2][c2],
    ensures
        built_cost_sum_upto(b2, costs, n, r) == built_cost_sum_upto(b1, costs, n, r) + if a < r {
            track_pair_cost(b2, costs, a, c) - track_pair_cost(b1, costs, a, c)
        } else {
            0
        },
    decreases r,
{
    if r > 0 {
        lemma_upto_flip(b1, b2, costs, n, r - 1, a, c);
        if r - 1 == a {
            lemma_row_sum_flip(b1, b2, costs, a, c, n);
        } else {
            lemma_row_sum_congruent(b1, b2, costs, r - 1, n);
        }
    }
}

/// Flipping the one cell `(a, c)` above the diagonal changes the track cost
/// sum by exactly that track's cost.
pub proof fn lemma_built_cost_sum_flip(
    b1: Seq<Seq<bool>>,
    b2: Seq<Seq<bool>>,
    costs: Seq<Seq<u64>>,
    n: int,
    a: int,
    c: int,
)
    requires
        0 <= a < c < n,
        forall|r2: int, c2: int|
            0 <= r2 < n && r2 < c2 < n && !(r2 == a && c2 == c) ==> b1[r2][c2] == b2[r2][c2],
    ensures
        built_cost_sum(b2, costs, n) == built_cost_sum(b1, costs, n) + track_pair_cost(
            b2,
            costs,
            a,
            c,
        ) - track_pair_cost(b1, costs, a, c),
{
    lemma_upto_flip(b1, b2, costs, n, n, a, c);
}

/// Two matrices that agree above the diagonal have the same track cost sum.
pub proof fn lemma_built_cost_sum_congruent(
    b1: Seq<Seq<bool>>,
    b2: Seq<Seq<bool>>,
    costs: Seq<Seq<u64>>,
    n: int,
    r: int,
)
    requires
        r <= n,
        forall|r2: int, c2: int| 0 <= r2 < n && r2 < c2 < n ==> b1[r2][c2] == b2[r2][c2],
    ensures
        built_cost_sum_upto(b2, costs, n, r) == built_cost_sum_upto(b1, costs, n, r),
    decreases r,
{
    if r > 0 {
        lemma_built_cost_sum_congruent(b1, b2, costs, n, r - 1);
        lemma_row_sum_congruent(b1, b2, costs, r - 1, n);
    }
}

/// No well-formed line requires a track from a station to itself.
pub proof fn lemma_no_self_track(ls: Seq<LineView>, n: int, i: int)
    requires
        lines_wf(ls, n),
    ensures
        !lines_use_track(ls, i, i),
{
    assert forall|k: int| 0 <= k < ls.len() implies !crate::problem::line_uses_track(
        #[trigger] ls[k],
        i,
        i,
    ) by {
        let l = ls[k];
        let tracks = crate::problem::line_tracks(l);
        assert forall|t: int| 0 <= t < tracks.len() implies !crate::problem::pair_connects(
            #[trigger] tracks[t],
            i,
            i,
        ) by {
            if t < l.route.len() - 1 {
                assert(tracks[t] == (l.route[t], l.route[t + 1]));
                assert(l.route[t] != l.route[t + 1]);
            } else {
                assert(l.ty == ScheduleType::Circular);
                assert(tracks[t] == (l.route[0], l.route[l.route.len() - 1]));
                assert(l.route[0] != l.route[l.route.len() - 1]);
            }
        }
    }
}

/// A square boolean matrix that is symmetric on the first `n` rows and
/// columns.
pub open spec fn built_sym(b: Seq<Seq<bool>>, n: int) -> bool {
    forall|i: int, j: int| 0 <= i < n && 0 <= j < n ==> #[trigger] b[i][j] == b[j][i]
}

/// A boolean matrix with the cells `(a, b)` and `(b, a)` both set to `v`.
pub open spec fn set_pair(m: Seq<Seq<bool>>, a: int, b: int, v: bool) -> Seq<Seq<bool>> {
    m.update(a, m[a].update(b, v)).update(b, m[b].update(a, v))
}

/// Write one entry of a boolean matrix.
pub fn bmat_set(m: &mut Vec<Vec<bool>>, i: usize, j: usize, v: bool)
    requires
        i < old(m).deep_view().len(),
        j < old(m).deep_view()[i as int].len(),
    ensures
        final(m).deep_view() == old(m).deep_view().update(
            i as int,
            old(m).deep_view()[i as int].update(j as int, v),
        ),
{
    proof {
        lemma_bool_matrix_view(m);
    }
    let ghost before = m.deep_view();
    m[i][j] = v;
    proof {
        lemma_bool_matrix_view(m);
        assert(m.deep_view() =~= before.update(i as int, before[i as int].update(j as int, v)));
    }
}

/// No line has more trains than the whole list together.
pub proof fn lemma_total_trains_element_le(ls: Seq<LineView>, i: int)
    requires
        0 <= i < ls.len(),
    ensures
        ls[i].n <= total_trains(ls),
{
    lemma_total_trains_take(ls, i);
    lemma_total_trains_nonneg(ls.take(i));
    lemma_total_trains_take_le(ls, i + 1);
}

/// A track cost sum is never negative.
pub proof fn lemma_built_cost_sum_nonneg(b: Seq<Seq<bool>>, costs: Seq<Seq<u64>>, n: int)
    ensures
        0 <= built_cost_sum(b, costs, n),
{
    if n >= 0 {
        lemma_built_cost_sum_upto_monotone(b, costs, n, 0, n);
    }
}

/// Bring the one track `(a, b)` of a candidate in line with what its lines
/// require: build it and charge its cost if it is required but absent,
/// retire it and credit its cost if present but no longer required. `None`
/// only when charging the track would push the cost beyond a machine word.
#[verifier::loop_isolation(false)]
pub fn sync_pair(
    built: &mut Vec<Vec<bool>>,
    cost: u64,
    lines: &Vec<TrainLine>,
    problem: &Problem,
    a: usize,
    b: usize,
) -> (r: Option<u64>)
    requires
        problem.wf(),
        lines_wf(lines.deep_view(), problem.n as int),
        a < problem.n,
        b < problem.n,
        a != b,
        bool_matrix_sized(old(built).deep_view(), problem.n as int),
        built_sym(old(built).deep_view(), problem.n as int),
        cost as int == network_cost(
            old(built).deep_view(),
            lines.deep_view(),
            problem.track_costs.deep_view(),
            problem.n as int,
            problem.train_price,
        ),
    ensures
        match r {
            Some(c2) => {
                &&& final(built).deep_view() == set_pair(
                    old(built).deep_view(),
                    a as int,
                    b as int,
                    lines_use_track(lines.deep_view(), a as int, b as int),
                )
                &&& bool_matrix_sized(final(built).deep_view(), problem.n as int)
                &&& built_sym(final(built).deep_view(), problem.n as int)
                &&& c2 as int == network_cost(
                    final(built).deep_view(),
                    lines.deep_view(),
                    problem.track_costs.deep_view(),
                    problem.n as int,
                    problem.train_price,
                )
            },
            None => {
                &&& final(built).deep_view() == old(built).deep_view()
                &&& lines_use_track(lines.deep_view(), a as int, b as int)
                &&& !old(built).deep_view()[a as int][b as int]
                &&& cost + problem.track_costs.deep_view()[a as int][b as int] > u64::MAX
            },
        },
{
    let ghost ls = lines.deep_view();
    let ghost costs = problem.track_costs.deep_view();
    let ghost n_spec = problem.n as int;
    let ghost price = problem.train_price;
    let ghost b0 = built.deep_view();
    let req = lines_use_track_at(lines, a, b);
    let cur = bmat_at(built, a, b);
    if req == cur {
        proof {
            assert(b0[a as int].update(b as int, req) =~= b0[a as int]);
            assert(b0[b as int].update(a as int, req) =~= b0[b as int]);
            assert(set_pair(b0, a as int, b as int, req) =~= b0);
        }
        return Some(cost);
    }
    let c = mat_at(&problem.track_costs, a, b);
    let ghost lo: int = if a < b { a as int } else { b as int };
    let ghost hi: int = if a < b { b as int } else { a as int };
    proof {
        lemma_total_trains_nonneg(ls);
        lemma_mul_nonnegative(total_trains(ls), price as int);
        lemma_built_cost_sum_nonneg(b0, costs, n_spec);
    }
    if req {
        match cost.checked_add(c) {
            None => {
                proof {
                    let b1 = set_pair(b0, a as int, b as int, true);
                    assert forall|r2: int, c2: int|
                        0 <= r2 < n_spec && r2 < c2 < n_spec && !(r2 == lo && c2 == hi)
                        implies b0[r2][c2] == b1[r2][c2] by {}
                    lemma_built_cost_sum_flip(b0, b1, costs, n_spec, lo, hi);
                }
                None
            },
            Some(c2) => {
                bmat_set(built, a, b, true);
                bmat_set(built, b, a, true);
                proof {
                    let b1 = built.deep_view();
                    assert(b1 =~= set_pair(b0, a as int, b as int, true));
                    assert forall|r2: int, c2: int|
                        0 <= r2 < n_spec && r2 < c2 < n_spec && !(r2 == lo && c2 == hi)
                        implies b0[r2][c2] == b1[r2][c2] by {}
                    lemma_built_cost_sum_flip(b0, b1, costs, n_spec, lo, hi);
                    assert(track_pair_cost(b1, costs, lo, hi) == costs[a as int][b as int] as int);
                    assert(track_pair_cost(b0, costs, lo, hi) == 0);
                }
                Some(c2)
            },
        }
    } else {
        bmat_set(built, a, b, false);
        bmat_set(built, b, a, false);
        proof {
            let b1 = built.deep_view();
            assert(b1 =~= set_pair(b0, a as int, b as int, false));
            assert forall|r2: int, c2: int|
                0 <= r2 < n_spec && r2 < c2 < n_spec && !(r2 == lo && c2 == hi)
                implies b0[r2][c2] == b1[r2][c2] by {}
            lemma_built_cost_sum_flip(b0, b1, costs, n_spec, lo, hi);
            assert(track_pair_cost(b0, costs, lo, hi) == costs[a as int][b as int] as int);
            assert(track_pair_cost(b1, costs, lo, hi) == 0);
            lemma_built_cost_sum_nonneg(b1, costs, n_spec);
        }
        Some(cost - c)
    }
}

/// Appending a line adds its trains to the total.
pub proof fn lemma_total_trains_push(s: Seq<LineView>, x: LineView)
    ensures
        total_trains(s.push(x)) == total_trains(s) + x.n,
{
    assert(s.push(x).drop_last() =~= s);
    assert(s.push(x).last() == x);
}

/// Replacing one line swaps its trains for the new line's in the total.
pub proof fn lemma_total_trains_update(s: Seq<LineView>, i: int, x: LineView)
    requires
        0 <= i < s.len(),
    ensures
        total_trains(s.update(i, x)) == total_trains(s) - s[i].n + x.n,
    decreases s.len(),
{
    if i == s.len() - 1 {
        assert(s.update(i, x).drop_last() =~= s.drop_last());
        assert(s.update(i, x).last() == x);
    } else {
        assert(s.update(i, x).drop_last() =~= s.drop_last().update(i, x));
        assert(s.update(i, x).last() == s.last());
        lemma_total_trains_update(s.drop_last(), i, x);
    }
}

/// Appending a copy of a line already in the list changes no track
/// requirement.
pub proof fn lemma_lines_use_track_push_dup(ls: Seq<LineView>, i: int)
    requires
        0 <= i < ls.len(),
    ensures
        forall|a: int, b: int|
            lines_use_track(ls.push(ls[i]), a, b) == #[trigger] lines_use_track(ls, a, b),
{
    let ls2 = ls.push(ls[i]);
    assert forall|a: int, b: int|
        lines_use_track(ls2, a, b) == #[trigger] lines_use_track(ls, a, b) by {
        if lines_use_track(ls2, a, b) {
            let k = choose|k: int|
                0 <= k < ls2.len() && crate::problem::line_uses_track(#[trigger] ls2[k], a, b);
            if k < ls.len() {
                assert(ls2[k] == ls[k]);
            } else {
                assert(ls2[k] == ls[i]);
            }
            assert(lines_use_track(ls, a, b));
        }
        if lines_use_track(ls, a, b) {
            let k = choose|k: int|
                0 <= k < ls.len() && crate::problem::line_uses_track(#[trigger] ls[k], a, b);
            assert(ls2[k] == ls[k]);
            assert(lines_use_track(ls2, a, b));
        }
    }
}

/// Replacing one line with a line that requires the same tracks changes no
/// track requirement.
pub proof fn lemma_lines_use_track_update_same(ls: Seq<LineView>, i: int, x: LineView)
    requires
        0 <= i < ls.len(),
        crate::problem::line_tracks(x) == crate::problem::line_tracks(ls[i]),
    ensures
        forall|a: int, b: int|
            lines_use_track(ls.update(i, x), a, b) == #[trigger] lines_use_track(ls, a, b),
{
    let ls2 = ls.update(i, x);
    assert forall|a: int, b: int|
        lines_use_track(ls2, a, b) == #[trigger] lines_use_track(ls, a, b) by {
        if lines_use_track(ls2, a, b) {
            let k = choose|k: int|
                0 <= k < ls2.len() && crate::problem::line_uses_track(#[trigger] ls2[k], a, b);
            if k == i {
                assert(crate::problem::line_uses_track(ls[i], a, b));
            } else {
                assert(ls2[k] == ls[k]);
            }
            assert(lines_use_track(ls, a, b));
        }
        if lines_use_track(ls, a, b) {
            let k = choose|k: int|
                0 <= k < ls.len() && crate::problem::line_uses_track(#[trigger] ls[k], a, b);
            if k == i {
                assert(crate::problem::line_uses_track(ls2[i], a, b));
            } else {
                assert(ls2[k] == ls[k]);
            }
            assert(lines_use_track(ls2, a, b));
        }
    }
}

/// Requiring a track is symmetric in the two stations.
pub proof fn lemma_lines_use_track_sym(ls: Seq<LineView>, a: int, b: int)
    ensures
        lines_use_track(ls, a, b) == lines_use_track(ls, b, a),
{
    if lines_use_track(ls, a, b) {
        let k = choose|k: int|
            0 <= k < ls.len() && crate::problem::line_uses_track(#[trigger] ls[k], a, b);
        let t = choose|t: int|
            0 <= t < crate::problem::line_tracks(ls[k]).len() && crate::problem::pair_connects(
                #[trigger] crate::problem::line_tracks(ls[k])[t],
                a,
                b,
            );
        assert(crate::problem::pair_connects(crate::problem::line_tracks(ls[k])[t], b, a));
        assert(lines_use_track(ls, b, a));
    }
    if lines_use_track(ls, b, a) {
        let k = choose|k: int|
            0 <= k < ls.len() && crate::problem::line_uses_track(#[trigger] ls[k], b, a);
        let t = choose|t: int|
            0 <= t < crate::problem::line_tracks(ls[k]).len() && crate::problem::pair_connects(
                #[trigger] crate::problem::line_tracks(ls[k])[t],
                b,
                a,
            );
        assert(crate::problem::pair_connects(crate::problem::line_tracks(ls[k])[t], a, b));
        assert(lines_use_track(ls, a, b));
    }
}

/// The built matrix of a well-formed candidate is symmetric.
pub proof fn lemma_wf_built_sym(s: &WorkingSolution, p: Problem)
    requires
        s.wf(p),
    ensures
        built_sym(s.built_tracks.deep_view(), p.n as int),
{
    let built = s.built_tracks.deep_view();
    let ls = s.train_lines.deep_view();
    assert forall|i: int, j: int|
        0 <= i < p.n as int && 0 <= j < p.n as int implies #[trigger] built[i][j] == built[j][i] by {
        lemma_lines_use_track_sym(ls, i, j);
    }
}

/// Replacing one line with a line whose requirement for the pair `(a, b)` is
/// the same leaves the list's requirement for `(a, b)` the same.
pub proof fn lemma_lines_use_track_update_cond(ls: Seq<LineView>, i: int, x: LineView, a: int, b: int)
    requires
        0 <= i < ls.len(),
        crate::problem::line_uses_track(x, a, b) == crate::problem::line_uses_track(ls[i], a, b),
    ensures
        lines_use_track(ls.update(i, x), a, b) == lines_use_track(ls, a, b),
{
    let ls2 = ls.update(i, x);
    if lines_use_track(ls2, a, b) {
        let k = choose|k: int|
            0 <= k < ls2.len() && crate::problem::line_uses_track(#[trigger] ls2[k], a, b);
        if k == i {
            assert(crate::problem::line_uses_track(ls[i], a, b));
        } else {
            assert(ls2[k] == ls[k]);
        }
        assert(lines_use_track(ls, a, b));
    }
    if lines_use_track(ls, a, b) {
        let k = choose|k: int|
            0 <= k < ls.len() && crate::problem::line_uses_track(#[trigger] ls[k], a, b);
        if k == i {
            assert(crate::problem::line_uses_track(ls2[i], a, b));
        } else {
            assert(ls2[k] == ls[k]);
        }
        assert(lines_use_track(ls2, a, b));
    }
}

/// Changing only a line's schedule style can change its requirement only for
/// the wrap pair joining the route's ends: every other pair stays as it was.
pub proof fn lemma_line_toggle_tracks(l: LineView, l2: LineView)
    requires
        l2.route == l.route,
        l.route.len() >= 2,
    ensures
        forall|a: int, b: int|
            !crate::problem::pair_connects(
                (l.route[0], l.route[l.route.len() - 1]),
                a,
                b,
            ) ==> (crate::problem::line_uses_track(l2, a, b) == #[trigger] crate::problem::line_uses_track(
                l,
                a,
                b,
            )),
{
    let m = l.route.len() as int;
    let t1 = crate::problem::line_tracks(l);
    let t2 = crate::problem::line_tracks(l2);
    let wrap = (l.route[0], l.route[m - 1]);
    assert forall|a: int, b: int|
        !crate::problem::pair_connects(wrap, a, b) implies (crate::problem::line_uses_track(
        l2,
        a,
        b,
    ) == #[trigger] crate::problem::line_uses_track(l, a, b)) by {
        if crate::problem::line_uses_track(l2, a, b) {
            let k = choose|k: int|
                0 <= k < t2.len() && crate::problem::pair_connects(#[trigger] t2[k], a, b);
            if k < m - 1 {
                assert(t1[k] == t2[k]);
                assert(crate::problem::line_uses_track(l, a, b));
            } else {
                assert(t2[k] == wrap);
                assert(false);
            }
        }
        if crate::problem::line_uses_track(l, a, b) {
            let k = choose|k: int|
                0 <= k < t1.len() && crate::problem::pair_connects(#[trigger] t1[k], a, b);
            if k < m - 1 {
                assert(t2[k] == t1[k]);
                assert(crate::problem::line_uses_track(l2, a, b));
            } else {
                assert(t1[k] == wrap);
                assert(false);
            }
        }
    }
}

/// Whether the rescan of a removed line's tracks has already brought the
/// pair `(px, py)` in line with the remaining lines, when the scan stands at
/// row `x`, column `y`.
pub open spec fn pair_scanned(px: int, py: int, x: int, y: int) -> bool {
    let lo = if px < py {
        px
    } else {
        py
    };
    let hi = if px < py {
        py
    } else {
        px
    };
    lo < x || (lo == x && hi < y)
}

/// If every line of one list occurs in another, a track the first list
/// requires is required by the second too.
pub proof fn lemma_lines_use_track_shrink(ls2: Seq<LineView>, ls: Seq<LineView>, a: int, b: int)
    requires
        forall|k: int|
            0 <= k < ls2.len() ==> exists|k2: int| 0 <= k2 < ls.len() && #[trigger] ls2[k] == ls[k2],
        lines_use_track(ls2, a, b),
    ensures
        lines_use_track(ls, a, b),
{
    let k = choose|k: int|
        0 <= k < ls2.len() && crate::problem::line_uses_track(#[trigger] ls2[k], a, b);
    let k2 = choose|k2: int| 0 <= k2 < ls.len() && ls2[k] == ls[k2];
    assert(crate::problem::line_uses_track(ls[k2], a, b));
}

/// The station pairs whose track requirement can change when `s` is inserted
/// at position `idx` of the route of `l`: the two adjacencies the new stop
/// creates, the adjacency it breaks, and the old and new wrap pairs when a
/// circular route's end moves.
pub open spec fn insert_touched(l: LineView, idx: int, s: usize, a: int, b: int) -> bool {
    let r = l.route;
    let m = r.len() as int;
    ||| (idx > 0 && pair_connects((r[idx - 1], s), a, b))
    ||| (idx < m && pair_connects((s, r[idx]), a, b))
    ||| (0 < idx && idx < m && pair_connects((r[idx - 1], r[idx]), a, b))
    ||| (l.ty == ScheduleType::Circular && (idx == 0 || idx == m) && pair_connects(
        (r[0], r[m - 1]),
        a,
        b,
    ))
    ||| (l.ty == ScheduleType::Circular && idx == 0 && pair_connects((s, r[m - 1]), a, b))
    ||| (l.ty == ScheduleType::Circular && idx == m && pair_connects((r[0], s), a, b))
}

/// Inserting a stop changes a line's requirement only for the touched pairs.
pub proof fn lemma_insert_stop_tracks(l: LineView, l2: LineView, idx: int, s: usize, a: int, b: int)
    requires
        l.route.len() >= 2,
        0 <= idx <= l.route.len(),
        l2.ty == l.ty,
        l2.route == l.route.insert(idx, s),
        !insert_touched(l, idx, s, a, b),
    ensures
        crate::problem::line_uses_track(l2, a, b) == crate::problem::line_uses_track(l, a, b),
{
    let r = l.route;
    let m = r.len() as int;
    let r2 = l2.route;
    r.insert_ensures(idx, s);
    let t1 = crate::problem::line_tracks(l);
    let t2 = crate::problem::line_tracks(l2);
    if crate::problem::line_uses_track(l2, a, b) {
        let k = choose|k: int|
            0 <= k < t2.len() && crate::problem::pair_connects(#[trigger] t2[k], a, b);
        if k < m {
            assert(t2[k] == (r2[k], r2[k + 1]));
            if k < idx - 1 {
                assert(t1[k] == (r[k], r[k + 1]));
                assert(crate::problem::line_uses_track(l, a, b));
            } else if k == idx - 1 {
                assert(r2[k] == r[k] && r2[k + 1] == s);
                assert(false);
            } else if k == idx {
                assert(r2[k] == s && r2[k + 1] == r[idx]);
                assert(false);
            } else {
                assert(r2[k] == r[k - 1] && r2[k + 1] == r[k]);
                assert(t1[k - 1] == (r[k - 1], r[k]));
                assert(crate::problem::line_uses_track(l, a, b));
            }
        } else {
            assert(l.ty == ScheduleType::Circular);
            assert(t2[k] == (r2[0], r2[m]));
            if idx == 0 {
                assert(r2[0] == s && r2[m] == r[m - 1]);
                assert(false);
            } else if idx == m {
                assert(r2[0] == r[0] && r2[m] == s);
                assert(false);
            } else {
                assert(r2[0] == r[0] && r2[m] == r[m - 1]);
                assert(t1[m - 1] == (r[0], r[m - 1]));
                assert(crate::problem::line_uses_track(l, a, b));
            }
        }
    }
    if crate::problem::line_uses_track(l, a, b) {
        let k = choose|k: int|
            0 <= k < t1.len() && crate::problem::pair_connects(#[trigger] t1[k], a, b);
        if k < m - 1 {
            assert(t1[k] == (r[k], r[k + 1]));
            if k < idx - 1 {
                assert(t2[k] == (r2[k], r2[k + 1]));
                assert(r2[k] == r[k] && r2[k + 1] == r[k + 1]);
                assert(crate::problem::line_uses_track(l2, a, b));
            } else if k == idx - 1 {
                assert(false);
            } else {
                assert(t2[k + 1] == (r2[k + 1], r2[k + 2]));
                assert(r2[k + 1] == r[k] && r2[k + 2] == r[k + 1]);
                assert(crate::problem::line_uses_track(l2, a, b));
            }
        } else {
            assert(l.ty == ScheduleType::Circular);
            assert(t1[k] == (r[0], r[m - 1]));
            assert(!(idx == 0 || idx == m));
            assert(t2[m] == (r2[0], r2[m]));
            assert(r2[0] == r[0] && r2[m] == r[m - 1]);
            assert(crate::problem::line_uses_track(l2, a, b));
        }
    }
}

/// The station pairs whose track requirement can change when the stop at
/// position `idx` is removed from the route of `l`: the two adjacencies it
/// breaks, the one it creates, and the old and new wrap pairs when a
/// circular route's end moves.
pub open spec fn remove_touched(l: LineView, idx: int, a: int, b: int) -> bool {
    let r = l.route;
    let m = r.len() as int;
    ||| (idx > 0 && pair_connects((r[idx - 1], r[idx]), a, b))
    ||| (idx < m - 1 && pair_connects((r[idx], r[idx + 1]), a, b))
    ||| (0 < idx && idx < m - 1 && pair_connects((r[idx - 1], r[idx + 1]), a, b))
    ||| (l.ty == ScheduleType::Circular && (idx == 0 || idx == m - 1) && pair_connects(
        (r[0], r[m - 1]),
        a,
        b,
    ))
    ||| (l.ty == ScheduleType::Circular && idx == 0 && pair_connects((r[1], r[m - 1]), a, b))
    ||| (l.ty == ScheduleType::Circular && idx == m - 1 && pair_connects((r[0], r[m - 2]), a, b))
}

/// Removing a stop changes a line's requirement only for the touched pairs.
pub proof fn lemma_remove_stop_tracks(l: LineView, l2: LineView, idx: int, a: int, b: int)
    requires
        l.route.len() >= 3,
        0 <= idx < l.route.len(),
        l2.ty == l.ty,
        l2.route == l.route.remove(idx),
        !remove_touched(l, idx, a, b),
    ensures
        crate::problem::line_uses_track(l2, a, b) == crate::problem::line_uses_track(l, a, b),
{
    let r = l.route;
    let m = r.len() as int;
    let r2 = l2.route;
    r.remove_ensures(idx);
    let t1 = crate::problem::line_tracks(l);
    let t2 = crate::problem::line_tracks(l2);
    if crate::problem::line_uses_track(l2, a, b) {
        let k = choose|k: int|
            0 <= k < t2.len() && crate::problem::pair_connects(#[trigger] t2[k], a, b);
        if k < m - 2 {
            assert(t2[k] == (r2[k], r2[k + 1]));
            if k < idx - 1 {
                assert(r2[k] == r[k] && r2[k + 1] == r[k + 1]);
                assert(t1[k] == (r[k], r[k + 1]));
                assert(crate::problem::line_uses_track(l, a, b));
            } else if k == idx - 1 {
                assert(r2[k] == r[k] && r2[k + 1] == r[idx + 1]);
                assert(false);
            } else {
                assert(r2[k] == r[k + 1] && r2[k + 1] == r[k + 2]);
                assert(t1[k + 1] == (r[k + 1], r[k + 2]));
                assert(crate::problem::line_uses_track(l, a, b));
            }
        } else {
            assert(l.ty == ScheduleType::Circular);
            assert(t2[k] == (r2[0], r2[m - 2]));
            if idx == 0 {
                assert(r2[0] == r[1] && r2[m - 2] == r[m - 1]);
                assert(false);
            } else if idx == m - 1 {
                assert(r2[0] == r[0] && r2[m - 2] == r[m - 2]);
                assert(false);
            } else {
                assert(r2[0] == r[0] && r2[m - 2] == r[m - 1]);
                assert(t1[m - 1] == (r[0], r[m - 1]));
                assert(crate::problem::line_uses_track(l, a, b));
            }
        }
    }
    if crate::problem::line_uses_track(l, a, b) {
        let k = choose|k: int|
            0 <= k < t1.len() && crate::problem::pair_connects(#[trigger] t1[k], a, b);
        if k < m - 1 {
            assert(t1[k] == (r[k], r[k + 1]));
            if k < idx - 1 {
                assert(t2[k] == (r2[k], r2[k + 1]));
                assert(r2[k] == r[k] && r2[k + 1] == r[k + 1]);
                assert(crate::problem::line_uses_track(l2, a, b));
            } else if k == idx - 1 {
                assert(false);
            } else if k == idx {
                assert(false);
            } else {
                assert(t2[k - 1] == (r2[k - 1], r2[k]));
                assert(r2[k - 1] == r[k] && r2[k] == r[k + 1]);
                assert(crate::problem::line_uses_track(l2, a, b));
            }
        } else {
            assert(l.ty == ScheduleType::Circular);
            assert(t1[k] == (r[0], r[m - 1]));
            assert(!(idx == 0 || idx == m - 1));
            assert(t2[m - 2] == (r2[0], r2[m - 2]));
            assert(r2[0] == r[0] && r2[m - 2] == r[m - 1]);
            assert(crate::problem::line_uses_track(l2, a, b));
        }
    }
}

/// Bring a whole list of tracks in line with what the lines require, one
/// `sync_pair` at a time. `None` when some charge does not fit in a machine
/// word; the candidate is then dropped.
#[verifier::loop_isolation(false)]
fn sync_pair_list(
    built: &mut Vec<Vec<bool>>,
    cost: u64,
    lines: &Vec<TrainLine>,
    problem: &Problem,
    pairs: &Vec<(usize, usize)>,
) -> (r: Option<u64>)
    requires
        problem.wf(),
        lines_wf(lines.deep_view(), problem.n as int),
        forall|j: int|
            0 <= j < pairs@.len() ==> (#[trigger] pairs@[j]).0 < problem.n && pairs@[j].1
                < problem.n && pairs@[j].0 != pairs@[j].1,
        bool_matrix_sized(old(built).deep_view(), problem.n as int),
        built_sym(old(built).deep_view(), problem.n as int),
        cost as int == network_cost(
            old(built).deep_view(),
            lines.deep_view(),
            problem.track_costs.deep_view(),
            problem.n as int,
            problem.train_price,
        ),
    ensures
        r matches Some(c2) ==> {
            &&& bool_matrix_sized(final(built).deep_view(), problem.n as int)
            &&& built_sym(final(built).deep_view(), problem.n as int)
            &&& c2 as int == network_cost(
                final(built).deep_view(),
                lines.deep_view(),
                problem.track_costs.deep_view(),
                problem.n as int,
                problem.train_price,
            )
            &&& forall|px: int, py: int|
                0 <= px < problem.n as int && 0 <= py < problem.n as int
                    ==> #[trigger] final(built).deep_view()[px][py] == (if exists|j: int|
                    0 <= j < pairs@.len() && crate::problem::pair_connects(
                        #[trigger] pairs@[j],
                        px,
                        py,
                    ) {
                    lines_use_track(lines.deep_view(), px, py)
                } else {
                    old(built).deep_view()[px][py]
                })
        },
{
    let ghost ls = lines.deep_view();
    let ghost n_spec = problem.n as int;
    let ghost b0 = old(built).deep_view();
    let mut cost_cur = cost;
    let mut k: usize = 0;
    while k < pairs.len()
        invariant
            k <= pairs@.len(),
            bool_matrix_sized(built.deep_view(), n_spec),
            built_sym(built.deep_view(), n_spec),
            cost_cur as int == network_cost(
                built.deep_view(),
                ls,
                problem.track_costs.deep_view(),
                n_spec,
                problem.train_price,
            ),
            forall|px: int, py: int|
                0 <= px < n_spec && 0 <= py < n_spec ==> #[trigger] built.deep_view()[px][py] == (
                if exists|j: int|
                    0 <= j < k && crate::problem::pair_connects(#[trigger] pairs@[j], px, py) {
                    lines_use_track(ls, px, py)
                } else {
                    b0[px][py]
                }),
        decreases pairs@.len() - k,
    {
        let ghost b_before = built.deep_view();
        let p = pairs[k];
        let c2 = match sync_pair(built, cost_cur, lines, problem, p.0, p.1) {
            Some(c) => c,
            None => { return None },
        };
        cost_cur = c2;
        proof {
            assert forall|px: int, py: int|
                0 <= px < n_spec && 0 <= py < n_spec implies #[trigger] built.deep_view()[px][py]
                == (if exists|j: int|
                0 <= j < k + 1 && crate::problem::pair_connects(#[trigger] pairs@[j], px, py) {
                lines_use_track(ls, px, py)
            } else {
                b0[px][py]
            }) by {
                if px == p.0 as int && py == p.1 as int {
                    assert(crate::problem::pair_connects(pairs@[k as int], px, py));
                } else if px == p.1 as int && py == p.0 as int {
                    assert(crate::problem::pair_connects(pairs@[k as int], px, py));
                    lemma_lines_use_track_sym(ls, px, py);
                } else {
                    assert(built.deep_view()[px][py] == b_before[px][py]);
                    assert(!crate::problem::pair_connects(pairs@[k as int], px, py));
                    if exists|j: int|
                        0 <= j < k && crate::problem::pair_connects(#[trigger] pairs@[j], px, py) {
                        assert(exists|j: int|
                            0 <= j < k + 1 && crate::problem::pair_connects(
                                #[trigger] pairs@[j],
                                px,
                                py,
                            ));
                    } else {
                        if exists|j: int|
                            0 <= j < k + 1 && crate::problem::pair_connects(
                                #[trigger] pairs@[j],
                                px,
                                py,
                            ) {
                            let j = choose|j: int|
                                0 <= j < k + 1 && crate::problem::pair_connects(
                                    #[trigger] pairs@[j],
                                    px,
                                    py,
                                );
                            assert(j == k);
                            assert(false);
                        }
                    }
                }
            }
        }
        k = k + 1;
    }
    Some(cost_cur)
}

/// `w`'s lines are `base`'s with one line duplicated.
pub open spec fn is_duplicate_move(w: WorkingSolution, base: WorkingSolution) -> bool {
    let ls = base.train_lines.deep_view();
    exists|i: int|
        0 <= i < ls.len() && w.train_lines.deep_view() == ls.push(#[trigger] ls[i])
}

/// `w`'s lines are `base`'s with one line removed (the last line filling the
/// removed slot), applicable only while another line remains.
pub open spec fn is_remove_line_move(w: WorkingSolution, base: WorkingSolution) -> bool {
    let ls = base.train_lines.deep_view();
    ls.len() > 1 && exists|i: int|
        #![trigger ls.update(i, ls.last())]
        0 <= i < ls.len() && w.train_lines.deep_view() == ls.update(i, ls.last()).drop_last()
}

/// `w`'s lines are `base`'s with one station inserted somewhere into one
/// route.
pub open spec fn is_insert_stop_move(w: WorkingSolution, base: WorkingSolution) -> bool {
    let ls = base.train_lines.deep_view();
    exists|i: int, s: usize, idx: int|
        0 <= i < ls.len() && 0 <= idx <= ls[i].route.len() && w.train_lines.deep_view()
            == ls.update(
            i,
            LineView { route: #[trigger] ls[i].route.insert(idx, s), ty: ls[i].ty, n: ls[i].n },
        )
}

/// `w`'s lines are `base`'s with one stop removed from one route that had at
/// least three.
pub open spec fn is_remove_stop_move(w: WorkingSolution, base: WorkingSolution) -> bool {
    let ls = base.train_lines.deep_view();
    exists|i: int, idx: int|
        0 <= i < ls.len() && ls[i].route.len() >= 3 && 0 <= idx < ls[i].route.len()
            && w.train_lines.deep_view() == ls.update(
            i,
            LineView { route: #[trigger] ls[i].route.remove(idx), ty: ls[i].ty, n: ls[i].n },
        )
}

/// `w`'s lines are `base`'s with one line's train count moved by one (a
/// decrease only from a line with more than one train).
pub open spec fn is_train_count_move(w: WorkingSolution, base: WorkingSolution) -> bool {
    let ls = base.train_lines.deep_view();
    exists|i: int|
        #![trigger ls[i]]
        0 <= i < ls.len() && (w.train_lines.deep_view() == ls.update(
            i,
            LineView { route: ls[i].route, ty: ls[i].ty, n: (ls[i].n + 1) as usize },
        ) && ls[i].n < usize::MAX || (ls[i].n > 1 && w.train_lines.deep_view() == ls.update(
            i,
            LineView { route: ls[i].route, ty: ls[i].ty, n: (ls[i].n - 1) as usize },
        )))
}

/// `w`'s lines are `base`'s with one line's schedule style toggled.
pub open spec fn is_change_type_move(w: WorkingSolution, base: WorkingSolution) -> bool {
    let ls = base.train_lines.deep_view();
    exists|i: int|
        #![trigger ls[i]]
        0 <= i < ls.len() && w.train_lines.deep_view() == ls.update(
            i,
            LineView {
                route: ls[i].route,
                ty: if ls[i].ty == ScheduleType::Circular {
                    ScheduleType::Bidirectional
                } else {
                    ScheduleType::Circular
                },
                n: ls[i].n,
            },
        )
}

/// The batch holds a candidate with exactly this line list.
pub open spec fn batch_has(batch: Seq<WorkingSolution>, lines2: Seq<LineView>) -> bool {
    exists|k: int|
        0 <= k < batch.len() && (#[trigger] batch[k]).train_lines.deep_view() == lines2
}

/// A batch keeps everything it holds when a candidate is appended.
proof fn lemma_batch_has_push(batch: Seq<WorkingSolution>, w: WorkingSolution, lines2: Seq<LineView>)
    requires
        batch_has(batch, lines2),
    ensures
        batch_has(batch.push(w), lines2),
{
    let k = choose|k: int|
        0 <= k < batch.len() && (#[trigger] batch[k]).train_lines.deep_view() == lines2;
    assert(batch.push(w)[k] == batch[k]);
}

/// Station `s` can be inserted into line `i`: it exists and does not visit
/// `s` yet.
pub open spec fn insertable(ls: Seq<LineView>, i: int, s: usize, n: int) -> bool {
    &&& 0 <= i < ls.len()
    &&& s < n
    &&& forall|k: int| 0 <= k < ls[i].route.len() ==> ls[i].route[k] != s
}

/// The batch holds every duplication whose cost fits a machine word.
pub open spec fn proposes_every_duplicate(
    batch: Seq<WorkingSolution>,
    base: WorkingSolution,
    p: Problem,
) -> bool {
    let ls = base.train_lines.deep_view();
    forall|i: int|
        #![trigger ls[i]]
        0 <= i < ls.len() && base.cost + ls[i].n * p.train_price <= u64::MAX ==> batch_has(
            batch,
            ls.push(ls[i]),
        )
}

/// The batch holds every line removal, when more than one line runs.
pub open spec fn proposes_every_line_removal(
    batch: Seq<WorkingSolution>,
    base: WorkingSolution,
    p: Problem,
) -> bool {
    let ls = base.train_lines.deep_view();
    ls.len() > 1 ==> forall|i: int|
        #![trigger ls.update(i, ls.last())]
        0 <= i < ls.len() ==> batch_has(batch, ls.update(i, ls.last()).drop_last())
}

/// For every line and absent station, the batch holds the insertion at some
/// position, whenever the resulting network's cost fits a machine word.
pub open spec fn proposes_every_insertion(
    batch: Seq<WorkingSolution>,
    base: WorkingSolution,
    p: Problem,
) -> bool {
    let ls = base.train_lines.deep_view();
    forall|i: int, s: usize|
        #![trigger insertable(ls, i, s, p.n as int)]
        insertable(ls, i, s, p.n as int) && ls[i].route.len() < usize::MAX ==> exists|idx: int|
            0 <= idx <= ls[i].route.len() && (lines_cost(
                ls.update(
                    i,
                    LineView {
                        route: #[trigger] ls[i].route.insert(idx, s),
                        ty: ls[i].ty,
                        n: ls[i].n,
                    },
                ),
                p.track_costs.deep_view(),
                p.n as int,
                p.train_price,
            ) <= u64::MAX ==> batch_has(
                batch,
                ls.update(
                    i,
                    LineView { route: ls[i].route.insert(idx, s), ty: ls[i].ty, n: ls[i].n },
                ),
            ))
}

/// The batch holds every stop removal from a line keeping two stops,
/// whenever the resulting network's cost fits a machine word.
pub open spec fn proposes_every_stop_removal(
    batch: Seq<WorkingSolution>,
    base: WorkingSolution,
    p: Problem,
) -> bool {
    let ls = base.train_lines.deep_view();
    forall|i: int, idx: int|
        #![trigger ls[i].route.remove(idx)]
        0 <= i < ls.len() && ls[i].route.len() >= 3 && 0 <= idx < ls[i].route.len() && lines_cost(
            ls.update(
                i,
                LineView { route: ls[i].route.remove(idx), ty: ls[i].ty, n: ls[i].n },
            ),
            p.track_costs.deep_view(),
            p.n as int,
            p.train_price,
        ) <= u64::MAX ==> batch_has(
            batch,
            ls.update(i, LineView { route: ls[i].route.remove(idx), ty: ls[i].ty, n: ls[i].n }),
        )
}

/// For every line, the batch holds the train increase when count and cost
/// fit a machine word, and the train decrease when more than one train runs.
pub open spec fn proposes_every_train_change(
    batch: Seq<WorkingSolution>,
    base: WorkingSolution,
    p: Problem,
) -> bool {
    let ls = base.train_lines.deep_view();
    forall|i: int|
        #![trigger ls[i]]
        0 <= i < ls.len() ==> {
            &&& (ls[i].n < usize::MAX && base.cost + p.train_price <= u64::MAX ==> batch_has(
                batch,
                ls.update(
                    i,
                    LineView { route: ls[i].route, ty: ls[i].ty, n: (ls[i].n + 1) as usize },
                ),
            ))
            &&& (ls[i].n > 1 ==> batch_has(
                batch,
                ls.update(
                    i,
                    LineView { route: ls[i].route, ty: ls[i].ty, n: (ls[i].n - 1) as usize },
                ),
            ))
        }
}

/// The batch holds every schedule style toggle whose resulting network cost
/// fits a machine word.
pub open spec fn proposes_every_toggle(
    batch: Seq<WorkingSolution>,
    base: WorkingSolution,
    p: Problem,
) -> bool {
    let ls = base.train_lines.deep_view();
    forall|i: int|
        #![trigger ls[i]]
        0 <= i < ls.len() && lines_cost(
            ls.update(i, base.toggled_line(i)),
            p.track_costs.deep_view(),
            p.n as int,
            p.train_price,
        ) <= u64::MAX ==> batch_has(batch, ls.update(i, base.toggled_line(i)))
}

/// Appending a candidate loses no duplication the batch already proposes.
proof fn lemma_dup_complete_push(
    batch: Seq<WorkingSolution>,
    w: WorkingSolution,
    base: WorkingSolution,
    p: Problem,
)
    requires
        proposes_every_duplicate(batch, base, p),
    ensures
        proposes_every_duplicate(batch.push(w), base, p),
{
    let ls = base.train_lines.deep_view();
    assert forall|i: int|
        0 <= i < ls.len() && base.cost + (#[trigger] ls[i]).n * p.train_price <= u64::MAX
        implies batch_has(batch.push(w), ls.push(ls[i])) by {
        lemma_batch_has_push(batch, w, ls.push(ls[i]));
    }
}

/// Appending a candidate loses no line removal the batch already proposes.
proof fn lemma_removal_complete_push(
    batch: Seq<WorkingSolution>,
    w: WorkingSolution,
    base: WorkingSolution,
    p: Problem,
)
    requires
        proposes_every_line_removal(batch, base, p),
    ensures
        proposes_every_line_removal(batch.push(w), base, p),
{
    let ls = base.train_lines.deep_view();
    if ls.len() > 1 {
        assert forall|i: int| 0 <= i < ls.len() implies batch_has(
            batch.push(w),
            (#[trigger] ls.update(i, ls.last())).drop_last(),
        ) by {
            lemma_batch_has_push(batch, w, ls.update(i, ls.last()).drop_last());
        }
    }
}

/// Appending a candidate loses no insertion the batch already proposes.
proof fn lemma_insertion_complete_push(
    batch: Seq<WorkingSolution>,
    w: WorkingSolution,
    base: WorkingSolution,
    p: Problem,
)
    requires
        proposes_every_insertion(batch, base, p),
    ensures
        proposes_every_insertion(batch.push(w), base, p),
{
    let ls = base.train_lines.deep_view();
    assert forall|i: int, s: usize|
        #[trigger] insertable(ls, i, s, p.n as int) && ls[i].route.len() < usize::MAX
        implies exists|idx: int|
        0 <= idx <= ls[i].route.len() && (lines_cost(
            ls.update(
                i,
                LineView {
                    route: #[trigger] ls[i].route.insert(idx, s),
                    ty: ls[i].ty,
                    n: ls[i].n,
                },
            ),
            p.track_costs.deep_view(),
            p.n as int,
            p.train_price,
        ) <= u64::MAX ==> batch_has(
            batch.push(w),
            ls.update(
                i,
                LineView { route: ls[i].route.insert(idx, s), ty: ls[i].ty, n: ls[i].n },
            ),
        )) by {
        let idx = choose|idx: int|
            0 <= idx <= ls[i].route.len() && (lines_cost(
                ls.update(
                    i,
                    LineView {
                        route: #[trigger] ls[i].route.insert(idx, s),
                        ty: ls[i].ty,
                        n: ls[i].n,
                    },
                ),
                p.track_costs.deep_view(),
                p.n as int,
                p.train_price,
            ) <= u64::MAX ==> batch_has(
                batch,
                ls.update(
                    i,
                    LineView { route: ls[i].route.insert(idx, s), ty: ls[i].ty, n: ls[i].n },
                ),
            ));
        let nl = LineView { route: ls[i].route.insert(idx, s), ty: ls[i].ty, n: ls[i].n };
        if lines_cost(ls.update(i, nl), p.track_costs.deep_view(), p.n as int, p.train_price)
            <= u64::MAX {
            lemma_batch_has_push(batch, w, ls.update(i, nl));
        }
    }
}

/// Appending a candidate loses no stop removal the batch already proposes.
proof fn lemma_stop_removal_complete_push(
    batch: Seq<WorkingSolution>,
    w: WorkingSolution,
    base: WorkingSolution,
    p: Problem,
)
    requires
        proposes_every_stop_removal(batch, base, p),
    ensures
        proposes_every_stop_removal(batch.push(w), base, p),
{
    let ls = base.train_lines.deep_view();
    assert forall|i: int, idx: int|
        0 <= i < ls.len() && ls[i].route.len() >= 3 && 0 <= idx < ls[i].route.len() && lines_cost(
            ls.update(
                i,
                LineView { route: #[trigger] ls[i].route.remove(idx), ty: ls[i].ty, n: ls[i].n },
            ),
            p.track_costs.deep_view(),
            p.n as int,
            p.train_price,
        ) <= u64::MAX implies batch_has(
        batch.push(w),
        ls.update(i, LineView { route: ls[i].route.remove(idx), ty: ls[i].ty, n: ls[i].n }),
    ) by {
        lemma_batch_has_push(
            batch,
            w,
            ls.update(i, LineView { route: ls[i].route.remove(idx), ty: ls[i].ty, n: ls[i].n }),
        );
    }
}

/// Appending a candidate loses no train count change the batch already
/// proposes.
proof fn lemma_train_change_complete_push(
    batch: Seq<WorkingSolution>,
    w: WorkingSolution,
    base: WorkingSolution,
    p: Problem,
)
    requires
        proposes_every_train_change(batch, base, p),
    ensures
        proposes_every_train_change(batch.push(w), base, p),
{
    let ls = base.train_lines.deep_view();
    assert forall|i: int| 0 <= i < ls.len() implies {
        &&& ((#[trigger] ls[i]).n < usize::MAX && base.cost + p.train_price <= u64::MAX
            ==> batch_has(
            batch.push(w),
            ls.update(
                i,
                LineView { route: ls[i].route, ty: ls[i].ty, n: (ls[i].n + 1) as usize },
            ),
        ))
        &&& (ls[i].n > 1 ==> batch_has(
            batch.push(w),
            ls.update(
                i,
                LineView { route: ls[i].route, ty: ls[i].ty, n: (ls[i].n - 1) as usize },
            ),
        ))
    } by {
        if ls[i].n < usize::MAX && base.cost + p.train_price <= u64::MAX {
            lemma_batch_has_push(
                batch,
                w,
                ls.update(
                    i,
                    LineView { route: ls[i].route, ty: ls[i].ty, n: (ls[i].n + 1) as usize },
                ),
            );
        }
        if ls[i].n > 1 {
            lemma_batch_has_push(
                batch,
                w,
                ls.update(
                    i,
                    LineView { route: ls[i].route, ty: ls[i].ty, n: (ls[i].n - 1) as usize },
                ),
            );
        }
    }
}

/// Appending a candidate loses no schedule toggle the batch already proposes.
proof fn lemma_toggle_complete_push(
    batch: Seq<WorkingSolution>,
    w: WorkingSolution,
    base: WorkingSolution,
    p: Problem,
)
    requires
        proposes_every_toggle(batch, base, p),
    ensures
        proposes_every_toggle(batch.push(w), base, p),
{
    let ls = base.train_lines.deep_view();
    assert forall|i: int|
        0 <= i < ls.len() && lines_cost(
            ls.update(i, base.toggled_line(i)),
            p.track_costs.deep_view(),
            p.n as int,
            p.train_price,
        ) <= u64::MAX implies batch_has(
        batch.push(w),
        ls.update(i, base.toggled_line(i)),
    ) by {
        assert(ls[i] == ls[i]);
        lemma_batch_has_push(batch, w, ls.update(i, base.toggled_line(i)));
    }
}

/// The insertions the batch proposes so far, walking lines and stations in
/// order: every applicable site before line `ci`, station `cs`.
spec fn proposes_insertions_upto(
    batch: Seq<WorkingSolution>,
    base: WorkingSolution,
    p: Problem,
    ci: int,
    cs: int,
) -> bool {
    let ls = base.train_lines.deep_view();
    forall|i: int, s: usize|
        #![trigger insertable(ls, i, s, p.n as int)]
        insertable(ls, i, s, p.n as int) && ls[i].route.len() < usize::MAX && (i < ci || (i == ci
            && (s as int) < cs)) ==> exists|idx: int|
            0 <= idx <= ls[i].route.len() && (lines_cost(
                ls.update(
                    i,
                    LineView {
                        route: #[trigger] ls[i].route.insert(idx, s),
                        ty: ls[i].ty,
                        n: ls[i].n,
                    },
                ),
                p.track_costs.deep_view(),
                p.n as int,
                p.train_price,
            ) <= u64::MAX ==> batch_has(
                batch,
                ls.update(
                    i,
                    LineView { route: ls[i].route.insert(idx, s), ty: ls[i].ty, n: ls[i].n },
                ),
            ))
}

/// Appending a candidate loses none of the insertions proposed so far.
proof fn lemma_insertions_upto_push(
    batch: Seq<WorkingSolution>,
    w: WorkingSolution,
    base: WorkingSolution,
    p: Problem,
    ci: int,
    cs: int,
)
    requires
        proposes_insertions_upto(batch, base, p, ci, cs),
    ensures
        proposes_insertions_upto(batch.push(w), base, p, ci, cs),
{
    let ls = base.train_lines.deep_view();
    assert forall|i: int, s: usize|
        #[trigger] insertable(ls, i, s, p.n as int) && ls[i].route.len() < usize::MAX && (i < ci
            || (i == ci && (s as int) < cs)) implies exists|idx: int|
        0 <= idx <= ls[i].route.len() && (lines_cost(
            ls.update(
                i,
                LineView {
                    route: #[trigger] ls[i].route.insert(idx, s),
                    ty: ls[i].ty,
                    n: ls[i].n,
                },
            ),
            p.track_costs.deep_view(),
            p.n as int,
            p.train_price,
        ) <= u64::MAX ==> batch_has(
            batch.push(w),
            ls.update(
                i,
                LineView { route: ls[i].route.insert(idx, s), ty: ls[i].ty, n: ls[i].n },
            ),
        )) by {
        let idx = choose|idx: int|
            0 <= idx <= ls[i].route.len() && (lines_cost(
                ls.update(
                    i,
                    LineView {
                        route: #[trigger] ls[i].route.insert(idx, s),
                        ty: ls[i].ty,
                        n: ls[i].n,
                    },
                ),
                p.track_costs.deep_view(),
                p.n as int,
                p.train_price,
            ) <= u64::MAX ==> batch_has(
                batch,
                ls.update(
                    i,
                    LineView { route: ls[i].route.insert(idx, s), ty: ls[i].ty, n: ls[i].n },
                ),
            ));
        let nl = LineView { route: ls[i].route.insert(idx, s), ty: ls[i].ty, n: ls[i].n };
        if lines_cost(ls.update(i, nl), p.track_costs.deep_view(), p.n as int, p.train_price)
            <= u64::MAX {
            lemma_batch_has_push(batch, w, ls.update(i, nl));
        }
    }
}

/// The stop removals the batch proposes so far, walking lines and positions
/// in order: every applicable site before line `ci`, position `cidx`.
spec fn proposes_stop_removals_upto(
    batch: Seq<WorkingSolution>,
    base: WorkingSolution,
    p: Problem,
    ci: int,
    cidx: int,
) -> bool {
    let ls = base.train_lines.deep_view();
    forall|i: int, idx: int|
        #![trigger ls[i].route.remove(idx)]
        0 <= i < ls.len() && ls[i].route.len() >= 3 && 0 <= idx < ls[i].route.len() && (i < ci || (
        i == ci && idx < cidx)) && lines_cost(
            ls.update(
                i,
                LineView { route: ls[i].route.remove(idx), ty: ls[i].ty, n: ls[i].n },
            ),
            p.track_costs.deep_view(),
            p.n as int,
            p.train_price,
        ) <= u64::MAX ==> batch_has(
            batch,
            ls.update(i, LineView { route: ls[i].route.remove(idx), ty: ls[i].ty, n: ls[i].n }),
        )
}

/// Appending a candidate loses none of the stop removals proposed so far.
proof fn lemma_stop_removals_upto_push(
    batch: Seq<WorkingSolution>,
    w: WorkingSolution,
    base: WorkingSolution,
    p: Problem,
    ci: int,
    cidx: int,
)
    requires
        proposes_stop_removals_upto(batch, base, p, ci, cidx),
    ensures
        proposes_stop_removals_upto(batch.push(w), base, p, ci, cidx),
{
    let ls = base.train_lines.deep_view();
    assert forall|i: int, idx: int|
        0 <= i < ls.len() && ls[i].route.len() >= 3 && 0 <= idx < ls[i].route.len() && (i < ci || (
        i == ci && idx < cidx)) && lines_cost(
            ls.update(
                i,
                LineView { route: #[trigger] ls[i].route.remove(idx), ty: ls[i].ty, n: ls[i].n },
            ),
            p.track_costs.deep_view(),
            p.n as int,
            p.train_price,
        ) <= u64::MAX implies batch_has(
        batch.push(w),
        ls.update(i, LineView { route: ls[i].route.remove(idx), ty: ls[i].ty, n: ls[i].n }),
    ) by {
        lemma_batch_has_push(
            batch,
            w,
            ls.update(i, LineView { route: ls[i].route.remove(idx), ty: ls[i].ty, n: ls[i].n }),
        );
    }
}

/// The train count changes the batch proposes so far: both directions for
/// every line before `bound`.
spec fn proposes_train_changes_upto(
    batch: Seq<WorkingSolution>,
    base: WorkingSolution,
    p: Problem,
    bound: int,
) -> bool {
    let ls = base.train_lines.deep_view();
    forall|m: int|
        #![trigger ls[m]]
        0 <= m < bound ==> {
            &&& (ls[m].n < usize::MAX && base.cost + p.train_price <= u64::MAX ==> batch_has(
                batch,
                ls.update(
                    m,
                    LineView { route: ls[m].route, ty: ls[m].ty, n: (ls[m].n + 1) as usize },
                ),
            ))
            &&& (ls[m].n > 1 ==> batch_has(
                batch,
                ls.update(
                    m,
                    LineView { route: ls[m].route, ty: ls[m].ty, n: (ls[m].n - 1) as usize },
                ),
            ))
        }
}

/// Appending a candidate loses none of the train count changes proposed so
/// far.
proof fn lemma_train_changes_upto_push(
    batch: Seq<WorkingSolution>,
    w: WorkingSolution,
    base: WorkingSolution,
    p: Problem,
    bound: int,
)
    requires
        proposes_train_changes_upto(batch, base, p, bound),
    ensures
        proposes_train_changes_upto(batch.push(w), base, p, bound),
{
    let ls = base.train_lines.deep_view();
    assert forall|m: int| 0 <= m < bound implies {
        &&& ((#[trigger] ls[m]).n < usize::MAX && base.cost + p.train_price <= u64::MAX
            ==> batch_has(
            batch.push(w),
            ls.update(
                m,
                LineView { route: ls[m].route, ty: ls[m].ty, n: (ls[m].n + 1) as usize },
            ),
        ))
        &&& (ls[m].n > 1 ==> batch_has(
            batch.push(w),
            ls.update(
                m,
                LineView { route: ls[m].route, ty: ls[m].ty, n: (ls[m].n - 1) as usize },
            ),
        ))
    } by {
        if ls[m].n < usize::MAX && base.cost + p.train_price <= u64::MAX {
            lemma_batch_has_push(
                batch,
                w,
                ls.update(
                    m,
                    LineView { route: ls[m].route, ty: ls[m].ty, n: (ls[m].n + 1) as usize },
                ),
            );
        }
        if ls[m].n > 1 {
            lemma_batch_has_push(
                batch,
                w,
                ls.update(
                    m,
                    LineView { route: ls[m].route, ty: ls[m].ty, n: (ls[m].n - 1) as usize },
                ),
            );
        }
    }
}

/// One insertion site is settled: either its candidate at the drawn position
/// is in the batch, or the move at that position does not fit.
proof fn lemma_insertion_site_done(
    batch: Seq<WorkingSolution>,
    base: WorkingSolution,
    p: Problem,
    i: int,
    s: usize,
    idx: int,
)
    requires
        proposes_insertions_upto(batch, base, p, i, s as int),
        0 <= i < base.train_lines.deep_view().len(),
        0 <= idx <= base.train_lines.deep_view()[i].route.len(),
        lines_cost(
            base.train_lines.deep_view().update(
                i,
                LineView {
                    route: base.train_lines.deep_view()[i].route.insert(idx, s),
                    ty: base.train_lines.deep_view()[i].ty,
                    n: base.train_lines.deep_view()[i].n,
                },
            ),
            p.track_costs.deep_view(),
            p.n as int,
            p.train_price,
        ) <= u64::MAX ==> batch_has(
            batch,
            base.train_lines.deep_view().update(
                i,
                LineView {
                    route: base.train_lines.deep_view()[i].route.insert(idx, s),
                    ty: base.train_lines.deep_view()[i].ty,
                    n: base.train_lines.deep_view()[i].n,
                },
            ),
        ),
    ensures
        proposes_insertions_upto(batch, base, p, i, s as int + 1),
{
    let ls = base.train_lines.deep_view();
    assert forall|i2: int, s2: usize|
        #[trigger] insertable(ls, i2, s2, p.n as int) && ls[i2].route.len() < usize::MAX && (i2 < i
            || (i2 == i && (s2 as int) < s as int + 1)) implies exists|idx2: int|
        0 <= idx2 <= ls[i2].route.len() && (lines_cost(
            ls.update(
                i2,
                LineView {
                    route: #[trigger] ls[i2].route.insert(idx2, s2),
                    ty: ls[i2].ty,
                    n: ls[i2].n,
                },
            ),
            p.track_costs.deep_view(),
            p.n as int,
            p.train_price,
        ) <= u64::MAX ==> batch_has(
            batch,
            ls.update(
                i2,
                LineView { route: ls[i2].route.insert(idx2, s2), ty: ls[i2].ty, n: ls[i2].n },
            ),
        )) by {
        if i2 == i && s2 == s {
            assert(0 <= idx <= ls[i].route.len() && (lines_cost(
                ls.update(
                    i,
                    LineView { route: ls[i].route.insert(idx, s), ty: ls[i].ty, n: ls[i].n },
                ),
                p.track_costs.deep_view(),
                p.n as int,
                p.train_price,
            ) <= u64::MAX ==> batch_has(
                batch,
                ls.update(
                    i,
                    LineView { route: ls[i].route.insert(idx, s), ty: ls[i].ty, n: ls[i].n },
                ),
            )));
        }
    }
}

/// One insertion site is settled because it is not applicable.
proof fn lemma_insertion_site_vacuous(
    batch: Seq<WorkingSolution>,
    base: WorkingSolution,
    p: Problem,
    i: int,
    s: usize,
)
    requires
        proposes_insertions_upto(batch, base, p, i, s as int),
        !(insertable(base.train_lines.deep_view(), i, s, p.n as int)
            && base.train_lines.deep_view()[i].route.len() < usize::MAX),
    ensures
        proposes_insertions_upto(batch, base, p, i, s as int + 1),
{
}

/// A whole line's insertion sites are settled once every station has been
/// walked.
proof fn lemma_insertions_line_done(
    batch: Seq<WorkingSolution>,
    base: WorkingSolution,
    p: Problem,
    i: int,
)
    requires
        proposes_insertions_upto(batch, base, p, i, p.n as int),
    ensures
        proposes_insertions_upto(batch, base, p, i + 1, 0),
{
}

/// Every insertion site is settled once every line has been walked.
proof fn lemma_insertions_all_done(
    batch: Seq<WorkingSolution>,
    base: WorkingSolution,
    p: Problem,
    len: int,
)
    requires
        proposes_insertions_upto(batch, base, p, len, 0),
        base.train_lines.deep_view().len() == len,
    ensures
        proposes_every_insertion(batch, base, p),
{
}

/// One stop-removal site is settled: either its candidate is in the batch,
/// or the move does not fit.
proof fn lemma_stop_removal_site_done(
    batch: Seq<WorkingSolution>,
    base: WorkingSolution,
    p: Problem,
    i: int,
    idx: int,
)
    requires
        proposes_stop_removals_upto(batch, base, p, i, idx),
        lines_cost(
            base.train_lines.deep_view().update(
                i,
                LineView {
                    route: base.train_lines.deep_view()[i].route.remove(idx),
                    ty: base.train_lines.deep_view()[i].ty,
                    n: base.train_lines.deep_view()[i].n,
                },
            ),
            p.track_costs.deep_view(),
            p.n as int,
            p.train_price,
        ) <= u64::MAX ==> batch_has(
            batch,
            base.train_lines.deep_view().update(
                i,
                LineView {
                    route: base.train_lines.deep_view()[i].route.remove(idx),
                    ty: base.train_lines.deep_view()[i].ty,
                    n: base.train_lines.deep_view()[i].n,
                },
            ),
        ),
    ensures
        proposes_stop_removals_upto(batch, base, p, i, idx + 1),
{
}

/// A whole line's stop-removal sites are settled: every position has been
/// walked, or the line is too short to lose a stop.
proof fn lemma_stop_removal_line_done(
    batch: Seq<WorkingSolution>,
    base: WorkingSolution,
    p: Problem,
    i: int,
    cidx: int,
)
    requires
        proposes_stop_removals_upto(batch, base, p, i, cidx),
        cidx >= base.train_lines.deep_view()[i].route.len()
            || base.train_lines.deep_view()[i].route.len() < 3,
    ensures
        proposes_stop_removals_upto(batch, base, p, i + 1, 0),
{
}

/// Every stop-removal site is settled once every line has been walked.
proof fn lemma_stop_removals_all_done(
    batch: Seq<WorkingSolution>,
    base: WorkingSolution,
    p: Problem,
    len: int,
)
    requires
        proposes_stop_removals_upto(batch, base, p, len, 0),
        base.train_lines.deep_view().len() == len,
    ensures
        proposes_every_stop_removal(batch, base, p),
{
}

/// `w` is `base` with exactly one of the six move families applied once.
pub open spec fn neighbour_move(w: WorkingSolution, base: WorkingSolution) -> bool {
    ||| is_duplicate_move(w, base)
    ||| is_remove_line_move(w, base)
    ||| is_insert_stop_move(w, base)
    ||| is_remove_stop_move(w, base)
    ||| is_train_count_move(w, base)
    ||| is_change_type_move(w, base)
}

/// Two candidates describe the same network: same lines in the same order,
/// same built tracks, same cost.
pub open spec fn same_network(a: WorkingSolution, b: WorkingSolution) -> bool {
    &&& a.train_lines.deep_view() == b.train_lines.deep_view()
    &&& a.built_tracks.deep_view() == b.built_tracks.deep_view()
    &&& a.cost == b.cost
}

/// A possible partial solution that the search is currently considering.
#[derive(Debug, PartialEq, Eq)]
pub struct WorkingSolution {
    /// The train lines of this candidate network.
    pub train_lines: Vec<TrainLine>,
    /// The candidate's cost, maintained incrementally move by move.
    pub cost: u64,
    /// Which tracks the candidate's lines require, kept consistent with the
    /// line list at every move.
    pub built_tracks: Vec<Vec<bool>>,
}

impl WorkingSolution {
    /// The invariant every candidate preserves: well-formed lines, a built
    /// matrix holding exactly the tracks some line requires, and a cached
    /// cost equal to the cost formula.
    pub open spec fn wf(&self, p: Problem) -> bool {
        let ls = self.train_lines.deep_view();
        let built = self.built_tracks.deep_view();
        &&& ls.len() >= 1
        &&& lines_wf(ls, p.n as int)
        &&& bool_matrix_sized(built, p.n as int)
        &&& forall|i: int, j: int|
            0 <= i < p.n as int && 0 <= j < p.n as int ==> #[trigger] built[i][j]
                == lines_use_track(ls, i, j)
        &&& self.cost as int == network_cost(
            built,
            ls,
            p.track_costs.deep_view(),
            p.n as int,
            p.train_price,
        )
    }

    /// The tracked cost of a well-formed candidate equals the from-scratch
    /// cost of its line list: the incremental bookkeeping loses nothing.
    pub proof fn lemma_cost_exact(&self, p: Problem)
        requires
            self.wf(p),
        ensures
            self.cost as int == lines_cost(
                self.train_lines.deep_view(),
                p.track_costs.deep_view(),
                p.n as int,
                p.train_price,
            ),
    {
        let ls = self.train_lines.deep_view();
        let built = self.built_tracks.deep_view();
        let req = required_matrix(ls, p.n as int);
        lemma_built_cost_sum_congruent(
            built,
            req,
            p.track_costs.deep_view(),
            p.n as int,
            p.n as int,
        );
    }

    /// Recompute the cost of this candidate from scratch, straight from the
    /// line list, for validation against the tracked `cost`; `None` when the
    /// formula does not fit in a machine word.
    #[verifier::loop_isolation(false)]
    pub fn calc_cost(&self, problem: &Problem) -> (r: Option<u64>)
        requires
            problem.wf(),
            lines_wf(self.train_lines.deep_view(), problem.n as int),
        ensures
            match r {
                Some(c) => c as int == lines_cost(
                    self.train_lines.deep_view(),
                    problem.track_costs.deep_view(),
                    problem.n as int,
                    problem.train_price,
                ),
                None => lines_cost(
                    self.train_lines.deep_view(),
                    problem.track_costs.deep_view(),
                    problem.n as int,
                    problem.train_price,
                ) > u64::MAX,
            },
    {
        let ghost ls = self.train_lines.deep_view();
        let ghost req = required_matrix(ls, problem.n as int);
        let ghost costs = problem.track_costs.deep_view();
        let ghost n_spec = problem.n as int;
        proof {
            lemma_lines_view(&self.train_lines);
            lemma_u64_matrix_view(&problem.track_costs);
        }
        let n = problem.n;
        let mut acc: u64 = 0;
        let mut i: usize = 0;
        while i < n
            invariant
                i <= n,
                acc == built_cost_sum_upto(req, costs, n_spec, i as int),
            decreases n - i,
        {
            let mut j: usize = i + 1;
            while j < n
                invariant
                    i < j <= n,
                    acc == built_cost_sum_upto(req, costs, n_spec, i as int) + row_cost_sum(
                        req,
                        costs,
                        i as int,
                        j as int,
                    ),
                decreases n - j,
            {
                if lines_use_track_at(&self.train_lines, i, j) {
                    let c = mat_at(&problem.track_costs, i, j);
                    match acc.checked_add(c) {
                        Some(a) => {
                            acc = a;
                        },
                        None => {
                            proof {
                                lemma_calc_cost_exceeds(req, costs, ls, n_spec,
                                    problem.train_price, i as int, j as int, acc as int);
                            }
                            return None;
                        },
                    }
                }
                j = j + 1;
            }
            i = i + 1;
        }
        proof {
            lemma_total_trains_nonneg(ls);
        }
        let ghost track_part = built_cost_sum(req, costs, n_spec);
        let price = problem.train_price;
        let mut k: usize = 0;
        while k < self.train_lines.len()
            invariant
                k <= self.train_lines.len(),
                acc == track_part + total_trains(ls.take(k as int)) * price,
            decreases self.train_lines.len() - k,
        {
            proof {
                lemma_total_trains_take(ls, k as int);
                lemma_total_trains_take_le(ls, k as int + 1);
                lemma_total_trains_nonneg(ls.take(k as int));
            }
            let trains: u64 = self.train_lines[k].n as u64;
            let term = match trains.checked_mul(price) {
                Some(t) => t,
                None => {
                    proof {
                        lemma_calc_trains_exceeds(req, costs, ls, n_spec, price, k as int,
                            acc as int);
                    }
                    return None;
                },
            };
            acc = match acc.checked_add(term) {
                Some(a) => a,
                None => {
                    proof {
                        lemma_calc_trains_exceeds(req, costs, ls, n_spec, price, k as int,
                            acc as int);
                    }
                    return None;
                },
            };
            proof {
                lemma_mul_is_distributive_add_other_way(
                    price as int,
                    total_trains(ls.take(k as int)),
                    ls[k as int].n as int,
                );
            }
            k = k + 1;
        }
        proof {
            assert(ls.take(ls.len() as int) =~= ls);
        }
        Some(acc)
    }

    /// Duplicate a line: append a copy of line `i`. Its tracks are already
    /// built, so the only new cost is the copied trains' price. `None`
    /// exactly when that cost does not fit in a machine word.
    pub fn duplicate_line(&self, problem: &Problem, i: usize) -> (r: Option<WorkingSolution>)
        requires
            self.wf(*problem),
            i < self.train_lines@.len(),
        ensures
            r is None <==> self.cost + self.train_lines.deep_view()[i as int].n
                * problem.train_price > u64::MAX,
            r matches Some(w) ==> {
                &&& w.wf(*problem)
                &&& w.train_lines.deep_view() == self.train_lines.deep_view().push(
                    self.train_lines.deep_view()[i as int],
                )
                &&& w.cost == self.cost + self.train_lines.deep_view()[i as int].n
                    * problem.train_price
            },
    {
        proof {
            lemma_lines_view(&self.train_lines);
        }
        let ghost ls = self.train_lines.deep_view();
        let ghost n_spec = problem.n as int;
        let ghost price = problem.train_price;
        let trains: u64 = self.train_lines[i].n as u64;
        let extra = match trains.checked_mul(problem.train_price) {
            Some(x) => x,
            None => { return None },
        };
        let newcost = match self.cost.checked_add(extra) {
            Some(x) => x,
            None => { return None },
        };
        let mut lines2 = clone_lines(&self.train_lines);
        let dup = clone_line(&self.train_lines[i]);
        lines2.push(dup);
        let built2 = clone_bool_matrix(&self.built_tracks);
        let w = WorkingSolution { train_lines: lines2, cost: newcost, built_tracks: built2 };
        proof {
            lemma_lines_view(&w.train_lines);
            assert(w.train_lines.deep_view() =~= ls.push(ls[i as int]));
            let ls2 = w.train_lines.deep_view();
            assert forall|k: int| 0 <= k < ls2.len() implies line_wf(#[trigger] ls2[k], n_spec) by {
                if k < ls.len() {
                    assert(ls2[k] == ls[k]);
                } else {
                    assert(ls2[k] == ls[i as int]);
                }
            }
            lemma_lines_use_track_push_dup(ls, i as int);
            lemma_total_trains_push(ls, ls[i as int]);
            lemma_mul_is_distributive_add_other_way(
                price as int,
                total_trains(ls),
                ls[i as int].n as int,
            );
            assert(w.wf(*problem));
        }
        Some(w)
    }

    /// Change the number of trains on line `i` by one: increase it, or
    /// decrease it when more than one train remains, so no line is left
    /// without a train. The cost moves by exactly one train price. A decrease
    /// always succeeds; an increase fails exactly when the count or the cost
    /// would no longer fit in a machine word.
    pub fn change_train_count(&self, problem: &Problem, i: usize, increase: bool) -> (r: Option<
        WorkingSolution,
    >)
        requires
            self.wf(*problem),
            i < self.train_lines@.len(),
            !increase ==> self.train_lines.deep_view()[i as int].n > 1,
        ensures
            !increase ==> r is Some,
            increase ==> (r is None <==> (self.train_lines.deep_view()[i as int].n == usize::MAX
                || self.cost + problem.train_price > u64::MAX)),
            r matches Some(w) ==> {
                let ls = self.train_lines.deep_view();
                let ls2 = w.train_lines.deep_view();
                &&& w.wf(*problem)
                &&& ls2.len() == ls.len()
                &&& forall|k: int| 0 <= k < ls.len() && k != i ==> ls2[k] == ls[k]
                &&& ls2[i as int].route == ls[i as int].route
                &&& ls2[i as int].ty == ls[i as int].ty
                &&& ls2[i as int].n == if increase {
                    ls[i as int].n + 1
                } else {
                    ls[i as int].n - 1
                }
                &&& w.cost == if increase {
                    self.cost + problem.train_price
                } else {
                    self.cost - problem.train_price
                }
            },
    {
        proof {
            lemma_lines_view(&self.train_lines);
        }
        let ghost ls = self.train_lines.deep_view();
        let ghost n_spec = problem.n as int;
        let ghost price = problem.train_price;
        let old_line = &self.train_lines[i];
        let new_n = if increase {
            match old_line.n.checked_add(1) {
                Some(x) => x,
                None => { return None },
            }
        } else {
            old_line.n - 1
        };
        let newcost = if increase {
            match self.cost.checked_add(problem.train_price) {
                Some(x) => x,
                None => { return None },
            }
        } else {
            proof {
                lemma_total_trains_element_le(ls, i as int);
                lemma_mul_inequality(1, total_trains(ls), price as int);
                lemma_built_cost_sum_nonneg(self.built_tracks.deep_view(),
                    problem.track_costs.deep_view(), n_spec);
            }
            self.cost - problem.train_price
        };
        let mut lines2 = clone_lines(&self.train_lines);
        let newline = TrainLine { route: clone_route(&old_line.route), ty: old_line.ty, n: new_n };
        let ghost nlv = newline@;
        lines2[i] = newline;
        let built2 = clone_bool_matrix(&self.built_tracks);
        let w = WorkingSolution { train_lines: lines2, cost: newcost, built_tracks: built2 };
        proof {
            lemma_lines_view(&w.train_lines);
            assert(w.train_lines.deep_view() =~= ls.update(i as int, nlv));
            let ls2 = w.train_lines.deep_view();
            assert forall|k: int| 0 <= k < ls2.len() implies line_wf(#[trigger] ls2[k], n_spec) by {
                if k != i {
                    assert(ls2[k] == ls[k]);
                } else {
                    assert(line_wf(ls[i as int], n_spec));
                }
            }
            assert(crate::problem::line_tracks(nlv) =~= crate::problem::line_tracks(
                ls[i as int],
            ));
            lemma_lines_use_track_update_same(ls, i as int, nlv);
            lemma_total_trains_update(ls, i as int, nlv);
            if increase {
                lemma_mul_is_distributive_add_other_way(price as int, total_trains(ls), 1);
            } else {
                lemma_mul_is_distributive_sub_other_way(price as int, total_trains(ls), 1);
            }
            assert(w.wf(*problem));
        }
        Some(w)
    }

    /// The view of line `i` with its schedule style toggled.
    pub open spec fn toggled_line(&self, i: int) -> LineView {
        let lv = self.train_lines.deep_view()[i];
        LineView {
            route: lv.route,
            ty: if lv.ty == ScheduleType::Circular {
                ScheduleType::Bidirectional
            } else {
                ScheduleType::Circular
            },
            n: lv.n,
        }
    }

    /// Toggle the schedule style of line `i`. Turning a line circular builds
    /// the wrap track joining its ends if no line required it yet, and
    /// charges its cost; turning it bidirectional retires that track if no
    /// remaining line still needs it, and credits its cost. `None` exactly
    /// when the toggled network's cost does not fit in a machine word.
    pub fn change_schedule_type(&self, problem: &Problem, i: usize) -> (r: Option<WorkingSolution>)
        requires
            problem.wf(),
            self.wf(*problem),
            i < self.train_lines@.len(),
        ensures
            r is None <==> lines_cost(
                self.train_lines.deep_view().update(i as int, self.toggled_line(i as int)),
                problem.track_costs.deep_view(),
                problem.n as int,
                problem.train_price,
            ) > u64::MAX,
            r matches Some(w) ==> {
                let ls = self.train_lines.deep_view();
                let ls2 = w.train_lines.deep_view();
                &&& w.wf(*problem)
                &&& ls2.len() == ls.len()
                &&& forall|k: int| 0 <= k < ls.len() && k != i ==> ls2[k] == ls[k]
                &&& ls2[i as int].route == ls[i as int].route
                &&& ls2[i as int].n == ls[i as int].n
                &&& ls2[i as int].ty == (if ls[i as int].ty == ScheduleType::Circular {
                    ScheduleType::Bidirectional
                } else {
                    ScheduleType::Circular
                })
            },
    {
        proof {
            lemma_lines_view(&self.train_lines);
        }
        let ghost ls = self.train_lines.deep_view();
        let ghost n_spec = problem.n as int;
        let old_line = &self.train_lines[i];
        let new_ty = match old_line.ty {
            ScheduleType::Circular => ScheduleType::Bidirectional,
            ScheduleType::Bidirectional => ScheduleType::Circular,
        };
        let rlen = old_line.route.len();
        let a = old_line.route[0];
        let b = old_line.route[rlen - 1];
        let mut lines2 = clone_lines(&self.train_lines);
        let newline = TrainLine { route: clone_route(&old_line.route), ty: new_ty, n: old_line.n };
        let ghost nlv = newline@;
        lines2[i] = newline;
        let ghost ls2 = lines2.deep_view();
        proof {
            lemma_lines_view(&lines2);
            assert(ls2 =~= ls.update(i as int, nlv));
            assert forall|k: int| 0 <= k < ls2.len() implies line_wf(#[trigger] ls2[k], n_spec) by {
                if k != i {
                    assert(ls2[k] == ls[k]);
                } else {
                    assert(line_wf(ls[i as int], n_spec));
                }
            }
            lemma_total_trains_update(ls, i as int, nlv);
            assert(a != b);
            lemma_wf_built_sym(self, *problem);
        }
        let mut built2 = clone_bool_matrix(&self.built_tracks);
        proof {
            assert(nlv == self.toggled_line(i as int));
            assert(self.cost as int == network_cost(
                built2.deep_view(),
                ls2,
                problem.track_costs.deep_view(),
                n_spec,
                problem.train_price,
            ));
        }
        let c2 = match sync_pair(&mut built2, self.cost, &lines2, problem, a, b) {
            Some(x) => x,
            None => {
                // Charging the wrap track overflowed, and that track is the
                // toggled network's only cost change: its cost formula is
                // beyond a machine word.
                proof {
                    let b0 = self.built_tracks.deep_view();
                    let costs = problem.track_costs.deep_view();
                    let price = problem.train_price;
                    let lo: int = if a < b {
                        a as int
                    } else {
                        b as int
                    };
                    let hi: int = if a < b {
                        b as int
                    } else {
                        a as int
                    };
                    let b1 = set_pair(b0, a as int, b as int, true);
                    lemma_line_toggle_tracks(ls[i as int], nlv);
                    assert forall|x: int, y: int|
                        0 <= x < n_spec && x < y < n_spec implies required_matrix(ls2, n_spec)[x][y]
                        == b1[x][y] by {
                        if crate::problem::pair_connects((a, b), x, y) {
                            lemma_lines_use_track_sym(ls2, x, y);
                        } else {
                            assert(crate::problem::line_uses_track(nlv, x, y)
                                == crate::problem::line_uses_track(ls[i as int], x, y));
                            lemma_lines_use_track_update_cond(ls, i as int, nlv, x, y);
                            assert(b1[x][y] == b0[x][y]);
                        }
                    }
                    lemma_built_cost_sum_congruent(
                        required_matrix(ls2, n_spec),
                        b1,
                        costs,
                        n_spec,
                        n_spec,
                    );
                    assert forall|r2: int, c2g: int|
                        0 <= r2 < n_spec && r2 < c2g < n_spec && !(r2 == lo && c2g == hi)
                        implies b0[r2][c2g] == b1[r2][c2g] by {}
                    lemma_built_cost_sum_flip(b0, b1, costs, n_spec, lo, hi);
                    assert(track_pair_cost(b1, costs, lo, hi) == costs[a as int][b as int] as int);
                    assert(track_pair_cost(b0, costs, lo, hi) == 0);
                    assert(lines_cost(ls2, costs, n_spec, problem.train_price) == self.cost
                        + costs[a as int][b as int]);
                }
                return None;
            },
        };
        let w = WorkingSolution { train_lines: lines2, cost: c2, built_tracks: built2 };
        proof {
            let b0 = self.built_tracks.deep_view();
            let b1 = w.built_tracks.deep_view();
            lemma_line_toggle_tracks(ls[i as int], nlv);
            assert forall|x: int, y: int|
                0 <= x < n_spec && 0 <= y < n_spec implies #[trigger] b1[x][y] == lines_use_track(
                ls2,
                x,
                y,
            ) by {
                if crate::problem::pair_connects((a, b), x, y) {
                    assert(b1[x][y] == lines_use_track(ls2, a as int, b as int));
                    assert(lines_use_track(ls2, x, y) == lines_use_track(ls2, a as int, b as int));
                } else {
                    assert(b1[x][y] == b0[x][y]);
                    assert(crate::problem::line_uses_track(nlv, x, y)
                        == crate::problem::line_uses_track(ls[i as int], x, y));
                    lemma_lines_use_track_update_cond(ls, i as int, nlv, x, y);
                }
            }
            assert(w.wf(*problem));
            w.lemma_cost_exact(*problem);
        }
        Some(w)
    }

    /// Remove line `i` (only when at least one line remains): credit the
    /// removed trains' price, then rescan all track pairs and retire, with a
    /// credit, every track no remaining line requires. The removed slot is
    /// filled by the last line.
    #[verifier::loop_isolation(false)]
    pub fn remove_line(&self, problem: &Problem, i: usize) -> (w: WorkingSolution)
        requires
            problem.wf(),
            self.wf(*problem),
            i < self.train_lines@.len(),
            self.train_lines@.len() > 1,
        ensures
            w.wf(*problem),
            w.train_lines.deep_view() == self.train_lines.deep_view().update(
                i as int,
                self.train_lines.deep_view().last(),
            ).drop_last(),
    {
        proof {
            lemma_lines_view(&self.train_lines);
            lemma_wf_built_sym(self, *problem);
        }
        let ghost ls = self.train_lines.deep_view();
        let ghost n_spec = problem.n as int;
        let ghost price = problem.train_price;
        let ghost costs = problem.track_costs.deep_view();
        let ghost b0 = self.built_tracks.deep_view();

        proof {
            lemma_total_trains_element_le(ls, i as int);
            lemma_mul_inequality(ls[i as int].n as int, total_trains(ls), price as int);
            lemma_built_cost_sum_nonneg(b0, costs, n_spec);
            lemma_mul_nonnegative(total_trains(ls), price as int);
        }
        let trains: u64 = self.train_lines[i].n as u64;
        let price_part: u64 = trains * problem.train_price;
        let mut cost_cur: u64 = self.cost - price_part;

        let mut lines2 = clone_lines(&self.train_lines);
        let _removed = lines2.swap_remove(i);
        let ghost ls2 = lines2.deep_view();
        proof {
            lemma_lines_view(&lines2);
            assert(ls2 =~= ls.update(i as int, ls.last()).drop_last());
            assert forall|k: int| 0 <= k < ls2.len() implies line_wf(#[trigger] ls2[k], n_spec) by {
                if k == i && i < ls.len() - 1 {
                    assert(ls2[k] == ls[ls.len() - 1]);
                } else {
                    assert(ls2[k] == ls[k]);
                }
            }
            assert forall|k: int| 0 <= k < ls2.len() implies exists|k2: int|
                0 <= k2 < ls.len() && #[trigger] ls2[k] == ls[k2] by {
                if k == i && i < ls.len() - 1 {
                    assert(ls2[k] == ls[ls.len() - 1]);
                } else {
                    assert(ls2[k] == ls[k]);
                }
            }
            // The cost after crediting the trains matches the cost formula
            // for the shorter line list over the unchanged track matrix.
            let s1 = ls.update(i as int, ls.last());
            lemma_total_trains_update(ls, i as int, ls.last());
            assert(s1.last() == ls.last());
            assert(s1.drop_last() == ls2);
            assert(total_trains(ls2) == total_trains(ls) - ls[i as int].n);
            lemma_mul_is_distributive_sub_other_way(
                price as int,
                total_trains(ls),
                ls[i as int].n as int,
            );
            assert(cost_cur as int == network_cost(b0, ls2, costs, n_spec, price));
        }

        let mut built2 = clone_bool_matrix(&self.built_tracks);
        let n = problem.n;
        let mut x: usize = 0;
        while x < n
            invariant
                x <= n,
                bool_matrix_sized(built2.deep_view(), n_spec),
                built_sym(built2.deep_view(), n_spec),
                cost_cur as int == network_cost(built2.deep_view(), ls2, costs, n_spec, price),
                forall|px: int, py: int|
                    0 <= px < n_spec && 0 <= py < n_spec ==> #[trigger] built2.deep_view()[px][py]
                        == (if px != py && pair_scanned(px, py, x as int, x as int + 1) {
                        lines_use_track(ls2, px, py)
                    } else {
                        b0[px][py]
                    }),
            decreases n - x,
        {
            let mut y: usize = x + 1;
            while y < n
                invariant
                    x < n,
                    x < y <= n,
                    bool_matrix_sized(built2.deep_view(), n_spec),
                    built_sym(built2.deep_view(), n_spec),
                    cost_cur as int == network_cost(built2.deep_view(), ls2, costs, n_spec, price),
                    forall|px: int, py: int|
                        0 <= px < n_spec && 0 <= py < n_spec ==> #[trigger] built2.deep_view()[px][py]
                            == (if px != py && pair_scanned(px, py, x as int, y as int) {
                            lines_use_track(ls2, px, py)
                        } else {
                            b0[px][py]
                        }),
                decreases n - y,
            {
                let ghost b_before = built2.deep_view();
                let c2 = match sync_pair(&mut built2, cost_cur, &lines2, problem, x, y) {
                    Some(c) => c,
                    None => {
                        // A track can only need building here if the shorter
                        // list requires one the full list did not: impossible.
                        proof {
                            lemma_lines_use_track_shrink(ls2, ls, x as int, y as int);
                            assert(false);
                        }
                        cost_cur
                    },
                };
                cost_cur = c2;
                proof {
                    assert forall|px: int, py: int|
                        0 <= px < n_spec && 0 <= py < n_spec implies #[trigger] built2.deep_view()[px][py]
                        == (if px != py && pair_scanned(px, py, x as int, y as int + 1) {
                        lines_use_track(ls2, px, py)
                    } else {
                        b0[px][py]
                    }) by {
                        if px == x as int && py == y as int {
                        } else if px == y as int && py == x as int {
                            lemma_lines_use_track_sym(ls2, px, py);
                        } else {
                            assert(built2.deep_view()[px][py] == b_before[px][py]);
                        }
                    }
                }
                y = y + 1;
            }
            x = x + 1;
        }
        let w = WorkingSolution { train_lines: lines2, cost: cost_cur, built_tracks: built2 };
        proof {
            assert forall|px: int, py: int|
                0 <= px < n_spec && 0 <= py < n_spec implies #[trigger] w.built_tracks.deep_view()[px][py]
                == lines_use_track(ls2, px, py) by {
                if px == py {
                    lemma_no_self_track(ls, n_spec, px);
                    lemma_no_self_track(ls2, n_spec, px);
                } else {
                    assert(pair_scanned(px, py, n_spec, n_spec + 1));
                }
            }
            assert(w.wf(*problem));
        }
        w
    }

    /// The view of line `i` with station `s` inserted at position `idx`.
    pub open spec fn inserted_line(&self, i: int, s: usize, idx: int) -> LineView {
        let lv = self.train_lines.deep_view()[i];
        LineView { route: lv.route.insert(idx, s), ty: lv.ty, n: lv.n }
    }

    /// Insert station `s`, not yet on line `i`, at position `idx` of its
    /// route. Every adjacency the insertion creates is built and charged if
    /// no line required it yet; the adjacency it breaks, and a circular
    /// route's moved wrap pair, are retired and credited if no line needs
    /// them any more. `None` exactly when the new network's cost does not
    /// fit in a machine word.
    pub fn insert_stop(&self, problem: &Problem, i: usize, s: usize, idx: usize) -> (r: Option<
        WorkingSolution,
    >)
        requires
            problem.wf(),
            self.wf(*problem),
            i < self.train_lines@.len(),
            s < problem.n,
            idx <= self.train_lines.deep_view()[i as int].route.len(),
            forall|k: int|
                0 <= k < self.train_lines.deep_view()[i as int].route.len()
                    ==> self.train_lines.deep_view()[i as int].route[k] != s,
        ensures
            r is None <==> lines_cost(
                self.train_lines.deep_view().update(
                    i as int,
                    self.inserted_line(i as int, s, idx as int),
                ),
                problem.track_costs.deep_view(),
                problem.n as int,
                problem.train_price,
            ) > u64::MAX,
            r matches Some(w) ==> {
                let ls = self.train_lines.deep_view();
                let ls2 = w.train_lines.deep_view();
                &&& w.wf(*problem)
                &&& ls2.len() == ls.len()
                &&& forall|k: int| 0 <= k < ls.len() && k != i ==> ls2[k] == ls[k]
                &&& ls2[i as int].route == ls[i as int].route.insert(idx as int, s)
                &&& ls2[i as int].ty == ls[i as int].ty
                &&& ls2[i as int].n == ls[i as int].n
            },
    {
        proof {
            lemma_lines_view(&self.train_lines);
        }
        let ghost ls = self.train_lines.deep_view();
        let ghost n_spec = problem.n as int;
        let ghost lsi = ls[i as int];
        let old_line = &self.train_lines[i];
        let m = old_line.route.len();
        let mut new_route = clone_route(&old_line.route);
        new_route.insert(idx, s);
        let newline = TrainLine { route: new_route, ty: old_line.ty, n: old_line.n };
        let ghost nlv = newline@;
        proof {
            lsi.route.insert_ensures(idx as int, s);
            assert(nlv.route =~= lsi.route.insert(idx as int, s));
            assert forall|p: int, q: int|
                0 <= p < q < nlv.route.len() implies nlv.route[p] != nlv.route[q] by {
                if p == idx as int {
                    assert(nlv.route[q] == lsi.route[q - 1]);
                } else if q == idx as int {
                    assert(nlv.route[p] == lsi.route[p]);
                }
            }
            assert(line_wf(nlv, n_spec));
        }
        // The station pairs whose requirement the insertion may change; the
        // guards select the real pair, with a harmless already-consistent
        // pair in the slots a case does not need.
        let pa: usize = if idx > 0 {
            old_line.route[idx - 1]
        } else {
            old_line.route[0]
        };
        let pb: usize = if idx < m {
            old_line.route[idx]
        } else {
            old_line.route[m - 1]
        };
        let broken: (usize, usize) = if 0 < idx && idx < m {
            (old_line.route[idx - 1], old_line.route[idx])
        } else {
            (old_line.route[0], old_line.route[m - 1])
        };
        let wrap_new: (usize, usize) = if idx == 0 {
            (s, old_line.route[m - 1])
        } else {
            (old_line.route[0], s)
        };
        let mut pairs: Vec<(usize, usize)> = Vec::new();
        pairs.push((pa, s));
        pairs.push((s, pb));
        pairs.push(broken);
        pairs.push((old_line.route[0], old_line.route[m - 1]));
        pairs.push(wrap_new);

        let mut lines2 = clone_lines(&self.train_lines);
        lines2[i] = newline;
        let ghost ls2 = lines2.deep_view();
        proof {
            lemma_lines_view(&lines2);
            assert(ls2 =~= ls.update(i as int, nlv));
            assert forall|k: int| 0 <= k < ls2.len() implies line_wf(#[trigger] ls2[k], n_spec) by {
                if k != i {
                    assert(ls2[k] == ls[k]);
                }
            }
            lemma_total_trains_update(ls, i as int, nlv);
            lemma_wf_built_sym(self, *problem);
        }
        let mut built2 = clone_bool_matrix(&self.built_tracks);
        let ghost b0 = built2.deep_view();
        proof {
            assert(nlv == self.inserted_line(i as int, s, idx as int));
        }
        let c2 = match sync_pair_list(&mut built2, self.cost, &lines2, problem, &pairs) {
            Some(c) => c,
            None => {
                // A charge overflowed along the incremental path; decide
                // exactly by constructing the new network from scratch.
                let r2 = WorkingSolution::from_lines(problem, lines2);
                proof {
                    if r2 is Some {
                        let w0 = r2.unwrap();
                        w0.lemma_cost_exact(*problem);
                    }
                }
                return r2;
            },
        };
        let w = WorkingSolution { train_lines: lines2, cost: c2, built_tracks: built2 };
        proof {
            assert forall|x: int, y: int|
                0 <= x < n_spec && 0 <= y < n_spec implies #[trigger] w.built_tracks.deep_view()[x][y]
                == lines_use_track(ls2, x, y) by {
                if exists|j: int|
                    0 <= j < pairs@.len() && pair_connects(#[trigger] pairs@[j], x, y) {
                } else {
                    assert(w.built_tracks.deep_view()[x][y] == b0[x][y]);
                    assert(!pair_connects(pairs@[0], x, y));
                    assert(!pair_connects(pairs@[1], x, y));
                    assert(!pair_connects(pairs@[2], x, y));
                    assert(!pair_connects(pairs@[3], x, y));
                    assert(!pair_connects(pairs@[4], x, y));
                    assert(!insert_touched(lsi, idx as int, s, x, y));
                    lemma_insert_stop_tracks(lsi, nlv, idx as int, s, x, y);
                    lemma_lines_use_track_update_cond(ls, i as int, nlv, x, y);
                }
            }
            assert(w.wf(*problem));
            w.lemma_cost_exact(*problem);
        }
        Some(w)
    }

    /// The view of line `i` with the stop at position `idx` removed.
    pub open spec fn removed_line(&self, i: int, idx: int) -> LineView {
        let lv = self.train_lines.deep_view()[i];
        LineView { route: lv.route.remove(idx), ty: lv.ty, n: lv.n }
    }

    /// Remove the stop at position `idx` from line `i`, which must keep at
    /// least two stops. The adjacencies the removal breaks, the one it
    /// creates, and a circular route's moved wrap pair are each built or
    /// retired as the remaining lines require, with the exact charge or
    /// credit. `None` exactly when the new network's cost does not fit in a
    /// machine word.
    pub fn remove_stop(&self, problem: &Problem, i: usize, idx: usize) -> (r: Option<
        WorkingSolution,
    >)
        requires
            problem.wf(),
            self.wf(*problem),
            i < self.train_lines@.len(),
            self.train_lines.deep_view()[i as int].route.len() >= 3,
            idx < self.train_lines.deep_view()[i as int].route.len(),
        ensures
            r is None <==> lines_cost(
                self.train_lines.deep_view().update(i as int, self.removed_line(i as int, idx as int)),
                problem.track_costs.deep_view(),
                problem.n as int,
                problem.train_price,
            ) > u64::MAX,
            r matches Some(w) ==> {
                let ls = self.train_lines.deep_view();
                let ls2 = w.train_lines.deep_view();
                &&& w.wf(*problem)
                &&& ls2.len() == ls.len()
                &&& forall|k: int| 0 <= k < ls.len() && k != i ==> ls2[k] == ls[k]
                &&& ls2[i as int].route == ls[i as int].route.remove(idx as int)
                &&& ls2[i as int].ty == ls[i as int].ty
                &&& ls2[i as int].n == ls[i as int].n
            },
    {
        proof {
            lemma_lines_view(&self.train_lines);
        }
        let ghost ls = self.train_lines.deep_view();
        let ghost n_spec = problem.n as int;
        let ghost lsi = ls[i as int];
        let old_line = &self.train_lines[i];
        let m = old_line.route.len();
        let mut new_route = clone_route(&old_line.route);
        new_route.remove(idx);
        let newline = TrainLine { route: new_route, ty: old_line.ty, n: old_line.n };
        let ghost nlv = newline@;
        proof {
            lsi.route.remove_ensures(idx as int);
            assert(nlv.route =~= lsi.route.remove(idx as int));
            assert forall|p: int, q: int|
                0 <= p < q < nlv.route.len() implies nlv.route[p] != nlv.route[q] by {
                assert(nlv.route[p] == if p < idx as int {
                    lsi.route[p]
                } else {
                    lsi.route[p + 1]
                });
                assert(nlv.route[q] == if q < idx as int {
                    lsi.route[q]
                } else {
                    lsi.route[q + 1]
                });
            }
            assert(line_wf(nlv, n_spec));
        }
        // The station pairs whose requirement the removal may change, with a
        // harmless already-consistent pair in the slots a case does not need.
        let q1: (usize, usize) = if idx > 0 {
            (old_line.route[idx - 1], old_line.route[idx])
        } else {
            (old_line.route[0], old_line.route[1])
        };
        let q2: (usize, usize) = if idx < m - 1 {
            (old_line.route[idx], old_line.route[idx + 1])
        } else {
            (old_line.route[m - 2], old_line.route[m - 1])
        };
        let q3: (usize, usize) = if 0 < idx && idx < m - 1 {
            (old_line.route[idx - 1], old_line.route[idx + 1])
        } else {
            (old_line.route[0], old_line.route[m - 1])
        };
        let q5: (usize, usize) = if idx == 0 {
            (old_line.route[1], old_line.route[m - 1])
        } else {
            (old_line.route[0], old_line.route[m - 2])
        };
        let mut pairs: Vec<(usize, usize)> = Vec::new();
        pairs.push(q1);
        pairs.push(q2);
        pairs.push(q3);
        pairs.push((old_line.route[0], old_line.route[m - 1]));
        pairs.push(q5);

        let mut lines2 = clone_lines(&self.train_lines);
        lines2[i] = newline;
        let ghost ls2 = lines2.deep_view();
        proof {
            lemma_lines_view(&lines2);
            assert(ls2 =~= ls.update(i as int, nlv));
            assert forall|k: int| 0 <= k < ls2.len() implies line_wf(#[trigger] ls2[k], n_spec) by {
                if k != i {
                    assert(ls2[k] == ls[k]);
                }
            }
            lemma_total_trains_update(ls, i as int, nlv);
            lemma_wf_built_sym(self, *problem);
        }
        let mut built2 = clone_bool_matrix(&self.built_tracks);
        let ghost b0 = built2.deep_view();
        proof {
            assert(nlv == self.removed_line(i as int, idx as int));
        }
        let c2 = match sync_pair_list(&mut built2, self.cost, &lines2, problem, &pairs) {
            Some(c) => c,
            None => {
                // A charge overflowed along the incremental path; decide
                // exactly by constructing the new network from scratch.
                let r2 = WorkingSolution::from_lines(problem, lines2);
                proof {
                    if r2 is Some {
                        let w0 = r2.unwrap();
                        w0.lemma_cost_exact(*problem);
                    }
                }
                return r2;
            },
        };
        let w = WorkingSolution { train_lines: lines2, cost: c2, built_tracks: built2 };
        proof {
            assert forall|x: int, y: int|
                0 <= x < n_spec && 0 <= y < n_spec implies #[trigger] w.built_tracks.deep_view()[x][y]
                == lines_use_track(ls2, x, y) by {
                if exists|j: int|
                    0 <= j < pairs@.len() && pair_connects(#[trigger] pairs@[j], x, y) {
                } else {
                    assert(w.built_tracks.deep_view()[x][y] == b0[x][y]);
                    assert(!pair_connects(pairs@[0], x, y));
                    assert(!pair_connects(pairs@[1], x, y));
                    assert(!pair_connects(pairs@[2], x, y));
                    assert(!pair_connects(pairs@[3], x, y));
                    assert(!pair_connects(pairs@[4], x, y));
                    assert(!remove_touched(lsi, idx as int, x, y));
                    lemma_remove_stop_tracks(lsi, nlv, idx as int, x, y);
                    lemma_lines_use_track_update_cond(ls, i as int, nlv, x, y);
                }
            }
            assert(w.wf(*problem));
            w.lemma_cost_exact(*problem);
        }
        Some(w)
    }

    /// A candidate over the given lines, with its built-track matrix and its
    /// cost both computed from scratch. `None` when the cost does not fit in
    /// a machine word.
    #[verifier::loop_isolation(false)]
    pub fn from_lines(problem: &Problem, lines: Vec<TrainLine>) -> (r: Option<WorkingSolution>)
        requires
            problem.wf(),
            lines_wf(lines.deep_view(), problem.n as int),
            lines.deep_view().len() >= 1,
        ensures
            match r {
                Some(w) => w.wf(*problem) && w.train_lines.deep_view() == lines.deep_view(),
                None => lines_cost(
                    lines.deep_view(),
                    problem.track_costs.deep_view(),
                    problem.n as int,
                    problem.train_price,
                ) > u64::MAX,
            },
    {
        proof {
            lemma_lines_view(&lines);
        }
        let ghost ls = lines.deep_view();
        let ghost n_spec = problem.n as int;
        let n = problem.n;
        let mut built: Vec<Vec<bool>> = Vec::new();
        let mut i: usize = 0;
        while i < n
            invariant
                i <= n,
                built@.len() == i,
                forall|a: int|
                    0 <= a < i ==> (#[trigger] built@[a])@.len() == n_spec && forall|b: int|
                        0 <= b < n_spec ==> built@[a]@[b] == lines_use_track(ls, a, b),
            decreases n - i,
        {
            let mut row: Vec<bool> = Vec::new();
            let mut j: usize = 0;
            while j < n
                invariant
                    j <= n,
                    row@.len() == j,
                    forall|b: int| 0 <= b < j ==> row@[b] == lines_use_track(ls, i as int, b),
                decreases n - j,
            {
                row.push(lines_use_track_at(&lines, i, j));
                j = j + 1;
            }
            built.push(row);
            i = i + 1;
        }
        proof {
            lemma_bool_matrix_view(&built);
        }
        let mut w0 = WorkingSolution { train_lines: lines, cost: 0, built_tracks: built };
        let c = match w0.calc_cost(problem) {
            Some(c) => c,
            None => { return None },
        };
        w0.cost = c;
        proof {
            assert forall|a: int, b: int|
                0 <= a < n_spec && 0 <= b < n_spec implies #[trigger] w0.built_tracks.deep_view()[a][b]
                == lines_use_track(ls, a, b) by {
                assert(w0.built_tracks.deep_view()[a] == w0.built_tracks@[a]@);
            }
            lemma_built_cost_sum_congruent(
                w0.built_tracks.deep_view(),
                required_matrix(ls, n_spec),
                problem.track_costs.deep_view(),
                n_spec,
                n_spec,
            );
            assert(w0.wf(*problem));
        }
        Some(w0)
    }

    /// Copy this candidate so that the copy's lines, tracks and cost read
    /// the same.
    pub fn clone_solution(&self) -> (r: WorkingSolution)
        ensures
            r.train_lines.deep_view() == self.train_lines.deep_view(),
            r.built_tracks.deep_view() == self.built_tracks.deep_view(),
            r.cost == self.cost,
    {
        WorkingSolution {
            train_lines: clone_lines(&self.train_lines),
            cost: self.cost,
            built_tracks: clone_bool_matrix(&self.built_tracks),
        }
    }

    /// Whether two candidates describe the same network: same lines in the
    /// same order, same built tracks, same cost.
    pub fn same_as(&self, other: &WorkingSolution) -> (r: bool)
        ensures
            r == (self.train_lines.deep_view() == other.train_lines.deep_view()
                && self.built_tracks.deep_view() == other.built_tracks.deep_view() && self.cost
                == other.cost),
    {
        lines_equal(&self.train_lines, &other.train_lines) && bool_matrices_equal(
            &self.built_tracks,
            &other.built_tracks,
        ) && self.cost == other.cost
    }

    /// Explore the neighbours of this candidate: every move family is tried
    /// at every applicable site, each proposed independently with probability
    /// `chance_num / chance_den`. Every returned candidate is this candidate
    /// with exactly one move applied, and preserves the candidate invariant,
    /// so its cost is exact; moves whose cost would not fit in a machine
    /// word are left out (no budget admits them). Under a certain proposal
    /// chance, the batch holds a candidate for every applicable site whose
    /// move fits.
    #[verifier::loop_isolation(false)]
    pub fn generate_neighbours<R: RandomSource>(
        &self,
        problem: &Problem,
        rng: &mut R,
        chance_num: u64,
        chance_den: u64,
    ) -> (r: Vec<WorkingSolution>)
        requires
            problem.wf(),
            self.wf(*problem),
            chance_den >= 1,
        ensures
            forall|k: int|
                0 <= k < r@.len() ==> (#[trigger] r@[k]).wf(*problem) && neighbour_move(
                    r@[k],
                    *self,
                ),
            chance_num >= chance_den ==> {
                &&& proposes_every_duplicate(r@, *self, *problem)
                &&& proposes_every_line_removal(r@, *self, *problem)
                &&& proposes_every_insertion(r@, *self, *problem)
                &&& proposes_every_stop_removal(r@, *self, *problem)
                &&& proposes_every_train_change(r@, *self, *problem)
                &&& proposes_every_toggle(r@, *self, *problem)
            },
    {
        proof {
            lemma_lines_view(&self.train_lines);
        }
        let ghost ls = self.train_lines.deep_view();
        let ghost certain: bool = chance_num >= chance_den;
        let n_lines = self.train_lines.len();
        let mut out: Vec<WorkingSolution> = Vec::new();

        // Duplicate a line.
        let mut i: usize = 0;
        while i < n_lines
            invariant
                i <= n_lines,
                forall|k: int|
                    0 <= k < out@.len() ==> (#[trigger] out@[k]).wf(*problem) && neighbour_move(
                        out@[k],
                        *self,
                    ),
                certain ==> (forall|m: int|
                    #![trigger ls[m]]
                    0 <= m < i && self.cost + ls[m].n * problem.train_price <= u64::MAX
                        ==> batch_has(out@, ls.push(ls[m]))),
            decreases n_lines - i,
        {
            if rng.coin(chance_num, chance_den) {
                let ghost out0 = out@;
                match self.duplicate_line(problem, i) {
                    Some(w) => {
                        proof {
                            assert((i as int) < ls.len() && w.train_lines.deep_view() == ls.push(
                                ls[i as int],
                            ));
                            assert(is_duplicate_move(w, *self));
                        }
                        out.push(w);
                        proof {
                            assert(out@ == out0.push(w));
                            if certain {
                                assert forall|m: int|
                                    0 <= m < i as int + 1 && self.cost + (#[trigger] ls[m]).n
                                        * problem.train_price <= u64::MAX implies batch_has(
                                    out@,
                                    ls.push(ls[m]),
                                ) by {
                                    if m < i as int {
                                        lemma_batch_has_push(out0, w, ls.push(ls[m]));
                                    } else {
                                        assert(out@[out@.len() - 1].train_lines.deep_view()
                                            == ls.push(ls[i as int]));
                                    }
                                }
                            }
                        }
                    },
                    None => {},
                }
            } else {
                proof {
                    assert(!certain);
                }
            }
            i = i + 1;
        }

        // Remove a line, only while at least one other remains.
        if n_lines > 1 {
            let mut i: usize = 0;
            while i < n_lines
                invariant
                    n_lines > 1,
                    i <= n_lines,
                    forall|k: int|
                        0 <= k < out@.len() ==> (#[trigger] out@[k]).wf(*problem) && neighbour_move(
                            out@[k],
                            *self,
                        ),
                    certain ==> proposes_every_duplicate(out@, *self, *problem),
                    certain ==> (forall|m: int|
                        #![trigger ls.update(m, ls.last())]
                        0 <= m < i ==> batch_has(out@, ls.update(m, ls.last()).drop_last())),
                decreases n_lines - i,
            {
                if rng.coin(chance_num, chance_den) {
                    let ghost out0 = out@;
                    let w = self.remove_line(problem, i);
                    proof {
                        assert(is_remove_line_move(w, *self)) by {
                            assert((i as int) < ls.len() && w.train_lines.deep_view() == ls.update(
                                i as int,
                                ls.last(),
                            ).drop_last());
                        }
                    }
                    out.push(w);
                    proof {
                        assert(out@ == out0.push(w));
                        if certain {
                            lemma_dup_complete_push(out0, w, *self, *problem);
                            assert forall|m: int| 0 <= m < i as int + 1 implies batch_has(
                                out@,
                                (#[trigger] ls.update(m, ls.last())).drop_last(),
                            ) by {
                                if m < i as int {
                                    lemma_batch_has_push(out0, w, ls.update(m, ls.last()).drop_last());
                                } else {
                                    assert(out@[out@.len() - 1].train_lines.deep_view()
                                        == ls.update(i as int, ls.last()).drop_last());
                                }
                            }
                        }
                    }
                } else {
                    proof {
                        assert(!certain);
                    }
                }
                i = i + 1;
            }
        }
        proof {
            if certain {
                assert(proposes_every_line_removal(out@, *self, *problem));
            }
        }

        // Add a stop to a line, at a uniformly random position.
        let mut i: usize = 0;
        while i < n_lines
            invariant
                i <= n_lines,
                forall|k: int|
                    0 <= k < out@.len() ==> (#[trigger] out@[k]).wf(*problem) && neighbour_move(
                        out@[k],
                        *self,
                    ),
                certain ==> proposes_every_duplicate(out@, *self, *problem),
                certain ==> proposes_every_line_removal(out@, *self, *problem),
                certain ==> proposes_insertions_upto(out@, *self, *problem, i as int, 0),
            decreases n_lines - i,
        {
            let mut s: usize = 0;
            while s < problem.n
                invariant
                    i < n_lines,
                    s <= problem.n,
                    forall|k: int|
                        0 <= k < out@.len() ==> (#[trigger] out@[k]).wf(*problem) && neighbour_move(
                            out@[k],
                            *self,
                        ),
                    certain ==> proposes_every_duplicate(out@, *self, *problem),
                    certain ==> proposes_every_line_removal(out@, *self, *problem),
                    certain ==> proposes_insertions_upto(out@, *self, *problem, i as int, s as int),
                decreases problem.n - s,
            {
                let ghost out0 = out@;
                let here = route_position(&self.train_lines[i], s);
                if here.is_none() {
                    if rng.coin(chance_num, chance_den) {
                        let rlen = self.train_lines[i].route.len();
                        if rlen < usize::MAX {
                            let idx = rng.pick(rlen + 1);
                            let ghost nl = LineView {
                                route: ls[i as int].route.insert(idx as int, s),
                                ty: ls[i as int].ty,
                                n: ls[i as int].n,
                            };
                            match self.insert_stop(problem, i, s, idx) {
                                Some(w) => {
                                    proof {
                                        assert(w.train_lines.deep_view() =~= ls.update(
                                            i as int,
                                            nl,
                                        ));
                                        assert(is_insert_stop_move(w, *self));
                                    }
                                    out.push(w);
                                    proof {
                                        assert(out@ == out0.push(w));
                                        if certain {
                                            lemma_dup_complete_push(out0, w, *self, *problem);
                                            lemma_removal_complete_push(out0, w, *self, *problem);
                                            lemma_insertions_upto_push(out0, w, *self, *problem,
                                                i as int, s as int);
                                            assert(out@[out@.len() - 1].train_lines.deep_view()
                                                == ls.update(i as int, nl));
                                            assert(batch_has(out@, ls.update(i as int, nl)));
                                            lemma_insertion_site_done(out@, *self, *problem,
                                                i as int, s, idx as int);
                                        }
                                    }
                                },
                                None => {
                                    proof {
                                        if certain {
                                            lemma_insertion_site_done(out@, *self, *problem,
                                                i as int, s, idx as int);
                                        }
                                    }
                                },
                            }
                        } else {
                            proof {
                                if certain {
                                    assert(proposes_insertions_upto(out@, *self, *problem,
                                        i as int, s as int + 1)) by {
                                        lemma_insertion_site_vacuous(out@, *self, *problem,
                                            i as int, s);
                                    }
                                }
                            }
                        }
                    } else {
                        proof {
                            assert(!certain);
                        }
                    }
                } else {
                    proof {
                        if certain {
                            assert(!insertable(ls, i as int, s, problem.n as int));
                            lemma_insertion_site_vacuous(out@, *self, *problem, i as int, s);
                        }
                    }
                }
                s = s + 1;
            }
            proof {
                if certain {
                    lemma_insertions_line_done(out@, *self, *problem, i as int);
                }
            }
            i = i + 1;
        }
        proof {
            if certain {
                lemma_insertions_all_done(out@, *self, *problem, n_lines as int);
            }
        }

        // Remove a stop from a line that keeps at least two.
        let mut i: usize = 0;
        while i < n_lines
            invariant
                i <= n_lines,
                forall|k: int|
                    0 <= k < out@.len() ==> (#[trigger] out@[k]).wf(*problem) && neighbour_move(
                        out@[k],
                        *self,
                    ),
                certain ==> proposes_every_duplicate(out@, *self, *problem),
                certain ==> proposes_every_line_removal(out@, *self, *problem),
                certain ==> proposes_every_insertion(out@, *self, *problem),
                certain ==> proposes_stop_removals_upto(out@, *self, *problem, i as int, 0),
            decreases n_lines - i,
        {
            let rlen = self.train_lines[i].route.len();
            if rlen >= 3 {
                let mut idx: usize = 0;
                while idx < rlen
                    invariant
                        i < n_lines,
                        idx <= rlen,
                        rlen == self.train_lines.deep_view()[i as int].route.len(),
                        rlen >= 3,
                        forall|k: int|
                            0 <= k < out@.len() ==> (#[trigger] out@[k]).wf(*problem)
                                && neighbour_move(out@[k], *self),
                        certain ==> proposes_every_duplicate(out@, *self, *problem),
                        certain ==> proposes_every_line_removal(out@, *self, *problem),
                        certain ==> proposes_every_insertion(out@, *self, *problem),
                        certain ==> proposes_stop_removals_upto(out@, *self, *problem, i as int,
                            idx as int),
                    decreases rlen - idx,
                {
                    let ghost out0 = out@;
                    let ghost nl = LineView {
                        route: ls[i as int].route.remove(idx as int),
                        ty: ls[i as int].ty,
                        n: ls[i as int].n,
                    };
                    if rng.coin(chance_num, chance_den) {
                        match self.remove_stop(problem, i, idx) {
                            Some(w) => {
                                proof {
                                    assert(w.train_lines.deep_view() =~= ls.update(i as int, nl));
                                    assert(is_remove_stop_move(w, *self));
                                }
                                out.push(w);
                                proof {
                                    assert(out@ == out0.push(w));
                                    if certain {
                                        lemma_dup_complete_push(out0, w, *self, *problem);
                                        lemma_removal_complete_push(out0, w, *self, *problem);
                                        lemma_insertion_complete_push(out0, w, *self, *problem);
                                        lemma_stop_removals_upto_push(out0, w, *self, *problem,
                                            i as int, idx as int);
                                        assert(out@[out@.len() - 1].train_lines.deep_view()
                                            == ls.update(i as int, nl));
                                        assert(batch_has(out@, ls.update(i as int, nl)));
                                        lemma_stop_removal_site_done(out@, *self, *problem,
                                            i as int, idx as int);
                                    }
                                }
                            },
                            None => {
                                proof {
                                    if certain {
                                        assert(lines_cost(
                                            ls.update(i as int, nl),
                                            problem.track_costs.deep_view(),
                                            problem.n as int,
                                            problem.train_price,
                                        ) > u64::MAX);
                                        lemma_stop_removal_site_done(out@, *self, *problem,
                                            i as int, idx as int);
                                    }
                                }
                            },
                        }
                    } else {
                        proof {
                            assert(!certain);
                        }
                    }
                    idx = idx + 1;
                }
            }
            proof {
                if certain {
                    if rlen >= 3 {
                        lemma_stop_removal_line_done(out@, *self, *problem, i as int, rlen as int);
                    } else {
                        lemma_stop_removal_line_done(out@, *self, *problem, i as int, 0);
                    }
                }
            }
            i = i + 1;
        }
        proof {
            if certain {
                lemma_stop_removals_all_done(out@, *self, *problem, n_lines as int);
            }
        }

        // Increase or decrease the number of trains on a line; a decrease
        // never leaves a line without a train.
        let mut i: usize = 0;
        while i < n_lines
            invariant
                i <= n_lines,
                forall|k: int|
                    0 <= k < out@.len() ==> (#[trigger] out@[k]).wf(*problem) && neighbour_move(
                        out@[k],
                        *self,
                    ),
                certain ==> proposes_every_duplicate(out@, *self, *problem),
                certain ==> proposes_every_line_removal(out@, *self, *problem),
                certain ==> proposes_every_insertion(out@, *self, *problem),
                certain ==> proposes_every_stop_removal(out@, *self, *problem),
                certain ==> proposes_train_changes_upto(out@, *self, *problem, i as int),
            decreases n_lines - i,
        {
            if rng.coin(chance_num, chance_den) {
                let ghost up = LineView {
                    route: ls[i as int].route,
                    ty: ls[i as int].ty,
                    n: (ls[i as int].n + 1) as usize,
                };
                let ghost down = LineView {
                    route: ls[i as int].route,
                    ty: ls[i as int].ty,
                    n: (ls[i as int].n - 1) as usize,
                };
                let ghost out0 = out@;
                if let Some(w) = self.change_train_count(problem, i, true) {
                    proof {
                        assert(w.train_lines.deep_view() =~= ls.update(i as int, up));
                        assert(is_train_count_move(w, *self));
                    }
                    out.push(w);
                    proof {
                        assert(out@ == out0.push(w));
                        if certain {
                            lemma_dup_complete_push(out0, w, *self, *problem);
                            lemma_removal_complete_push(out0, w, *self, *problem);
                            lemma_insertion_complete_push(out0, w, *self, *problem);
                            lemma_stop_removal_complete_push(out0, w, *self, *problem);
                            lemma_train_changes_upto_push(out0, w, *self, *problem, i as int);
                            assert(out@[out@.len() - 1].train_lines.deep_view() == ls.update(
                                i as int,
                                up,
                            ));
                            assert(batch_has(out@, ls.update(i as int, up)));
                        }
                    }
                }
                proof {
                    if certain {
                        // The increase either entered the batch or does not
                        // fit a machine word.
                        assert(ls[i as int].n < usize::MAX && self.cost + problem.train_price
                            <= u64::MAX ==> batch_has(out@, ls.update(i as int, up)));
                    }
                }
                let ghost out1 = out@;
                if self.train_lines[i].n > 1 {
                    if let Some(w) = self.change_train_count(problem, i, false) {
                        proof {
                            assert(w.train_lines.deep_view() =~= ls.update(i as int, down));
                            assert(is_train_count_move(w, *self));
                        }
                        out.push(w);
                        proof {
                            assert(out@ == out1.push(w));
                            if certain {
                                lemma_dup_complete_push(out1, w, *self, *problem);
                                lemma_removal_complete_push(out1, w, *self, *problem);
                                lemma_insertion_complete_push(out1, w, *self, *problem);
                                lemma_stop_removal_complete_push(out1, w, *self, *problem);
                                lemma_train_changes_upto_push(out1, w, *self, *problem, i as int);
                                assert(out@[out@.len() - 1].train_lines.deep_view() == ls.update(
                                    i as int,
                                    down,
                                ));
                                assert(batch_has(out@, ls.update(i as int, down)));
                                if batch_has(out1, ls.update(i as int, up)) {
                                    lemma_batch_has_push(out1, w, ls.update(i as int, up));
                                }
                            }
                        }
                    }
                }
                proof {
                    if certain {
                        assert forall|m: int| 0 <= m < i as int + 1 implies {
                            &&& ((#[trigger] ls[m]).n < usize::MAX && self.cost
                                + problem.train_price <= u64::MAX ==> batch_has(
                                out@,
                                ls.update(
                                    m,
                                    LineView {
                                        route: ls[m].route,
                                        ty: ls[m].ty,
                                        n: (ls[m].n + 1) as usize,
                                    },
                                ),
                            ))
                            &&& (ls[m].n > 1 ==> batch_has(
                                out@,
                                ls.update(
                                    m,
                                    LineView {
                                        route: ls[m].route,
                                        ty: ls[m].ty,
                                        n: (ls[m].n - 1) as usize,
                                    },
                                ),
                            ))
                        } by {}
                        assert(proposes_train_changes_upto(out@, *self, *problem, i as int + 1));
                    }
                }
            } else {
                proof {
                    assert(!certain);
                }
            }
            i = i + 1;
        }
        proof {
            if certain {
                assert(proposes_train_changes_upto(out@, *self, *problem, n_lines as int));
                assert(proposes_every_train_change(out@, *self, *problem));
            }
        }

        // Change the schedule style of a line.
        let mut i: usize = 0;
        while i < n_lines
            invariant
                i <= n_lines,
                forall|k: int|
                    0 <= k < out@.len() ==> (#[trigger] out@[k]).wf(*problem) && neighbour_move(
                        out@[k],
                        *self,
                    ),
                certain ==> proposes_every_duplicate(out@, *self, *problem),
                certain ==> proposes_every_line_removal(out@, *self, *problem),
                certain ==> proposes_every_insertion(out@, *self, *problem),
                certain ==> proposes_every_stop_removal(out@, *self, *problem),
                certain ==> proposes_every_train_change(out@, *self, *problem),
                certain ==> (forall|m: int|
                    #![trigger ls[m]]
                    0 <= m < i && lines_cost(
                        ls.update(m, self.toggled_line(m)),
                        problem.track_costs.deep_view(),
                        problem.n as int,
                        problem.train_price,
                    ) <= u64::MAX ==> batch_has(out@, ls.update(m, self.toggled_line(m)))),
            decreases n_lines - i,
        {
            if rng.coin(chance_num, chance_den) {
                let ghost out0 = out@;
                match self.change_schedule_type(problem, i) {
                    Some(w) => {
                        proof {
                            assert(w.train_lines.deep_view() =~= ls.update(
                                i as int,
                                self.toggled_line(i as int),
                            ));
                            assert(is_change_type_move(w, *self));
                        }
                        out.push(w);
                        proof {
                            assert(out@ == out0.push(w));
                            if certain {
                                lemma_dup_complete_push(out0, w, *self, *problem);
                                lemma_removal_complete_push(out0, w, *self, *problem);
                                lemma_insertion_complete_push(out0, w, *self, *problem);
                                lemma_stop_removal_complete_push(out0, w, *self, *problem);
                                lemma_train_change_complete_push(out0, w, *self, *problem);
                                assert forall|m: int|
                                    0 <= m < i as int + 1 && lines_cost(
                                        ls.update(m, self.toggled_line(m)),
                                        problem.track_costs.deep_view(),
                                        problem.n as int,
                                        problem.train_price,
                                    ) <= u64::MAX implies batch_has(
                                    out@,
                                    ls.update(m, self.toggled_line(m)),
                                ) by {
                                    assert(ls[m] == ls[m]);
                                    if m < i as int {
                                        lemma_batch_has_push(out0, w,
                                            ls.update(m, self.toggled_line(m)));
                                    } else {
                                        assert(out@[out@.len() - 1].train_lines.deep_view()
                                            == ls.update(i as int, self.toggled_line(i as int)));
                                    }
                                }
                            }
                        }
                    },
                    None => {},
                }
            } else {
                proof {
                    assert(!certain);
                }
            }
            i = i + 1;
        }
        proof {
            if certain {
                assert(proposes_every_toggle(out@, *self, *problem));
            }
        }
        out
    }
}

/// If a partial required-track sum plus one more track already overflows,
/// the whole from-scratch cost is beyond `u64::MAX`.
proof fn lemma_calc_cost_exceeds(
    req: Seq<Seq<bool>>,
    costs: Seq<Seq<u64>>,
    ls: Seq<LineView>,
    n: int,
    price: u64,
    i: int,
    j: int,
    acc: int,
)
    requires
        0 <= i < n,
        i < j < n,
        req == required_matrix(ls, n),
        req[i][j],
        acc == built_cost_sum_upto(req, costs, n, i) + row_cost_sum(req, costs, i, j),
        acc + costs[i][j] > u64::MAX,
    ensures
        lines_cost(ls, costs, n, price) > u64::MAX,
{
    assert(acc + track_pair_cost(req, costs, i, j) > u64::MAX);
    assert(built_cost_sum_upto(req, costs, n, i) + row_cost_sum(req, costs, i, j + 1) > u64::MAX);
    crate::problem::lemma_row_cost_sum_monotone(req, costs, i, j + 1, n);
    assert(built_cost_sum_upto(req, costs, n, i + 1) > u64::MAX);
    lemma_built_cost_sum_upto_monotone(req, costs, n, i + 1, n);
    lemma_total_trains_nonneg(ls);
    lemma_mul_nonnegative(total_trains(ls), price as int);
}

/// If a partial from-scratch cost plus one line's train prices already
/// overflows, the whole from-scratch cost is beyond `u64::MAX`.
proof fn lemma_calc_trains_exceeds(
    req: Seq<Seq<bool>>,
    costs: Seq<Seq<u64>>,
    ls: Seq<LineView>,
    n: int,
    price: u64,
    k: int,
    acc: int,
)
    requires
        0 <= k < ls.len(),
        req == required_matrix(ls, n),
        acc == built_cost_sum(req, costs, n) + total_trains(ls.take(k)) * price,
        acc + ls[k].n * price > u64::MAX,
    ensures
        lines_cost(ls, costs, n, price) > u64::MAX,
{
    lemma_total_trains_take(ls, k);
    lemma_mul_is_distributive_add_other_way(price as int, total_trains(ls.take(k)), ls[k].n as int);
    lemma_total_trains_take_le(ls, k + 1);
    lemma_mul_inequality(total_trains(ls.take(k + 1)), total_trains(ls), price as int);
}

} // verus!
