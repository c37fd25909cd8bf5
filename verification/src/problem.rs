//! Core data model: a `Problem` describes a train routing instance, a
//! `TrainLine` is one serviced route, and a `Solution` is what the solver
//! returns. All money and time quantities are unsigned integers; matrices
//! are square, symmetric and zero on the diagonal.

use vstd::arithmetic::mul::lemma_mul_inequality;
use vstd::arithmetic::mul::lemma_mul_is_distributive_add_other_way;
use vstd::arithmetic::mul::lemma_mul_nonnegative;
use vstd::prelude::*;

verus! {

/// How a train follows its route:
///
/// - `Circular` means it goes back to the first station after the last one,
///   so the wrap segment between the route's ends is also travelled;
/// - `Bidirectional` means it runs the route forward and backward, with no
///   wrap segment.
#[derive(Debug, Clone, Copy, PartialEq, Eq, Structural)]
pub enum ScheduleType {
    Circular,
    Bidirectional,
}

/// A train line: the stations it visits in order, how the route is
/// traversed, and how many trains serve it.
#[derive(Debug, PartialEq, Eq)]
pub struct TrainLine {
    /// The stations this line visits, in schedule order; all distinct.
    pub route: Vec<usize>,
    /// How the train follows this route.
    pub ty: ScheduleType,
    /// The number of trains that use this line; at least one.
    pub n: usize,
}

/// The mathematical value of a `TrainLine`: the route as a sequence.
pub struct LineView {
    pub route: Seq<usize>,
    pub ty: ScheduleType,
    pub n: usize,
}

impl View for TrainLine {
    type V = LineView;

    open spec fn view(&self) -> LineView {
        LineView { route: self.route@, ty: self.ty, n: self.n }
    }
}

impl DeepView for TrainLine {
    type V = LineView;

    open spec fn deep_view(&self) -> LineView {
        self.view()
    }
}

/// A line is well formed for a problem with `n` stations when its route
/// visits at least two distinct stations, all below `n`, and at least one
/// train serves it.
pub open spec fn line_wf(l: LineView, n: int) -> bool {
    &&& 2 <= l.route.len()
    &&& forall|i: int| 0 <= i < l.route.len() ==> l.route[i] < n
    &&& forall|i: int, j: int| 0 <= i < j < l.route.len() ==> l.route[i] != l.route[j]
    &&& l.n >= 1
}

/// Every line in the list is well formed for `n` stations.
pub open spec fn lines_wf(ls: Seq<LineView>, n: int) -> bool {
    forall|k: int| 0 <= k < ls.len() ==> line_wf(#[trigger] ls[k], n)
}

/// Every consecutive stop pair a line implies, in schedule order; for a
/// `Circular` line this includes the wrap pair joining the route's ends.
/// This is the single source of truth for which tracks a line requires.
pub open spec fn line_tracks(l: LineView) -> Seq<(usize, usize)> {
    let along = Seq::new((l.route.len() - 1) as nat, |i: int| (l.route[i], l.route[i + 1]));
    if l.ty == ScheduleType::Circular {
        along.push((l.route[0], l.route[l.route.len() - 1]))
    } else {
        along
    }
}

/// Whether an unordered station pair `{a, b}` is the pair `p`.
pub open spec fn pair_connects(p: (usize, usize), a: int, b: int) -> bool {
    (p.0 == a && p.1 == b) || (p.0 == b && p.1 == a)
}

/// Whether line `l` requires the track between stations `a` and `b`.
pub open spec fn line_uses_track(l: LineView, a: int, b: int) -> bool {
    exists|k: int| 0 <= k < line_tracks(l).len() && pair_connects(#[trigger] line_tracks(l)[k], a, b)
}

/// Whether some line in `ls` requires the track between `a` and `b`.
pub open spec fn lines_use_track(ls: Seq<LineView>, a: int, b: int) -> bool {
    exists|k: int| 0 <= k < ls.len() && line_uses_track(#[trigger] ls[k], a, b)
}

/// A square symmetric matrix of side `n` with a zero diagonal.
pub open spec fn matrix_wf(m: Seq<Seq<u64>>, n: int) -> bool {
    &&& m.len() == n
    &&& forall|i: int| 0 <= i < n ==> (#[trigger] m[i]).len() == n
    &&& forall|i: int, j: int| 0 <= i < n && 0 <= j < n ==> #[trigger] m[i][j] == m[j][i]
    &&& forall|i: int| 0 <= i < n ==> #[trigger] m[i][i] == 0
}

/// A square boolean matrix of side `n`.
pub open spec fn bool_matrix_sized(m: Seq<Seq<bool>>, n: int) -> bool {
    m.len() == n && forall|i: int| 0 <= i < n ==> (#[trigger] m[i]).len() == n
}

/// A description of a train routing problem.
#[derive(Debug, PartialEq, Eq)]
pub struct Problem {
    /// The number of stations.
    pub n: usize,
    /// Symmetric matrix: the cost to build a track between two stations.
    pub track_costs: Vec<Vec<u64>>,
    /// Symmetric matrix: the time to travel between two stations, once a
    /// track is built.
    pub track_times: Vec<Vec<u64>>,
    /// Symmetric matrix: how often commuters travel between two stations.
    pub travel_frequencies: Vec<Vec<u64>>,
    /// The price per train.
    pub train_price: u64,
    /// The total amount of money that can be allocated.
    pub total_budget: u64,
}

impl Problem {
    /// A valid instance: at least two stations, and all three matrices are
    /// square of side `n`, symmetric, with zero diagonal.
    pub open spec fn wf(&self) -> bool {
        &&& self.n >= 2
        &&& matrix_wf(self.track_costs.deep_view(), self.n as int)
        &&& matrix_wf(self.track_times.deep_view(), self.n as int)
        &&& matrix_wf(self.travel_frequencies.deep_view(), self.n as int)
    }
}

/// The construction cost of the built track `(i, j)`: the track's cost if it
/// is built, zero otherwise.
pub open spec fn track_pair_cost(built: Seq<Seq<bool>>, costs: Seq<Seq<u64>>, i: int, j: int) -> int {
    if built[i][j] {
        costs[i][j] as int
    } else {
        0
    }
}

/// Sum of the built track costs in row `i`, over columns `i + 1 .. j`.
pub open spec fn row_cost_sum(built: Seq<Seq<bool>>, costs: Seq<Seq<u64>>, i: int, j: int) -> int
    decreases j - i,
{
    if j <= i + 1 {
        0
    } else {
        row_cost_sum(built, costs, i, j - 1) + track_pair_cost(built, costs, i, j - 1)
    }
}

/// Sum of the built track costs over all pairs `(i, j)` with
/// `0 <= i < j < n` and `i < r`: each unordered pair counted once.
pub open spec fn built_cost_sum_upto(
    built: Seq<Seq<bool>>,
    costs: Seq<Seq<u64>>,
    n: int,
    r: int,
) -> int
    decreases r,
{
    if r <= 0 {
        0
    } else {
        built_cost_sum_upto(built, costs, n, r - 1) + row_cost_sum(built, costs, r - 1, n)
    }
}

/// The total construction cost of a built track matrix: the cost of every
/// built pair `(i, j)` with `i < j`, counted once.
pub open spec fn built_cost_sum(built: Seq<Seq<bool>>, costs: Seq<Seq<u64>>, n: int) -> int {
    built_cost_sum_upto(built, costs, n, n)
}

/// The total number of trains over a set of lines.
pub open spec fn total_trains(ls: Seq<LineView>) -> int
    decreases ls.len(),
{
    if ls.len() == 0 {
        0
    } else {
        total_trains(ls.drop_last()) + ls.last().n
    }
}

/// The money a network needs: the construction cost of its built tracks plus
/// the price of all its trains.
pub open spec fn network_cost(
    built: Seq<Seq<bool>>,
    lines: Seq<LineView>,
    costs: Seq<Seq<u64>>,
    n: int,
    price: u64,
) -> int {
    built_cost_sum(built, costs, n) + total_trains(lines) * price
}

/// The deep view of a boolean matrix indexes like the matrix itself.
pub proof fn lemma_bool_matrix_view(m: &Vec<Vec<bool>>)
    ensures
        m.deep_view().len() == m@.len(),
        forall|i: int| 0 <= i < m@.len() ==> #[trigger] m.deep_view()[i] == m@[i]@,
{
    assert forall|i: int| 0 <= i < m@.len() implies #[trigger] m.deep_view()[i] == m@[i]@ by {
        assert(m.deep_view()[i] =~= m@[i]@);
    }
}

/// The deep view of a numeric matrix indexes like the matrix itself.
pub proof fn lemma_u64_matrix_view(m: &Vec<Vec<u64>>)
    ensures
        m.deep_view().len() == m@.len(),
        forall|i: int| 0 <= i < m@.len() ==> #[trigger] m.deep_view()[i] == m@[i]@,
{
    assert forall|i: int| 0 <= i < m@.len() implies #[trigger] m.deep_view()[i] == m@[i]@ by {
        assert(m.deep_view()[i] =~= m@[i]@);
    }
}

/// The deep view of a line list indexes like the list itself.
pub proof fn lemma_lines_view(v: &Vec<TrainLine>)
    ensures
        v.deep_view().len() == v@.len(),
        forall|i: int| 0 <= i < v@.len() ==> #[trigger] v.deep_view()[i] == v@[i]@,
{
}

/// Whether a matrix is square of side `n`, symmetric, with a zero diagonal.
#[verifier::loop_isolation(false)]
pub fn matrix_valid(m: &Vec<Vec<u64>>, n: usize) -> (r: bool)
    ensures
        r == matrix_wf(m.deep_view(), n as int),
{
    proof {
        lemma_u64_matrix_view(m);
    }
    let ghost mv = m.deep_view();
    if m.len() != n {
        return false;
    }
    let mut i: usize = 0;
    while i < n
        invariant
            i <= n,
            forall|a: int| 0 <= a < i ==> (#[trigger] mv[a]).len() == n,
        decreases n - i,
    {
        if m[i].len() != n {
            proof {
                assert(mv[i as int].len() != n);
            }
            return false;
        }
        i = i + 1;
    }
    let mut a: usize = 0;
    while a < n
        invariant
            a <= n,
            forall|x: int| 0 <= x < n ==> (#[trigger] mv[x]).len() == n,
            forall|x: int, y: int| 0 <= x < a && 0 <= y < n ==> #[trigger] mv[x][y] == mv[y][x],
            forall|x: int| 0 <= x < a ==> #[trigger] mv[x][x] == 0,
        decreases n - a,
    {
        if mat_at(m, a, a) != 0 {
            return false;
        }
        let mut b: usize = 0;
        while b < n
            invariant
                a < n,
                b <= n,
                forall|x: int, y: int| 0 <= x < a && 0 <= y < n ==> #[trigger] mv[x][y] == mv[y][x],
                forall|y: int| 0 <= y < b ==> #[trigger] mv[a as int][y] == mv[y][a as int],
            decreases n - b,
        {
            if mat_at(m, a, b) != mat_at(m, b, a) {
                return false;
            }
            b = b + 1;
        }
        a = a + 1;
    }
    true
}

impl Problem {
    /// Whether this description is a valid instance: everything `wf` asks.
    pub fn is_valid(&self) -> (r: bool)
        ensures
            r == self.wf(),
    {
        self.n >= 2 && matrix_valid(&self.track_costs, self.n) && matrix_valid(
            &self.track_times,
            self.n,
        ) && matrix_valid(&self.travel_frequencies, self.n)
    }
}

/// Read one entry of a numeric matrix.
pub fn mat_at(m: &Vec<Vec<u64>>, i: usize, j: usize) -> (r: u64)
    requires
        i < m.deep_view().len(),
        j < m.deep_view()[i as int].len(),
    ensures
        r == m.deep_view()[i as int][j as int],
{
    proof {
        lemma_u64_matrix_view(m);
    }
    m[i][j]
}

/// Read one entry of a boolean matrix.
pub fn bmat_at(m: &Vec<Vec<bool>>, i: usize, j: usize) -> (r: bool)
    requires
        i < m.deep_view().len(),
        j < m.deep_view()[i as int].len(),
    ensures
        r == m.deep_view()[i as int][j as int],
{
    proof {
        lemma_bool_matrix_view(m);
    }
    m[i][j]
}

/// Widening a row sum to more columns never shrinks it: every summand is a
/// construction cost, hence non-negative.
pub proof fn lemma_row_cost_sum_monotone(
    built: Seq<Seq<bool>>,
    costs: Seq<Seq<u64>>,
    i: int,
    j1: int,
    j2: int,
)
    requires
        j1 <= j2,
    ensures
        row_cost_sum(built, costs, i, j1) <= row_cost_sum(built, costs, i, j2),
    decreases j2 - j1,
{
    if j1 < j2 {
        lemma_row_cost_sum_monotone(built, costs, i, j1, j2 - 1);
    }
}

/// A row sum is never negative.
pub proof fn lemma_row_cost_sum_nonneg(built: Seq<Seq<bool>>, costs: Seq<Seq<u64>>, i: int, j: int)
    ensures
        0 <= row_cost_sum(built, costs, i, j),
{
    if j <= i + 1 {
        lemma_row_cost_sum_monotone(built, costs, i, j, i + 1);
    } else {
        lemma_row_cost_sum_monotone(built, costs, i, i + 1, j);
    }
}

/// Taking more rows into the track cost sum never shrinks it.
pub proof fn lemma_built_cost_sum_upto_monotone(
    built: Seq<Seq<bool>>,
    costs: Seq<Seq<u64>>,
    n: int,
    r1: int,
    r2: int,
)
    requires
        r1 <= r2,
    ensures
        built_cost_sum_upto(built, costs, n, r1) <= built_cost_sum_upto(built, costs, n, r2),
    decreases r2 - r1,
{
    if r1 < r2 {
        lemma_built_cost_sum_upto_monotone(built, costs, n, r1, r2 - 1);
        lemma_row_cost_sum_nonneg(built, costs, r2 - 1, n);
    }
}

/// The trains of the first `k + 1` lines are the trains of the first `k`
/// plus those of line `k`.
pub proof fn lemma_total_trains_take(s: Seq<LineView>, k: int)
    requires
        0 <= k < s.len(),
    ensures
        total_trains(s.take(k + 1)) == total_trains(s.take(k)) + s[k].n,
{
    assert(s.take(k + 1).drop_last() =~= s.take(k));
    assert(s.take(k + 1).last() == s[k]);
}

/// A total train count is never negative.
pub proof fn lemma_total_trains_nonneg(s: Seq<LineView>)
    ensures
        0 <= total_trains(s),
    decreases s.len(),
{
    if s.len() > 0 {
        lemma_total_trains_nonneg(s.drop_last());
    }
}

/// A prefix of the lines has no more trains than all of them.
pub proof fn lemma_total_trains_take_le(s: Seq<LineView>, k: int)
    requires
        0 <= k <= s.len(),
    ensures
        total_trains(s.take(k)) <= total_trains(s),
    decreases s.len() - k,
{
    if k < s.len() {
        lemma_total_trains_take(s, k);
        lemma_total_trains_take_le(s, k + 1);
    } else {
        assert(s.take(k) =~= s);
    }
}

/// The solver's answer to a problem: which tracks are built, which lines run,
/// and the objective value the evaluator assigned to those lines (lower is
/// better).
#[derive(Debug, PartialEq, Eq)]
pub struct Solution {
    /// A symmetric matrix showing which tracks are built.
    pub built_tracks: Vec<Vec<bool>>,
    /// The train lines that run on the network.
    pub train_lines: Vec<TrainLine>,
    /// The demand-weighted total travel time of the network.
    pub obj_value: u64,
}

impl Solution {
    /// The cost formula for this solution against `problem`: built track
    /// construction costs (each unordered pair once) plus train prices.
    pub open spec fn spec_cost(&self, problem: Problem) -> int {
        network_cost(
            self.built_tracks.deep_view(),
            self.train_lines.deep_view(),
            problem.track_costs.deep_view(),
            problem.n as int,
            problem.train_price,
        )
    }

    /// Calculate the cost of a solution, or `None` when it does not fit in a
    /// machine word (such a cost can never be within any budget).
    #[verifier::loop_isolation(false)]
    pub fn cost_checked(&self, problem: &Problem) -> (r: Option<u64>)
        requires
            problem.wf(),
            bool_matrix_sized(self.built_tracks.deep_view(), problem.n as int),
        ensures
            match r {
                Some(c) => c == self.spec_cost(*problem),
                None => self.spec_cost(*problem) > u64::MAX,
            },
    {
        let ghost built = self.built_tracks.deep_view();
        let ghost costs = problem.track_costs.deep_view();
        let ghost lines = self.train_lines.deep_view();
        let ghost n_spec = problem.n as int;
        proof {
            lemma_bool_matrix_view(&self.built_tracks);
            lemma_u64_matrix_view(&problem.track_costs);
            lemma_lines_view(&self.train_lines);
        }
        let n = problem.n;
        let mut acc: u64 = 0;
        let mut i: usize = 0;
        while i < n
            invariant
                i <= n,
                acc == built_cost_sum_upto(built, costs, n_spec, i as int),
            decreases n - i,
        {
            let mut j: usize = i + 1;
            while j < n
                invariant
                    i < j <= n,
                    acc == built_cost_sum_upto(built, costs, n_spec, i as int) + row_cost_sum(
                        built,
                        costs,
                        i as int,
                        j as int,
                    ),
                decreases n - j,
            {
                if bmat_at(&self.built_tracks, i, j) {
                    let c = mat_at(&problem.track_costs, i, j);
                    match acc.checked_add(c) {
                        Some(a) => {
                            acc = a;
                        },
                        None => {
                            proof {
                                lemma_cost_exceeds(built, costs, lines, n_spec,
                                    problem.train_price, i as int, j as int, acc as int);
                            }
                            return None;
                        },
                    }
                }
                j = j + 1;
            }
            i = i + 1;
        }
        proof {
            lemma_total_trains_nonneg(lines);
        }
        let ghost track_part = built_cost_sum(built, costs, n_spec);
        let price = problem.train_price;
        let mut k: usize = 0;
        while k < self.train_lines.len()
            invariant
                k <= self.train_lines.len(),
                acc == track_part + total_trains(lines.take(k as int)) * price,
            decreases self.train_lines.len() - k,
        {
            proof {
                lemma_total_trains_take(lines, k as int);
                lemma_total_trains_take_le(lines, k as int + 1);
                lemma_total_trains_nonneg(lines.take(k as int));
            }
            let trains: u64 = self.train_lines[k].n as u64;
            assert(trains == lines[k as int].n);
            let term = match trains.checked_mul(price) {
                Some(t) => t,
                None => {
                    proof {
                        lemma_trains_cost_exceeds(built, costs, lines, n_spec, price, k as int,
                            acc as int);
                    }
                    return None;
                },
            };
            acc = match acc.checked_add(term) {
                Some(a) => a,
                None => {
                    proof {
                        lemma_trains_cost_exceeds(built, costs, lines, n_spec, price, k as int,
                            acc as int);
                    }
                    return None;
                },
            };
            proof {
                lemma_mul_is_distributive_add_other_way(
                    price as int,
                    total_trains(lines.take(k as int)),
                    lines[k as int].n as int,
                );
            }
            k = k + 1;
        }
        proof {
            assert(lines.take(lines.len() as int) =~= lines);
        }
        Some(acc)
    }

    /// Calculate the cost of a solution: built track construction costs plus
    /// the price of every train on every line.
    pub fn cost(&self, problem: &Problem) -> (r: u64)
        requires
            problem.wf(),
            bool_matrix_sized(self.built_tracks.deep_view(), problem.n as int),
            self.spec_cost(*problem) <= u64::MAX,
        ensures
            r == self.spec_cost(*problem),
    {
        match self.cost_checked(problem) {
            Some(c) => c,
            None => {
                proof {
                    assert(false);
                }
                0
            },
        }
    }

    /// A solution is feasible exactly when its cost is within the problem's
    /// total budget.
    pub fn check_feasibility(&self, problem: &Problem) -> (r: bool)
        requires
            problem.wf(),
            bool_matrix_sized(self.built_tracks.deep_view(), problem.n as int),
        ensures
            r == (self.spec_cost(*problem) <= problem.total_budget as int),
    {
        match self.cost_checked(problem) {
            Some(c) => c <= problem.total_budget,
            None => false,
        }
    }
}

/// If a partial track sum plus one more built track already overflows, the
/// whole cost formula is beyond `u64::MAX`.
proof fn lemma_cost_exceeds(
    built: Seq<Seq<bool>>,
    costs: Seq<Seq<u64>>,
    lines: Seq<LineView>,
    n: int,
    price: u64,
    i: int,
    j: int,
    acc: int,
)
    requires
        0 <= i < n,
        i < j < n,
        built[i][j],
        acc == built_cost_sum_upto(built, costs, n, i) + row_cost_sum(built, costs, i, j),
        acc + costs[i][j] > u64::MAX,
    ensures
        network_cost(built, lines, costs, n, price) > u64::MAX,
{
    assert(acc + track_pair_cost(built, costs, i, j) > u64::MAX);
    assert(built_cost_sum_upto(built, costs, n, i) + row_cost_sum(built, costs, i, j + 1)
        > u64::MAX);
    lemma_row_cost_sum_monotone(built, costs, i, j + 1, n);
    assert(built_cost_sum_upto(built, costs, n, i + 1) > u64::MAX);
    lemma_built_cost_sum_upto_monotone(built, costs, n, i + 1, n);
    lemma_total_trains_nonneg(lines);
    lemma_mul_nonnegative(total_trains(lines), price as int);
}

/// If a partial cost plus one line's train prices already overflows, the
/// whole cost formula is beyond `u64::MAX`.
proof fn lemma_trains_cost_exceeds(
    built: Seq<Seq<bool>>,
    costs: Seq<Seq<u64>>,
    lines: Seq<LineView>,
    n: int,
    price: u64,
    k: int,
    acc: int,
)
    requires
        0 <= k < lines.len(),
        acc == built_cost_sum(built, costs, n) + total_trains(lines.take(k)) * price,
        acc + lines[k].n * price > u64::MAX,
    ensures
        network_cost(built, lines, costs, n, price) > u64::MAX,
{
    lemma_total_trains_take(lines, k);
    lemma_mul_is_distributive_add_other_way(
        price as int,
        total_trains(lines.take(k)),
        lines[k].n as int,
    );
    lemma_total_trains_take_le(lines, k + 1);
    lemma_mul_inequality(total_trains(lines.take(k + 1)), total_trains(lines), price as int);
}

} // verus!
