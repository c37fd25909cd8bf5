//! Evaluates a candidate set of train lines by simulating commuter flow.
//!
//! For every origin station, a best-first search runs over rider states
//! (station, line, direction, switched-already) with non-negative move costs:
//! riding to the next scheduled stop costs that segment's travel time, and
//! switching lines once costs the target line's expected wait. The first time
//! a destination station pops it carries its least journey time, which is
//! recorded symmetrically for the pair; that minimality is proved against
//! the commuter model spelled out in `journey_reaches`. Station pairs never
//! reached keep a large finite penalty, so the objective stays finite. The
//! objective is the demand-weighted sum of the recorded pairwise times, each
//! unordered pair counted once, so it is a pure function of the problem and
//! the lines (`lemma_objective_unique`).

use crate::heap::{heap_entries, heap_new, heap_pop, heap_push, heap_top};
use crate::problem::{
    lemma_lines_view, lemma_u64_matrix_view, line_wf, lines_wf, mat_at, LineView, Problem,
    ScheduleType, TrainLine,
};
use vstd::multiset::Multiset;
use vstd::prelude::*;

verus! {

/// The direction a simulated train is currently travelling in.
#[derive(Debug, Clone, Copy, PartialEq, Eq, Structural)]
pub enum TravelDirection {
    Forward,
    Backward,
}

/// A rider state in the best-first search: where the rider is, which line it
/// is on and in which direction, how far it has travelled, and whether it has
/// already switched lines (at most one switch is allowed per journey).
#[derive(Debug, Clone, Copy, PartialEq, Eq, Structural)]
pub struct QueueNode {
    /// The station that this state is at.
    pub station: usize,
    /// The train line that this state is riding.
    pub train: usize,
    /// The travel time accumulated so far.
    pub score: u64,
    /// The direction the train this state is on is moving in.
    pub direction: TravelDirection,
    /// The position of the current station in the line's route.
    pub train_schedule_progress: usize,
    /// Whether the rider has already switched lines once.
    pub has_switched: bool,
}

/// Large finite penalty time for a pair of stations the network never
/// connects: heavy, but not infinite, so the objective stays a usable
/// fitness signal.
pub const UNREACHED_TIME: u64 = 10_000_000_000;

/// An ideal quantity clamped into a machine word, as the saturating
/// operations leave it.
pub open spec fn sat64(x: int) -> int {
    if x > u64::MAX {
        u64::MAX as int
    } else if x < 0 {
        0
    } else {
        x
    }
}

/// The time to ride the first `k` consecutive segments of a line's route.
pub open spec fn line_route_time(l: LineView, times: Seq<Seq<u64>>, k: int) -> int
    decreases k,
{
    if k <= 0 {
        0
    } else {
        line_route_time(l, times, k - 1) + times[l.route[k - 1] as int][l.route[k] as int]
    }
}

/// The time of one full cycle of a line: all consecutive segments, plus the
/// wrap segment for a circular line.
pub open spec fn line_cycle_time(l: LineView, times: Seq<Seq<u64>>) -> int {
    line_route_time(l, times, l.route.len() - 1) + if l.ty == ScheduleType::Circular {
        times[l.route[0] as int][l.route[l.route.len() - 1] as int] as int
    } else {
        0
    }
}

/// The expected wait when switching onto a line: half its cycle time divided
/// by its train count, the cycle time clamped to a machine word first.
pub open spec fn line_delay(l: LineView, times: Seq<Seq<u64>>) -> int {
    sat64(line_cycle_time(l, times)) / 2 / (l.n as int)
}

/// A route time is never negative.
proof fn lemma_line_route_time_nonneg(l: LineView, times: Seq<Seq<u64>>, k: int)
    ensures
        0 <= line_route_time(l, times, k),
    decreases k,
{
    if k > 0 {
        lemma_line_route_time_nonneg(l, times, k - 1);
    }
}

/// The expected wait time of every line, computed once per evaluation.
#[verifier::loop_isolation(false)]
pub fn train_delays(problem: &Problem, lines: &Vec<TrainLine>) -> (r: Vec<u64>)
    requires
        problem.wf(),
        lines_wf(lines.deep_view(), problem.n as int),
    ensures
        r@.len() == lines.deep_view().len(),
        forall|k: int|
            0 <= k < r@.len() ==> #[trigger] r@[k] as int == line_delay(
                lines.deep_view()[k],
                problem.track_times.deep_view(),
            ),
{
    proof {
        lemma_lines_view(lines);
    }
    let ghost times = problem.track_times.deep_view();
    let mut r: Vec<u64> = Vec::new();
    let mut t: usize = 0;
    while t < lines.len()
        invariant
            t <= lines.len(),
            r@.len() == t,
            forall|k: int|
                0 <= k < t ==> #[trigger] r@[k] as int == line_delay(lines.deep_view()[k], times),
        decreases lines.len() - t,
    {
        let line = &lines[t];
        let ghost lv = lines.deep_view()[t as int];
        proof {
            assert(line_wf(lv, problem.n as int));
        }
        let rlen = line.route.len();
        let mut total: u64 = 0;
        let mut k: usize = 0;
        while k < rlen - 1
            invariant
                k < rlen,
                total as int == sat64(line_route_time(lv, times, k as int)),
            decreases rlen - 1 - k,
        {
            proof {
                lemma_line_route_time_nonneg(lv, times, k as int);
            }
            let w = mat_at(&problem.track_times, line.route[k], line.route[k + 1]);
            total = total.saturating_add(w);
            k = k + 1;
        }
        if line.ty == ScheduleType::Circular {
            proof {
                lemma_line_route_time_nonneg(lv, times, rlen - 1 as int);
            }
            let w = mat_at(&problem.track_times, line.route[0], line.route[rlen - 1]);
            total = total.saturating_add(w);
        }
        let delay = total / 2 / (line.n as u64);
        assert(delay as int == line_delay(lv, times));
        r.push(delay);
        t = t + 1;
    }
    r
}

/// A square matrix of side `n` whose entries are symmetric.
pub open spec fn sym_sized(m: Seq<Seq<u64>>, n: int) -> bool {
    &&& m.len() == n
    &&& forall|i: int| 0 <= i < n ==> (#[trigger] m[i]).len() == n
    &&& forall|i: int, j: int| 0 <= i < n && 0 <= j < n ==> #[trigger] m[i][j] == m[j][i]
}

/// Write one entry of a numeric matrix.
pub fn mat_set(m: &mut Vec<Vec<u64>>, i: usize, j: usize, v: u64)
    requires
        i < old(m).deep_view().len(),
        j < old(m).deep_view()[i as int].len(),
    ensures
        final(m).deep_view() == old(m).deep_view().update(
            i as int,
            old(m).deep_view()[i as int].update(j as int, v),
        ),
{
    proof {
        lemma_u64_matrix_view(m);
    }
    let ghost before = m.deep_view();
    m[i][j] = v;
    proof {
        lemma_u64_matrix_view(m);
        assert(m.deep_view() =~= before.update(i as int, before[i as int].update(j as int, v)));
    }
}

/// A rider state that indexes safely into the problem and its lines.
pub open spec fn node_wf(nd: QueueNode, ls: Seq<LineView>, n: int) -> bool {
    &&& nd.station < n
    &&& nd.train < ls.len()
    &&& nd.train_schedule_progress < ls[nd.train as int].route.len()
}

/// The route position after one ride along a line: one step forward or
/// backward, wrapping at the route's ends.
pub open spec fn next_position(l: LineView, dir: TravelDirection, p: int) -> int {
    match dir {
        TravelDirection::Forward => if p + 1 < l.route.len() {
            p + 1
        } else {
            0
        },
        TravelDirection::Backward => if p > 0 {
            p - 1
        } else {
            l.route.len() - 1
        },
    }
}

/// A rider state stands on a line at a station: its position names that
/// station on the route, and only a bidirectional line is ridden backward.
pub open spec fn boards(ls: Seq<LineView>, nd: QueueNode) -> bool {
    &&& nd.train < ls.len()
    &&& nd.train_schedule_progress < ls[nd.train as int].route.len()
    &&& ls[nd.train as int].route[nd.train_schedule_progress as int] == nd.station
    &&& nd.direction == TravelDirection::Backward ==> ls[nd.train as int].ty
        == ScheduleType::Bidirectional
}

/// One ride to the next scheduled stop: same line, same direction, the same
/// switch budget, and the accumulated time grows by that segment's travel
/// time (clamped to a machine word).
pub open spec fn ride_step(
    tm: Seq<Seq<u64>>,
    ls: Seq<LineView>,
    prev: QueueNode,
    nd: QueueNode,
) -> bool {
    &&& prev.train < ls.len()
    &&& prev.train_schedule_progress < ls[prev.train as int].route.len()
    &&& nd.train == prev.train
    &&& nd.direction == prev.direction
    &&& nd.has_switched == prev.has_switched
    &&& nd.train_schedule_progress == next_position(
        ls[prev.train as int],
        prev.direction,
        prev.train_schedule_progress as int,
    )
    &&& nd.station == ls[prev.train as int].route[nd.train_schedule_progress as int]
    &&& nd.score as int == sat64(prev.score + tm[prev.station as int][nd.station as int])
}

/// One switch onto a different line at the same station, paying that line's
/// expected wait; it spends the journey's single switch.
pub open spec fn switch_step(
    tm: Seq<Seq<u64>>,
    ls: Seq<LineView>,
    prev: QueueNode,
    nd: QueueNode,
) -> bool {
    &&& !prev.has_switched
    &&& nd.has_switched
    &&& nd.station == prev.station
    &&& nd.train != prev.train
    &&& boards(ls, nd)
    &&& nd.score as int == sat64(prev.score + line_delay(ls[nd.train as int], tm))
}

/// A journey's starting state: boarding some line at the origin at no cost,
/// the single switch still unspent.
pub open spec fn journey_base(ls: Seq<LineView>, origin: int, nd: QueueNode) -> bool {
    nd.score == 0 && nd.station == origin && !nd.has_switched && boards(ls, nd)
}

/// A rider state the commuter model reaches from `origin` within `steps`
/// moves: board some line at the origin at no cost, then ride segment by
/// segment, switching lines at most once.
pub open spec fn journey_reaches(
    tm: Seq<Seq<u64>>,
    ls: Seq<LineView>,
    origin: int,
    nd: QueueNode,
    steps: nat,
) -> bool
    decreases steps,
{
    if steps == 0 {
        journey_base(ls, origin, nd)
    } else {
        ||| journey_reaches(tm, ls, origin, nd, (steps - 1) as nat)
        ||| exists|prev: QueueNode|
            #![trigger ride_step(tm, ls, prev, nd)]
            #![trigger switch_step(tm, ls, prev, nd)]
            journey_reaches(tm, ls, origin, prev, (steps - 1) as nat) && (ride_step(tm, ls, prev, nd)
                || switch_step(tm, ls, prev, nd))
    }
}

/// A rider state the commuter model reaches from `origin` in some number of
/// moves.
pub open spec fn is_journey_state(
    tm: Seq<Seq<u64>>,
    ls: Seq<LineView>,
    origin: int,
    nd: QueueNode,
) -> bool {
    exists|steps: nat| #[trigger] journey_reaches(tm, ls, origin, nd, steps)
}

/// Some journey of the commuter model runs from `origin` to `dest` with
/// accumulated time `t`.
pub open spec fn journey_time(
    tm: Seq<Seq<u64>>,
    ls: Seq<LineView>,
    origin: int,
    dest: int,
    t: u64,
) -> bool {
    exists|nd: QueueNode|
        #[trigger] is_journey_state(tm, ls, origin, nd) && nd.station == dest && nd.score == t
}

/// The one score the evaluator returns for a line set: the clamped
/// demand-weighted total of the symmetric travel time matrix whose every
/// entry is the model's value for its pair — the least journey time, or the
/// unreached penalty when no journey connects the pair.
pub open spec fn objective_of(score: u64, lines: Seq<LineView>, p: Problem) -> bool {
    exists|t: Seq<Seq<u64>>|
        {
            &&& #[trigger] sym_sized(t, p.n as int)
            &&& settled_pairs(t, p.track_times.deep_view(), lines, p.n as int, p.n as int)
            &&& score as int == sat64(
                weighted_total(t, p.travel_frequencies.deep_view(), p.n as int),
            )
        }
}

/// The evaluator is a pure function of its inputs: two scores that both
/// satisfy the evaluator's contract for the same problem and lines are
/// equal, so two calls on identical inputs return identical results.
pub proof fn lemma_objective_unique(s1: u64, s2: u64, lines: Seq<LineView>, p: Problem)
    requires
        objective_of(s1, lines, p),
        objective_of(s2, lines, p),
    ensures
        s1 == s2,
{
    let tm = p.track_times.deep_view();
    let n = p.n as int;
    let t1 = choose|t: Seq<Seq<u64>>|
        {
            &&& #[trigger] sym_sized(t, n)
            &&& settled_pairs(t, tm, lines, n, n)
            &&& s1 as int == sat64(weighted_total(t, p.travel_frequencies.deep_view(), n))
        };
    let t2 = choose|t: Seq<Seq<u64>>|
        {
            &&& #[trigger] sym_sized(t, n)
            &&& settled_pairs(t, tm, lines, n, n)
            &&& s2 as int == sat64(weighted_total(t, p.travel_frequencies.deep_view(), n))
        };
    assert forall|i: int, j: int| 0 <= i < n && 0 <= j < n implies #[trigger] t1[i][j]
        == t2[i][j] by {
        if i <= j {
            lemma_min_time_unique(tm, lines, i, j, t1[i][j], t2[i][j]);
        } else {
            lemma_min_time_unique(tm, lines, j, i, t1[j][i], t2[j][i]);
        }
    }
    assert forall|i: int| 0 <= i < n implies #[trigger] t1[i] == t2[i] by {
        assert(t1[i] =~= t2[i]);
    }
    assert(t1 =~= t2);
}

/// The search queue's entries all hold rider states the commuter model
/// reaches from the origin.
pub open spec fn queue_journeys(
    q: radix_heap::RadixHeapMap<u64, QueueNode>,
    tm: Seq<Seq<u64>>,
    ls: Seq<LineView>,
    origin: int,
) -> bool {
    forall|e: (u64, QueueNode)|
        #[trigger] heap_entries(q).count(e) > 0 ==> is_journey_state(tm, ls, origin, e.1)
}

/// Two rider states with the same expansion key: same station, line,
/// direction and switch flag.
pub open spec fn same_key(a: QueueNode, b: QueueNode) -> bool {
    a.station == b.station && a.train == b.train && a.direction == b.direction
        && a.has_switched == b.has_switched
}

/// A processed entry records this state's key.
pub open spec fn entry_matches(e: (usize, usize, bool, bool, u64), nd: QueueNode) -> bool {
    e.0 == nd.station && e.1 == nd.train && e.2 == (nd.direction == TravelDirection::Forward)
        && e.3 == nd.has_switched
}

/// The queue covers the state: it holds an entry with the same key and no
/// greater score.
pub open spec fn qcov(q: radix_heap::RadixHeapMap<u64, QueueNode>, z: QueueNode) -> bool {
    exists|e: (u64, QueueNode)|
        #[trigger] heap_entries(q).count(e) > 0 && same_key(e.1, z) && e.1.score <= z.score
}

/// The processed set covers the state: its key was expanded at no greater a
/// score.
pub open spec fn pcov(pv: Seq<(usize, usize, bool, bool, u64)>, z: QueueNode) -> bool {
    exists|j: int| 0 <= j < pv.len() && entry_matches(#[trigger] pv[j], z) && pv[j].4 <= z.score
}

/// Every boardable start at the origin is covered by the queue or the
/// processed set.
pub open spec fn base_covered(
    q: radix_heap::RadixHeapMap<u64, QueueNode>,
    pv: Seq<(usize, usize, bool, bool, u64)>,
    ls: Seq<LineView>,
    origin: int,
) -> bool {
    forall|z: QueueNode| #[trigger] journey_base(ls, origin, z) ==> qcov(q, z) || pcov(pv, z)
}

/// Every one-step move from one of the first `bound` expanded states, taken
/// at its expansion score, is covered by the queue or the processed set.
pub open spec fn settled_expanded_upto(
    q: radix_heap::RadixHeapMap<u64, QueueNode>,
    pv: Seq<(usize, usize, bool, bool, u64)>,
    tm: Seq<Seq<u64>>,
    ls: Seq<LineView>,
    bound: int,
) -> bool {
    forall|j: int, z0: QueueNode, z1: QueueNode|
        #![trigger pv[j], ride_step(tm, ls, z0, z1)]
        #![trigger pv[j], switch_step(tm, ls, z0, z1)]
        0 <= j < bound && j < pv.len() && entry_matches(pv[j], z0) && z0.score == pv[j].4
            && boards(ls, z0) && (ride_step(tm, ls, z0, z1) || switch_step(tm, ls, z0, z1))
            ==> qcov(q, z1) || pcov(pv, z1)
}

/// No expanded state's expansion score exceeds any queued score.
pub open spec fn settled_below_queue(
    q: radix_heap::RadixHeapMap<u64, QueueNode>,
    pv: Seq<(usize, usize, bool, bool, u64)>,
) -> bool {
    forall|j: int, e: (u64, QueueNode)|
        0 <= j < pv.len() && #[trigger] heap_entries(q).count(e) > 0 ==> (#[trigger] pv[j]).4
            <= e.1.score
}

/// The recorded time both is a journey time and bounds every journey of the
/// commuter model between the stations from below.
pub open spec fn min_protected(
    tm: Seq<Seq<u64>>,
    ls: Seq<LineView>,
    origin: int,
    dest: int,
    t: u64,
) -> bool {
    &&& journey_time(tm, ls, origin, dest, t)
    &&& forall|z: QueueNode, steps: nat|
        #[trigger] journey_reaches(tm, ls, origin, z, steps) && z.station == dest ==> t <= z.score
}

/// The one value the evaluator's model assigns to a station pair: the least
/// journey time between them, or the unreached penalty when no journey of
/// the commuter model connects them.
pub open spec fn is_min_journey_time(
    tm: Seq<Seq<u64>>,
    ls: Seq<LineView>,
    origin: int,
    dest: int,
    t: u64,
) -> bool {
    ||| min_protected(tm, ls, origin, dest, t)
    ||| (t == UNREACHED_TIME && forall|z: QueueNode, steps: nat|
        #[trigger] journey_reaches(tm, ls, origin, z, steps) ==> z.station != dest)
}

/// The model's value for a pair is unique: two values both satisfying it are
/// equal.
pub proof fn lemma_min_time_unique(
    tm: Seq<Seq<u64>>,
    ls: Seq<LineView>,
    origin: int,
    dest: int,
    t1: u64,
    t2: u64,
)
    requires
        is_min_journey_time(tm, ls, origin, dest, t1),
        is_min_journey_time(tm, ls, origin, dest, t2),
    ensures
        t1 == t2,
{
    if min_protected(tm, ls, origin, dest, t1) && min_protected(tm, ls, origin, dest, t2) {
        let z1 = choose|z: QueueNode|
            #[trigger] is_journey_state(tm, ls, origin, z) && z.station == dest && z.score == t1;
        let s1 = choose|steps: nat| journey_reaches(tm, ls, origin, z1, steps);
        let z2 = choose|z: QueueNode|
            #[trigger] is_journey_state(tm, ls, origin, z) && z.station == dest && z.score == t2;
        let s2 = choose|steps: nat| journey_reaches(tm, ls, origin, z2, steps);
        assert(t1 <= z2.score && t2 <= z1.score);
    } else if min_protected(tm, ls, origin, dest, t1) {
        let z1 = choose|z: QueueNode|
            #[trigger] is_journey_state(tm, ls, origin, z) && z.station == dest && z.score == t1;
        let s1 = choose|steps: nat| journey_reaches(tm, ls, origin, z1, steps);
        assert(false);
    } else if min_protected(tm, ls, origin, dest, t2) {
        let z2 = choose|z: QueueNode|
            #[trigger] is_journey_state(tm, ls, origin, z) && z.station == dest && z.score == t2;
        let s2 = choose|steps: nat| journey_reaches(tm, ls, origin, z2, steps);
        assert(false);
    }
}

/// Every journey state boards its line and stands at a real station.
proof fn lemma_journey_state_wf(
    tm: Seq<Seq<u64>>,
    ls: Seq<LineView>,
    origin: int,
    n: int,
    z: QueueNode,
    steps: nat,
)
    requires
        lines_wf(ls, n),
        0 <= origin < n,
        journey_reaches(tm, ls, origin, z, steps),
    ensures
        boards(ls, z),
        z.station < n,
    decreases steps,
{
    if steps == 0 {
    } else if journey_reaches(tm, ls, origin, z, (steps - 1) as nat) {
        lemma_journey_state_wf(tm, ls, origin, n, z, (steps - 1) as nat);
    } else {
        let p = choose|p: QueueNode|
            #![trigger ride_step(tm, ls, p, z)]
            #![trigger switch_step(tm, ls, p, z)]
            journey_reaches(tm, ls, origin, p, (steps - 1) as nat) && (ride_step(tm, ls, p, z)
                || switch_step(tm, ls, p, z));
        lemma_journey_state_wf(tm, ls, origin, n, p, (steps - 1) as nat);
        if ride_step(tm, ls, p, z) {
            assert(line_wf(ls[p.train as int], n));
        }
    }
}

/// A route visits a station at one position only, so two boarding states on
/// the same line at the same station stand at the same position.
proof fn lemma_boards_same_position(
    ls: Seq<LineView>,
    n: int,
    a: QueueNode,
    b: QueueNode,
)
    requires
        lines_wf(ls, n),
        boards(ls, a),
        boards(ls, b),
        a.train == b.train,
        a.station == b.station,
    ensures
        a.train_schedule_progress == b.train_schedule_progress,
{
    assert(line_wf(ls[a.train as int], n));
}

/// Any journey state scores at least the queue's floor, unless its key was
/// already expanded at no greater a score: the frontier argument of the
/// best-first search, walked along the journey.
proof fn lemma_journey_floor(
    tm: Seq<Seq<u64>>,
    ls: Seq<LineView>,
    origin: int,
    n: int,
    q: radix_heap::RadixHeapMap<u64, QueueNode>,
    pv: Seq<(usize, usize, bool, bool, u64)>,
    z: QueueNode,
    steps: nat,
    floor: int,
)
    requires
        lines_wf(ls, n),
        0 <= origin < n,
        base_covered(q, pv, ls, origin),
        settled_expanded_upto(q, pv, tm, ls, pv.len() as int),
        forall|e: (u64, QueueNode)| #[trigger] heap_entries(q).count(e) > 0 ==> floor <= e.1.score,
        journey_reaches(tm, ls, origin, z, steps),
    ensures
        floor <= z.score || pcov(pv, z),
    decreases steps,
{
    if steps == 0 {
        assert(journey_base(ls, origin, z));
        if qcov(q, z) {
            let e = choose|e: (u64, QueueNode)|
                #[trigger] heap_entries(q).count(e) > 0 && same_key(e.1, z) && e.1.score
                    <= z.score;
        }
    } else if journey_reaches(tm, ls, origin, z, (steps - 1) as nat) {
        lemma_journey_floor(tm, ls, origin, n, q, pv, z, (steps - 1) as nat, floor);
    } else {
        let p = choose|p: QueueNode|
            #![trigger ride_step(tm, ls, p, z)]
            #![trigger switch_step(tm, ls, p, z)]
            journey_reaches(tm, ls, origin, p, (steps - 1) as nat) && (ride_step(tm, ls, p, z)
                || switch_step(tm, ls, p, z));
        lemma_journey_state_wf(tm, ls, origin, n, p, (steps - 1) as nat);
        lemma_journey_floor(tm, ls, origin, n, q, pv, p, (steps - 1) as nat, floor);
        if floor <= p.score {
            // one more move never lowers the score
            assert(floor <= z.score);
        } else {
            // the predecessor's key is expanded: replay the move from the
            // expansion representative, which the expansion covered
            let j = choose|j: int|
                0 <= j < pv.len() && entry_matches(#[trigger] pv[j], p) && pv[j].4 <= p.score;
            let rep = QueueNode { score: pv[j].4, ..p };
            assert(boards(ls, rep));
            if ride_step(tm, ls, p, z) {
                let w = tm[p.station as int][z.station as int];
                let rep1 = QueueNode { score: sat64(pv[j].4 + w) as u64, ..z };
                assert(ride_step(tm, ls, rep, rep1));
                assert(qcov(q, rep1) || pcov(pv, rep1));
                assert(rep1.score <= z.score);
                if qcov(q, rep1) {
                    let e = choose|e: (u64, QueueNode)|
                        #[trigger] heap_entries(q).count(e) > 0 && same_key(e.1, rep1)
                            && e.1.score <= rep1.score;
                } else {
                    let j1 = choose|j1: int|
                        0 <= j1 < pv.len() && entry_matches(#[trigger] pv[j1], rep1) && pv[j1].4
                            <= rep1.score;
                    assert(entry_matches(pv[j1], z) && pv[j1].4 <= z.score);
                }
            } else {
                let w = line_delay(ls[z.train as int], tm);
                let rep1 = QueueNode { score: sat64(pv[j].4 + w) as u64, ..z };
                assert(switch_step(tm, ls, rep, rep1));
                assert(qcov(q, rep1) || pcov(pv, rep1));
                assert(rep1.score <= z.score);
                if qcov(q, rep1) {
                    let e = choose|e: (u64, QueueNode)|
                        #[trigger] heap_entries(q).count(e) > 0 && same_key(e.1, rep1)
                            && e.1.score <= rep1.score;
                } else {
                    let j1 = choose|j1: int|
                        0 <= j1 < pv.len() && entry_matches(#[trigger] pv[j1], rep1) && pv[j1].4
                            <= rep1.score;
                    assert(entry_matches(pv[j1], z) && pv[j1].4 <= z.score);
                }
            }
        }
    }
}

/// Queue coverage of a state survives any change that keeps its entries.
proof fn lemma_qcov_mono(
    q1: radix_heap::RadixHeapMap<u64, QueueNode>,
    q2: radix_heap::RadixHeapMap<u64, QueueNode>,
    z: QueueNode,
)
    requires
        qcov(q1, z),
        forall|e: (u64, QueueNode)|
            #[trigger] heap_entries(q1).count(e) > 0 ==> heap_entries(q2).count(e) > 0,
    ensures
        qcov(q2, z),
{
    let e = choose|e: (u64, QueueNode)|
        #[trigger] heap_entries(q1).count(e) > 0 && same_key(e.1, z) && e.1.score <= z.score;
}

/// Base coverage survives any change that keeps the queue's entries.
proof fn lemma_base_covered_mono(
    q1: radix_heap::RadixHeapMap<u64, QueueNode>,
    q2: radix_heap::RadixHeapMap<u64, QueueNode>,
    pv: Seq<(usize, usize, bool, bool, u64)>,
    ls: Seq<LineView>,
    origin: int,
)
    requires
        base_covered(q1, pv, ls, origin),
        forall|e: (u64, QueueNode)|
            #[trigger] heap_entries(q1).count(e) > 0 ==> heap_entries(q2).count(e) > 0,
    ensures
        base_covered(q2, pv, ls, origin),
{
    assert forall|z: QueueNode| #[trigger] journey_base(ls, origin, z) implies qcov(q2, z) || pcov(
        pv,
        z,
    ) by {
        if qcov(q1, z) {
            lemma_qcov_mono(q1, q2, z);
        }
    }
}

/// Expansion coverage survives any change that keeps the queue's entries.
proof fn lemma_settled_expanded_mono(
    q1: radix_heap::RadixHeapMap<u64, QueueNode>,
    q2: radix_heap::RadixHeapMap<u64, QueueNode>,
    pv: Seq<(usize, usize, bool, bool, u64)>,
    tm: Seq<Seq<u64>>,
    ls: Seq<LineView>,
    bound: int,
)
    requires
        settled_expanded_upto(q1, pv, tm, ls, bound),
        forall|e: (u64, QueueNode)|
            #[trigger] heap_entries(q1).count(e) > 0 ==> heap_entries(q2).count(e) > 0,
    ensures
        settled_expanded_upto(q2, pv, tm, ls, bound),
{
    assert forall|j: int, z0: QueueNode, z1: QueueNode|
        0 <= j < bound && j < pv.len() && entry_matches(#[trigger] pv[j], z0) && z0.score
            == pv[j].4 && boards(ls, z0) && (#[trigger] ride_step(tm, ls, z0, z1) || switch_step(
            tm,
            ls,
            z0,
            z1,
        )) implies qcov(q2, z1) || pcov(pv, z1) by {
        if qcov(q1, z1) {
            lemma_qcov_mono(q1, q2, z1);
        }
    }
}

/// Processed coverage survives recording one more expansion.
proof fn lemma_pcov_push(
    pv: Seq<(usize, usize, bool, bool, u64)>,
    x: (usize, usize, bool, bool, u64),
    z: QueueNode,
)
    requires
        pcov(pv, z),
    ensures
        pcov(pv.push(x), z),
{
    let j = choose|j: int|
        0 <= j < pv.len() && entry_matches(#[trigger] pv[j], z) && pv[j].4 <= z.score;
    assert(pv.push(x)[j] == pv[j]);
}

/// Base coverage is kept when a popped entry's key stands expanded at no
/// greater a score.
proof fn lemma_base_covered_after_pop(
    q1: radix_heap::RadixHeapMap<u64, QueueNode>,
    q2: radix_heap::RadixHeapMap<u64, QueueNode>,
    pv: Seq<(usize, usize, bool, bool, u64)>,
    ls: Seq<LineView>,
    origin: int,
    popped: (u64, QueueNode),
)
    requires
        base_covered(q1, pv, ls, origin),
        heap_entries(q2) == heap_entries(q1).remove(popped),
        pcov(pv, popped.1),
    ensures
        base_covered(q2, pv, ls, origin),
{
    broadcast use vstd::multiset::group_multiset_axioms;

    assert forall|z: QueueNode| #[trigger] journey_base(ls, origin, z) implies qcov(q2, z) || pcov(
        pv,
        z,
    ) by {
        if qcov(q1, z) {
            let e = choose|e: (u64, QueueNode)|
                #[trigger] heap_entries(q1).count(e) > 0 && same_key(e.1, z) && e.1.score
                    <= z.score;
            if heap_entries(q2).count(e) > 0 {
            } else {
                assert(e == popped);
                let j = choose|j: int|
                    0 <= j < pv.len() && entry_matches(#[trigger] pv[j], popped.1) && pv[j].4
                        <= popped.1.score;
                assert(entry_matches(pv[j], z) && pv[j].4 <= z.score);
            }
        }
    }
}

/// Expansion coverage is kept when a popped entry's key stands expanded at
/// no greater a score.
proof fn lemma_settled_expanded_after_pop(
    q1: radix_heap::RadixHeapMap<u64, QueueNode>,
    q2: radix_heap::RadixHeapMap<u64, QueueNode>,
    pv: Seq<(usize, usize, bool, bool, u64)>,
    tm: Seq<Seq<u64>>,
    ls: Seq<LineView>,
    bound: int,
    popped: (u64, QueueNode),
)
    requires
        settled_expanded_upto(q1, pv, tm, ls, bound),
        heap_entries(q2) == heap_entries(q1).remove(popped),
        pcov(pv, popped.1),
    ensures
        settled_expanded_upto(q2, pv, tm, ls, bound),
{
    broadcast use vstd::multiset::group_multiset_axioms;

    assert forall|j: int, z0: QueueNode, z1: QueueNode|
        0 <= j < bound && j < pv.len() && entry_matches(#[trigger] pv[j], z0) && z0.score
            == pv[j].4 && boards(ls, z0) && (#[trigger] ride_step(tm, ls, z0, z1) || switch_step(
            tm,
            ls,
            z0,
            z1,
        )) implies qcov(q2, z1) || pcov(pv, z1) by {
        if qcov(q1, z1) {
            let e = choose|e: (u64, QueueNode)|
                #[trigger] heap_entries(q1).count(e) > 0 && same_key(e.1, z1) && e.1.score
                    <= z1.score;
            if heap_entries(q2).count(e) > 0 {
            } else {
                assert(e == popped);
                let jd = choose|jd: int|
                    0 <= jd < pv.len() && entry_matches(#[trigger] pv[jd], popped.1) && pv[jd].4
                        <= popped.1.score;
                assert(entry_matches(pv[jd], z1) && pv[jd].4 <= z1.score);
            }
        }
    }
}

/// Expansion coverage over the first entries survives recording one more.
proof fn lemma_settled_expanded_pvpush(
    q: radix_heap::RadixHeapMap<u64, QueueNode>,
    pv: Seq<(usize, usize, bool, bool, u64)>,
    x: (usize, usize, bool, bool, u64),
    tm: Seq<Seq<u64>>,
    ls: Seq<LineView>,
    bound: int,
)
    requires
        settled_expanded_upto(q, pv, tm, ls, bound),
        bound <= pv.len(),
    ensures
        settled_expanded_upto(q, pv.push(x), tm, ls, bound),
{
    let pv2 = pv.push(x);
    assert forall|j: int, z0: QueueNode, z1: QueueNode|
        0 <= j < bound && j < pv2.len() && entry_matches(#[trigger] pv2[j], z0) && z0.score
            == pv2[j].4 && boards(ls, z0) && (#[trigger] ride_step(tm, ls, z0, z1) || switch_step(
            tm,
            ls,
            z0,
            z1,
        )) implies qcov(q, z1) || pcov(pv2, z1) by {
        assert(pv2[j] == pv[j]);
        if pcov(pv, z1) {
            lemma_pcov_push(pv, x, z1);
        }
    }
}

/// Base coverage survives recording one more expansion.
proof fn lemma_base_covered_pvpush(
    q: radix_heap::RadixHeapMap<u64, QueueNode>,
    pv: Seq<(usize, usize, bool, bool, u64)>,
    x: (usize, usize, bool, bool, u64),
    ls: Seq<LineView>,
    origin: int,
)
    requires
        base_covered(q, pv, ls, origin),
    ensures
        base_covered(q, pv.push(x), ls, origin),
{
    assert forall|z: QueueNode| #[trigger] journey_base(ls, origin, z) implies qcov(q, z) || pcov(
        pv.push(x),
        z,
    ) by {
        if pcov(pv, z) {
            lemma_pcov_push(pv, x, z);
        }
    }
}

/// The travel times recorded so far in one origin's pass: a station still to
/// visit keeps the penalty, a visited one holds the least journey time.
pub open spec fn pass_state(
    times: Seq<Seq<u64>>,
    unv: Seq<usize>,
    tm: Seq<Seq<u64>>,
    ls: Seq<LineView>,
    s: int,
    n: int,
) -> bool {
    forall|v: int|
        #![trigger times[s][v]]
        s <= v < n ==> if unv.contains(v as usize) {
            times[s][v] == UNREACHED_TIME
        } else {
            min_protected(tm, ls, s, v, times[s][v])
        }
}

/// The travel time matrix after the first `upto` origins' passes: every pair
/// whose smaller station is done holds the model's value, every other pair
/// still holds the penalty.
pub open spec fn settled_pairs(
    times: Seq<Seq<u64>>,
    tm: Seq<Seq<u64>>,
    ls: Seq<LineView>,
    upto: int,
    n: int,
) -> bool {
    forall|i: int, j: int|
        #![trigger times[i][j]]
        0 <= i <= j < n ==> if i < upto {
            is_min_journey_time(tm, ls, i, j, times[i][j])
        } else {
            times[i][j] == UNREACHED_TIME
        }
}

/// After an expansion, every one-step move from the freshly expanded key is
/// covered: the ride successor was pushed, and so was every switch successor
/// while the switch was unspent.
proof fn lemma_full_expansion(
    q: radix_heap::RadixHeapMap<u64, QueueNode>,
    pv: Seq<(usize, usize, bool, bool, u64)>,
    tm: Seq<Seq<u64>>,
    ls: Seq<LineView>,
    n: int,
    node: QueueNode,
    rider: QueueNode,
    score2: u64,
    llen: int,
)
    requires
        lines_wf(ls, n),
        pv.len() >= 1,
        entry_matches(pv[pv.len() - 1], node),
        pv[pv.len() - 1].4 == node.score,
        boards(ls, node),
        settled_expanded_upto(q, pv, tm, ls, pv.len() - 1),
        ride_step(tm, ls, node, rider),
        rider.score == score2,
        heap_entries(q).count(((u64::MAX - score2) as u64, rider)) > 0,
        ls.len() == llen,
        !node.has_switched ==> forall|z0: QueueNode, z1: QueueNode|
            entry_matches(pv[pv.len() - 1], z0) && z0.score == node.score && boards(ls, z0)
                && #[trigger] switch_step(tm, ls, z0, z1) && z1.train < llen ==> qcov(q, z1),
    ensures
        settled_expanded_upto(q, pv, tm, ls, pv.len() as int),
{
    assert forall|j: int, z0: QueueNode, z1: QueueNode|
        0 <= j < pv.len() && entry_matches(#[trigger] pv[j], z0) && z0.score == pv[j].4 && boards(
            ls,
            z0,
        ) && (#[trigger] ride_step(tm, ls, z0, z1) || switch_step(tm, ls, z0, z1)) implies qcov(
        q,
        z1,
    ) || pcov(pv, z1) by {
        if j == pv.len() - 1 {
            assert(z0.station == node.station && z0.train == node.train && z0.has_switched
                == node.has_switched);
            assert(z0.direction == node.direction) by {
                if z0.direction == TravelDirection::Forward {
                } else {
                    assert(z0.direction == TravelDirection::Backward);
                    assert(node.direction != TravelDirection::Forward);
                    assert(node.direction == TravelDirection::Backward);
                }
            }
            lemma_boards_same_position(ls, n, z0, node);
            if ride_step(tm, ls, z0, z1) {
                assert(z1.train_schedule_progress == rider.train_schedule_progress);
                assert(z1.station == rider.station);
                assert(z1.score == rider.score);
                assert(same_key(rider, z1));
                assert(qcov(q, z1));
            } else {
                assert(!node.has_switched);
                assert(z1.train < llen);
            }
        }
    }
}

/// The search queue's entries all carry the key `u64::MAX - score` and hold
/// well-formed rider states.
pub open spec fn queue_wf(
    q: radix_heap::RadixHeapMap<u64, QueueNode>,
    ls: Seq<LineView>,
    n: int,
) -> bool {
    forall|e: (u64, QueueNode)|
        #[trigger] heap_entries(q).count(e) > 0 ==> e.0 as int == u64::MAX - e.1.score
            && node_wf(e.1, ls, n) && boards(ls, e.1)
}

/// Where a station sits on a line's route, if it is on it.
pub fn route_position(l: &TrainLine, s: usize) -> (r: Option<usize>)
    ensures
        match r {
            Some(p) => p < l@.route.len() && l@.route[p as int] == s,
            None => forall|k: int| 0 <= k < l@.route.len() ==> l@.route[k] != s,
        },
{
    let mut k: usize = 0;
    while k < l.route.len()
        invariant
            k <= l@.route.len(),
            forall|m: int| 0 <= m < k ==> l@.route[m] != s,
        decreases l@.route.len() - k,
    {
        if l.route[k] == s {
            return Some(k);
        }
        k = k + 1;
    }
    None
}

/// Where a value sits in a list, if it is there.
pub fn find_index(v: &Vec<usize>, x: usize) -> (r: Option<usize>)
    ensures
        match r {
            Some(p) => p < v@.len() && v@[p as int] == x,
            None => forall|k: int| 0 <= k < v@.len() ==> v@[k] != x,
        },
{
    let mut k: usize = 0;
    while k < v.len()
        invariant
            k <= v@.len(),
            forall|m: int| 0 <= m < k ==> v@[m] != x,
        decreases v@.len() - k,
    {
        if v[k] == x {
            return Some(k);
        }
        k = k + 1;
    }
    None
}

/// The expansion key of a processed-state entry: its station, line,
/// direction and switch flag (the fifth field holds the score at which the
/// state was first expanded).
pub open spec fn entry_key(e: (usize, usize, bool, bool, u64)) -> (usize, usize, bool, bool) {
    (e.0, e.1, e.2, e.3)
}

/// Whether a processed-state key is already recorded.
fn contains_state(
    v: &Vec<(usize, usize, bool, bool, u64)>,
    st: usize,
    tr: usize,
    fw: bool,
    sw: bool,
) -> (r: bool)
    ensures
        r == exists|k: int|
            0 <= k < v@.len() && entry_key(#[trigger] v@[k]) == (st, tr, fw, sw),
{
    let mut k: usize = 0;
    while k < v.len()
        invariant
            k <= v@.len(),
            forall|m: int| 0 <= m < k ==> entry_key(#[trigger] v@[m]) != (st, tr, fw, sw),
        decreases v@.len() - k,
    {
        let e = v[k];
        if e.0 == st && e.1 == tr && e.2 == fw && e.3 == sw {
            return true;
        }
        k = k + 1;
    }
    false
}

/// A list of pairwise distinct rider-state keys over `n` stations and `l`
/// lines cannot outgrow the number of such keys.
proof fn lemma_distinct_keys_bound(p: Seq<(usize, usize, bool, bool, u64)>, n: int, l: int)
    requires
        0 <= n,
        0 <= l,
        forall|a: int| 0 <= a < p.len() ==> (#[trigger] p[a]).0 < n && p[a].1 < l,
        forall|a: int, b: int|
            0 <= a < b < p.len() ==> entry_key(#[trigger] p[a]) != entry_key(#[trigger] p[b]),
    ensures
        p.len() <= 4 * n * l,
{
    let enc = |e: (usize, usize, bool, bool, u64)| -> int {
        ((e.0 * l + e.1) * 2 + (if e.2 {
            1int
        } else {
            0int
        })) * 2 + (if e.3 {
            1int
        } else {
            0int
        })
    };
    let s = Seq::new(p.len(), |a: int| enc(p[a]));
    assert forall|a: int| 0 <= a < s.len() implies 0 <= #[trigger] s[a] < 4 * n * l by {
        assert(0 <= p[a].0 * l + p[a].1 < n * l) by (nonlinear_arith)
            requires
                0 <= p[a].0 < n && 0 <= p[a].1 < l,
        ;
        assert(4 * (n * l) == 4 * n * l) by (nonlinear_arith);
    }
    assert forall|a: int, b: int| 0 <= a < b < s.len() implies s[a] != s[b] by {
        if s[a] == s[b] {
            let ea = p[a];
            let eb = p[b];
            assert(ea.0 * l + ea.1 == eb.0 * l + eb.1 && ea.2 == eb.2 && ea.3 == eb.3);
            assert(ea.0 == eb.0 && ea.1 == eb.1) by (nonlinear_arith)
                requires
                    ea.0 * l + ea.1 == eb.0 * l + eb.1 && 0 <= ea.1 < l && 0 <= eb.1 < l && 0
                        <= ea.0 && 0 <= eb.0,
            ;
            assert(entry_key(ea) == entry_key(eb));
            assert(false);
        }
    }
    assert(s.no_duplicates());
    s.unique_seq_to_set();
    assert(s.to_set().subset_of(vstd::set_lib::set_int_range(0, 4 * n * l))) by {
        assert forall|x: int| s.to_set().contains(x) implies vstd::set_lib::set_int_range(
            0,
            4 * n * l,
        ).contains(x) by {
            let a = choose|a: int| 0 <= a < s.len() && s[a] == x;
        }
    }
    vstd::set_lib::lemma_int_range(0, 4 * n * l);
    vstd::set_lib::lemma_len_subset(s.to_set(), vstd::set_lib::set_int_range(0, 4 * n * l));
}

/// The pairwise travel times a candidate line set achieves: entry `(i, j)`
/// is the model's value for the pair: the least time of any journey of the
/// commuter model between them, or the unreached penalty when no journey
/// connects them. The result is a symmetric `n` by `n` matrix.
#[verifier::loop_isolation(false)]
pub fn compute_travel_times(problem: &Problem, lines: &Vec<TrainLine>) -> (r: Vec<Vec<u64>>)
    requires
        problem.wf(),
        lines_wf(lines.deep_view(), problem.n as int),
    ensures
        sym_sized(r.deep_view(), problem.n as int),
        settled_pairs(
            r.deep_view(),
            problem.track_times.deep_view(),
            lines.deep_view(),
            problem.n as int,
            problem.n as int,
        ),
{
    proof {
        lemma_lines_view(lines);
    }
    let ghost ls = lines.deep_view();
    let ghost tm = problem.track_times.deep_view();
    let ghost n_spec = problem.n as int;
    let n = problem.n;

    // Every pair starts at the unreached penalty; a constant matrix is
    // trivially symmetric.
    let mut times: Vec<Vec<u64>> = Vec::new();
    let mut i: usize = 0;
    while i < n
        invariant
            i <= n,
            times@.len() == i,
            forall|a: int|
                0 <= a < i ==> (#[trigger] times@[a])@.len() == n && forall|b: int|
                    0 <= b < n ==> times@[a]@[b] == UNREACHED_TIME,
        decreases n - i,
    {
        let mut row: Vec<u64> = Vec::new();
        let mut j: usize = 0;
        while j < n
            invariant
                j <= n,
                row@.len() == j,
                forall|b: int| 0 <= b < j ==> row@[b] == UNREACHED_TIME,
            decreases n - j,
        {
            row.push(UNREACHED_TIME);
            j = j + 1;
        }
        times.push(row);
        i = i + 1;
    }
    proof {
        lemma_u64_matrix_view(&times);
        assert forall|a: int, b: int|
            0 <= a < n_spec && 0 <= b < n_spec implies #[trigger] times.deep_view()[a][b]
            == UNREACHED_TIME by {
            assert(times.deep_view()[a] == times@[a]@);
        }
        assert(sym_sized(times.deep_view(), n_spec));
        assert(settled_pairs(times.deep_view(), tm, ls, 0, n_spec));
    }

    let delays = train_delays(problem, lines);

    let mut station: usize = 0;
    while station < n
        invariant
            station <= n,
            sym_sized(times.deep_view(), n_spec),
            settled_pairs(times.deep_view(), tm, ls, station as int, n_spec),
        decreases n - station,
    {
        // Only stations from this one upward still need a time: pairs with an
        // earlier station were recorded when that station was the origin.
        let mut unvisited: Vec<usize> = Vec::new();
        let mut s: usize = station;
        while s < n
            invariant
                station <= s <= n,
                unvisited@.len() == s - station,
                forall|k: int| 0 <= k < unvisited@.len() ==> #[trigger] unvisited@[k] == station + k,
            decreases n - s,
        {
            unvisited.push(s);
            s = s + 1;
        }
        proof {
            assert(pass_state(times.deep_view(), unvisited@, tm, ls, station as int, n_spec)) by {
                assert forall|v: int| station as int <= v < n_spec implies unvisited@.contains(
                    v as usize,
                ) && #[trigger] times.deep_view()[station as int][v] == UNREACHED_TIME by {
                    assert(unvisited@[v - station as int] == v as usize);
                }
            }
        }

        let mut prev: Vec<(usize, usize, bool, bool, u64)> = Vec::new();
        let mut queue = heap_new();

        // Start on every line that passes through this origin, in both
        // directions for a bidirectional line.
        let mut t: usize = 0;
        while t < lines.len()
            invariant
                t <= lines.len(),
                queue_wf(queue, ls, n_spec),
                queue_journeys(queue, tm, ls, station as int),
                heap_top(queue) is None,
                forall|z: QueueNode|
                    #[trigger] journey_base(ls, station as int, z) && z.train < t ==> qcov(
                        queue,
                        z,
                    ),
            decreases lines.len() - t,
        {
            let ghost q0 = queue;
            if let Some(pos) = route_position(&lines[t], station) {
                proof {
                    assert(ls[t as int] == lines@[t as int]@);
                }
                let seed = QueueNode {
                    station,
                    train: t,
                    score: 0,
                    direction: TravelDirection::Forward,
                    train_schedule_progress: pos,
                    has_switched: false,
                };
                proof {
                    assert(boards(ls, seed));
                    assert(journey_reaches(tm, ls, station as int, seed, 0));
                    assert(is_journey_state(tm, ls, station as int, seed));
                }
                heap_push(&mut queue, u64::MAX, seed);
                let ghost q1 = queue;
                let is_bidi = lines[t].ty == ScheduleType::Bidirectional;
                if is_bidi {
                    let seed_back = QueueNode { direction: TravelDirection::Backward, ..seed };
                    proof {
                        assert(boards(ls, seed_back));
                        assert(journey_reaches(tm, ls, station as int, seed_back, 0));
                        assert(is_journey_state(tm, ls, station as int, seed_back));
                    }
                    heap_push(&mut queue, u64::MAX, seed_back);
                }
                proof {
                    assert forall|z: QueueNode|
                        #[trigger] journey_base(ls, station as int, z) && z.train < t + 1
                        implies qcov(queue, z) by {
                        if z.train < t {
                            lemma_qcov_mono(q0, queue, z);
                        } else {
                            lemma_boards_same_position(ls, n_spec, z, seed);
                            if z.direction == TravelDirection::Forward {
                                assert(same_key(seed, z));
                                assert(heap_entries(queue).count((u64::MAX, seed)) > 0);
                            } else {
                                let seed_back = QueueNode {
                                    direction: TravelDirection::Backward,
                                    ..seed
                                };
                                assert(same_key(seed_back, z));
                                assert(heap_entries(queue).count((u64::MAX, seed_back)) > 0);
                            }
                        }
                    }
                }
            } else {
                proof {
                    assert forall|z: QueueNode|
                        #[trigger] journey_base(ls, station as int, z) && z.train < t + 1
                        implies qcov(queue, z) by {
                        if z.train == t {
                            assert(ls[t as int].route[z.train_schedule_progress as int]
                                == station);
                            assert(false);
                        }
                    }
                }
            }
            t = t + 1;
        }

        // Process states cheapest first. Each rider state is expanded at
        // most once per (station, line, direction, switched) key, which
        // bounds the loop: the processed set can only grow up to the number
        // of keys, and a skipped duplicate shrinks the queue.
        let mut done = false;
        while !done
            invariant
                sym_sized(times.deep_view(), n_spec),
                forall|i: int, j: int|
                    0 <= i <= j < n_spec && i < station as int ==> is_min_journey_time(
                        tm,
                        ls,
                        i,
                        j,
                        #[trigger] times.deep_view()[i][j],
                    ),
                forall|i: int, j: int|
                    (station as int) < i && i <= j < n_spec ==> #[trigger] times.deep_view()[i][j]
                        == UNREACHED_TIME,
                pass_state(times.deep_view(), unvisited@, tm, ls, station as int, n_spec),
                forall|k: int|
                    0 <= k < unvisited@.len() ==> station <= #[trigger] unvisited@[k] < n,
                forall|k1: int, k2: int|
                    0 <= k1 < k2 < unvisited@.len() ==> unvisited@[k1] != unvisited@[k2],
                queue_wf(queue, ls, n_spec),
                queue_journeys(queue, tm, ls, station as int),
                station < n,
                forall|a: int|
                    0 <= a < prev@.len() ==> (#[trigger] prev@[a]).0 < n && prev@[a].1
                        < lines@.len(),
                forall|a: int, b: int|
                    0 <= a < b < prev@.len() ==> entry_key(#[trigger] prev@[a]) != entry_key(
                        #[trigger] prev@[b],
                    ),
                prev@.len() <= 4 * n_spec * ls.len(),
                !done ==> base_covered(queue, prev@, ls, station as int),
                !done ==> settled_expanded_upto(queue, prev@, tm, ls, prev@.len() as int),
                !done ==> settled_below_queue(queue, prev@),
                forall|a: int, k: int|
                    0 <= a < prev@.len() && 0 <= k < unvisited@.len() ==> (#[trigger] prev@[a]).0
                        != #[trigger] unvisited@[k],
                done ==> unvisited@.len() == 0 || {
                    &&& heap_entries(queue) == Multiset::<(u64, QueueNode)>::empty()
                    &&& base_covered(queue, prev@, ls, station as int)
                    &&& settled_expanded_upto(queue, prev@, tm, ls, prev@.len() as int)
                },
            decreases (if done {
                0int
            } else {
                1int
            }), 4 * n_spec * ls.len() - prev@.len(), heap_entries(queue).len(),
        {
            let ghost q_pre = queue;
            match heap_pop(&mut queue) {
                None => {
                    proof {
                        assert forall|e: (u64, QueueNode)|
                            #[trigger] heap_entries(q_pre).count(e) > 0 implies heap_entries(
                            queue,
                        ).count(e) > 0 by {}
                        lemma_base_covered_mono(q_pre, queue, prev@, ls, station as int);
                        lemma_settled_expanded_mono(q_pre, queue, prev@, tm, ls,
                            prev@.len() as int);
                        assert(settled_below_queue(queue, prev@));
                    }
                    done = true;
                },
                Some((key, node)) => {
                    assert(key as int == u64::MAX - node.score && node_wf(node, ls, n_spec)
                        && boards(ls, node));
                    assert(is_journey_state(tm, ls, station as int, node));
                    proof {
                        broadcast use vstd::multiset::group_multiset_axioms;

                        assert(Multiset::singleton((key, node)).subset_of(heap_entries(q_pre)));
                        assert(heap_entries(queue).len() < heap_entries(q_pre).len());
                        // the popped state has the least score still queued
                        assert forall|e: (u64, QueueNode)|
                            #[trigger] heap_entries(q_pre).count(e) > 0 implies node.score as int
                            <= e.1.score by {}
                    }
                    if unvisited.len() == 0 {
                        done = true;
                    } else {
                        // The first time a destination pops, its time is
                        // final: it is a journey time, and no journey of the
                        // commuter model beats it.
                        if let Some(idx) = find_index(&unvisited, node.station) {
                            let ghost before = times.deep_view();
                            let ghost unv_before = unvisited@;
                            mat_set(&mut times, station, node.station, node.score);
                            mat_set(&mut times, node.station, station, node.score);
                            proof {
                                assert(sym_sized(times.deep_view(), n_spec));
                                assert(journey_time(tm, ls, station as int, node.station as int,
                                    node.score));
                                assert forall|z: QueueNode, steps: nat|
                                    #[trigger] journey_reaches(tm, ls, station as int, z, steps)
                                        && z.station == node.station implies node.score
                                    <= z.score by {
                                    lemma_journey_floor(tm, ls, station as int, n_spec, q_pre,
                                        prev@, z, steps, node.score as int);
                                    if pcov(prev@, z) {
                                        let j = choose|j: int|
                                            0 <= j < prev@.len() && entry_matches(
                                                #[trigger] prev@[j],
                                                z,
                                            ) && prev@[j].4 <= z.score;
                                        assert(prev@[j].0 != unvisited@[idx as int]);
                                        assert(false);
                                    }
                                }
                                assert(min_protected(tm, ls, station as int,
                                    node.station as int, node.score));
                            }
                            unvisited.remove(idx);
                            proof {
                                // the recorded station leaves the unvisited
                                // list for good
                                assert forall|k: int|
                                    0 <= k < unvisited@.len() implies #[trigger] unvisited@[k]
                                    != node.station by {
                                    unv_before.remove_ensures(idx as int);
                                }
                                assert(pass_state(times.deep_view(), unvisited@, tm, ls,
                                    station as int, n_spec)) by {
                                    assert forall|v: int|
                                        station as int <= v < n_spec implies (
                                    if unvisited@.contains(v as usize) {
                                        #[trigger] times.deep_view()[station as int][v]
                                            == UNREACHED_TIME
                                    } else {
                                        min_protected(tm, ls, station as int, v,
                                            times.deep_view()[station as int][v])
                                    }) by {
                                        unv_before.remove_ensures(idx as int);
                                        if v == node.station as int {
                                        } else {
                                            assert(times.deep_view()[station as int][v]
                                                == before[station as int][v]);
                                            if unv_before.contains(v as usize) {
                                                let k = choose|k: int|
                                                    0 <= k < unv_before.len() && unv_before[k]
                                                        == v as usize;
                                                if k < idx as int {
                                                    assert(unvisited@[k] == v as usize);
                                                } else {
                                                    assert(unvisited@[k - 1] == v as usize);
                                                }
                                            } else {
                                                if unvisited@.contains(v as usize) {
                                                    let k = choose|k: int|
                                                        0 <= k < unvisited@.len()
                                                            && unvisited@[k] == v as usize;
                                                    assert(unv_before.contains(v as usize));
                                                    assert(false);
                                                }
                                            }
                                        }
                                    }
                                }
                                assert forall|i: int, j: int|
                                    0 <= i <= j < n_spec && i < station as int
                                    implies is_min_journey_time(
                                    tm,
                                    ls,
                                    i,
                                    j,
                                    #[trigger] times.deep_view()[i][j],
                                ) by {
                                    assert(times.deep_view()[i][j] == before[i][j]);
                                }
                                assert forall|i: int, j: int|
                                    (station as int) < i && i <= j < n_spec
                                    implies #[trigger] times.deep_view()[i][j]
                                    == UNREACHED_TIME by {
                                    assert(times.deep_view()[i][j] == before[i][j]);
                                }
                            }
                        }
                        proof {
                            assert forall|k: int|
                                0 <= k < unvisited@.len() implies #[trigger] unvisited@[k]
                                != node.station by {}
                        }
                        // Expand each (station, line, direction, switched)
                        // key at most once, remembering the score at which it
                        // was first expanded.
                        let fw = node.direction == TravelDirection::Forward;
                        if contains_state(&prev, node.station, node.train, fw, node.has_switched)
                        {
                            proof {
                                let jd = choose|jd: int|
                                    0 <= jd < prev@.len() && entry_key(#[trigger] prev@[jd]) == (
                                    node.station,
                                    node.train,
                                    fw,
                                    node.has_switched,
                                );
                                assert(entry_matches(prev@[jd], node));
                                assert(prev@[jd].4 <= node.score);
                                assert(pcov(prev@, node));
                                lemma_base_covered_after_pop(q_pre, queue, prev@, ls,
                                    station as int, (key, node));
                                lemma_settled_expanded_after_pop(q_pre, queue, prev@, tm, ls,
                                    prev@.len() as int, (key, node));
                                broadcast use vstd::multiset::group_multiset_axioms;

                                assert forall|e: (u64, QueueNode)|
                                    #[trigger] heap_entries(queue).count(e) > 0
                                    implies heap_entries(q_pre).count(e) > 0 by {}
                                assert(settled_below_queue(queue, prev@));
                            }
                        } else {
                            let ghost prev_pre = prev@;
                            prev.push((node.station, node.train, fw, node.has_switched,
                                node.score));
                            proof {
                                assert forall|a: int, b: int|
                                    0 <= a < b < prev@.len() implies entry_key(
                                    #[trigger] prev@[a],
                                ) != entry_key(#[trigger] prev@[b]) by {
                                    if b == prev@.len() - 1 {
                                        assert(entry_key(prev@[a]) != (node.station, node.train,
                                            fw, node.has_switched));
                                    }
                                }
                                lemma_distinct_keys_bound(prev@, n_spec, ls.len() as int);
                                // the fresh expansion covers the popped
                                // entry's key
                                assert(entry_matches(prev@[prev@.len() - 1], node));
                                assert(pcov(prev@, node));
                                lemma_base_covered_pvpush(q_pre, prev_pre,
                                    (node.station, node.train, fw, node.has_switched,
                                    node.score), ls, station as int);
                                lemma_settled_expanded_pvpush(q_pre, prev_pre,
                                    (node.station, node.train, fw, node.has_switched,
                                    node.score), tm, ls, prev_pre.len() as int);
                                lemma_base_covered_after_pop(q_pre, queue, prev@, ls,
                                    station as int, (key, node));
                                lemma_settled_expanded_after_pop(q_pre, queue, prev@, tm, ls,
                                    prev_pre.len() as int, (key, node));
                                broadcast use vstd::multiset::group_multiset_axioms;

                                assert(heap_entries(q_pre).count((key, node)) > 0);
                                assert forall|j: int|
                                    0 <= j < prev@.len() implies (#[trigger] prev@[j]).4
                                    <= node.score by {
                                    if j < prev_pre.len() {
                                        assert(prev@[j] == prev_pre[j]);
                                    }
                                }
                                assert forall|j: int, e: (u64, QueueNode)|
                                    0 <= j < prev@.len() && #[trigger] heap_entries(queue).count(
                                        e,
                                    ) > 0 implies (#[trigger] prev@[j]).4 <= e.1.score by {
                                    assert(heap_entries(q_pre).count(e) > 0);
                                }
                            }

                            // The rider can stay on the same train to its
                            // next scheduled stop; the route wraps at both
                            // ends.
                            let rlen = lines[node.train].route.len();
                            let next_pos: usize = match node.direction {
                                TravelDirection::Forward => {
                                    if node.train_schedule_progress + 1 < rlen {
                                        node.train_schedule_progress + 1
                                    } else {
                                        0
                                    }
                                },
                                TravelDirection::Backward => {
                                    if node.train_schedule_progress > 0 {
                                        node.train_schedule_progress - 1
                                    } else {
                                        rlen - 1
                                    }
                                },
                            };
                            proof {
                                assert(ls[node.train as int] == lines@[node.train as int]@);
                                assert(line_wf(ls[node.train as int], n_spec));
                            }
                            let next_station = lines[node.train].route[next_pos];
                            let w = mat_at(&problem.track_times, node.station, next_station);
                            let score2 = node.score.saturating_add(w);
                            let rider = QueueNode {
                                station: next_station,
                                train: node.train,
                                score: score2,
                                direction: node.direction,
                                train_schedule_progress: next_pos,
                                has_switched: node.has_switched,
                            };
                            let ghost q_mid = queue;
                            proof {
                                assert(next_pos as int == next_position(
                                    ls[node.train as int],
                                    node.direction,
                                    node.train_schedule_progress as int,
                                ));
                                assert(ride_step(tm, ls, node, rider));
                                assert(boards(ls, rider));
                                let steps = choose|steps: nat|
                                    journey_reaches(tm, ls, station as int, node, steps);
                                assert(journey_reaches(tm, ls, station as int, rider, steps + 1));
                                assert(is_journey_state(tm, ls, station as int, rider));
                            }
                            heap_push(&mut queue, u64::MAX - score2, rider);
                            proof {
                                broadcast use vstd::multiset::group_multiset_axioms;

                                assert forall|e: (u64, QueueNode)|
                                    #[trigger] heap_entries(q_mid).count(e) > 0
                                    implies heap_entries(queue).count(e) > 0 by {}
                                lemma_base_covered_mono(q_mid, queue, prev@, ls, station as int);
                                lemma_settled_expanded_mono(q_mid, queue, prev@, tm, ls,
                                    prev_pre.len() as int);
                                assert(heap_entries(queue).count(
                                    ((u64::MAX - score2) as u64, rider),
                                ) > 0);
                                assert forall|j: int, e: (u64, QueueNode)|
                                    0 <= j < prev@.len() && #[trigger] heap_entries(queue).count(
                                        e,
                                    ) > 0 implies (#[trigger] prev@[j]).4 <= e.1.score by {
                                    if heap_entries(q_mid).count(e) > 0 {
                                    } else {
                                        assert(e == ((u64::MAX - score2) as u64, rider));
                                    }
                                }
                            }

                            // The rider can also switch once onto any other
                            // line through this station, paying that line's
                            // expected wait.
                            if node.has_switched {
                                proof {
                                    lemma_full_expansion(queue, prev@, tm, ls, n_spec, node,
                                        rider, score2, lines@.len() as int);
                                }
                            } else {
                                let mut a: usize = 0;
                                while a < lines.len()
                                    invariant
                                        a <= lines.len(),
                                        queue_wf(queue, ls, n_spec),
                                        queue_journeys(queue, tm, ls, station as int),
                                        heap_top(queue) == Some(key),
                                        base_covered(queue, prev@, ls, station as int),
                                        settled_expanded_upto(queue, prev@, tm, ls,
                                            prev_pre.len() as int),
                                        settled_below_queue(queue, prev@),
                                        heap_entries(queue).count(
                                            ((u64::MAX - score2) as u64, rider),
                                        ) > 0,
                                        forall|z0: QueueNode, z1: QueueNode|
                                            entry_matches(prev@[prev@.len() - 1], z0) && z0.score
                                                == node.score && boards(ls, z0)
                                                && #[trigger] switch_step(tm, ls, z0, z1)
                                                && z1.train < a ==> qcov(queue, z1),
                                    decreases lines.len() - a,
                                {
                                    let ghost q_a = queue;
                                    if a != node.train {
                                        if let Some(pos) = route_position(
                                            &lines[a],
                                            node.station,
                                        ) {
                                            proof {
                                                assert(ls[a as int] == lines@[a as int]@);
                                            }
                                            let score3 = node.score.saturating_add(delays[a]);
                                            let switched = QueueNode {
                                                station: node.station,
                                                train: a,
                                                score: score3,
                                                direction: TravelDirection::Forward,
                                                train_schedule_progress: pos,
                                                has_switched: true,
                                            };
                                            proof {
                                                assert(switch_step(tm, ls, node, switched));
                                                assert(boards(ls, switched));
                                                let steps = choose|steps: nat|
                                                    journey_reaches(tm, ls, station as int, node,
                                                        steps);
                                                assert(journey_reaches(tm, ls, station as int,
                                                    switched, steps + 1));
                                                assert(is_journey_state(tm, ls, station as int,
                                                    switched));
                                            }
                                            heap_push(&mut queue, u64::MAX - score3, switched);
                                            let is_bidi = lines[a].ty
                                                == ScheduleType::Bidirectional;
                                            if is_bidi {
                                                let switched_back = QueueNode {
                                                    direction: TravelDirection::Backward,
                                                    ..switched
                                                };
                                                proof {
                                                    assert(switch_step(tm, ls, node,
                                                        switched_back));
                                                    assert(boards(ls, switched_back));
                                                    let steps = choose|steps: nat|
                                                        journey_reaches(tm, ls, station as int,
                                                            node, steps);
                                                    assert(journey_reaches(tm, ls,
                                                        station as int, switched_back, steps
                                                        + 1));
                                                    assert(is_journey_state(tm, ls,
                                                        station as int, switched_back));
                                                }
                                                heap_push(&mut queue, u64::MAX - score3,
                                                    switched_back);
                                            }
                                            proof {
                                                broadcast use vstd::multiset::group_multiset_axioms;

                                                assert forall|e: (u64, QueueNode)|
                                                    #[trigger] heap_entries(q_a).count(e) > 0
                                                    implies heap_entries(queue).count(e) > 0 by {}
                                                lemma_base_covered_mono(q_a, queue, prev@, ls,
                                                    station as int);
                                                lemma_settled_expanded_mono(q_a, queue, prev@,
                                                    tm, ls, prev_pre.len() as int);
                                                assert(heap_entries(queue).count(
                                                    ((u64::MAX - score3) as u64, switched),
                                                ) > 0);
                                                if is_bidi {
                                                    let switched_back = QueueNode {
                                                        direction: TravelDirection::Backward,
                                                        ..switched
                                                    };
                                                    assert(heap_entries(queue).count(
                                                        ((u64::MAX - score3) as u64,
                                                        switched_back),
                                                    ) > 0);
                                                }
                                                assert forall|j: int, e: (u64, QueueNode)|
                                                    0 <= j < prev@.len()
                                                        && #[trigger] heap_entries(queue).count(
                                                        e,
                                                    ) > 0 implies (#[trigger] prev@[j]).4
                                                    <= e.1.score by {
                                                    if !(heap_entries(q_a).count(e) > 0) {
                                                        assert(e.1.score == score3);
                                                    }
                                                }
                                                assert forall|z0: QueueNode, z1: QueueNode|
                                                    entry_matches(prev@[prev@.len() - 1], z0)
                                                        && z0.score == node.score && boards(
                                                        ls,
                                                        z0,
                                                    ) && #[trigger] switch_step(tm, ls, z0, z1)
                                                        && z1.train < a + 1 implies qcov(
                                                    queue,
                                                    z1,
                                                ) by {
                                                    if z1.train < a {
                                                        lemma_qcov_mono(q_a, queue, z1);
                                                    } else {
                                                        lemma_boards_same_position(ls, n_spec,
                                                            z1, switched);
                                                        assert(z1.score == score3);
                                                        if z1.direction
                                                            == TravelDirection::Forward {
                                                            assert(same_key(switched, z1));
                                                        } else {
                                                            let switched_back = QueueNode {
                                                                direction:
                                                                    TravelDirection::Backward,
                                                                ..switched
                                                            };
                                                            assert(same_key(switched_back, z1));
                                                        }
                                                    }
                                                }
                                            }
                                        } else {
                                            proof {
                                                assert forall|z0: QueueNode, z1: QueueNode|
                                                    entry_matches(prev@[prev@.len() - 1], z0)
                                                        && z0.score == node.score && boards(
                                                        ls,
                                                        z0,
                                                    ) && #[trigger] switch_step(tm, ls, z0, z1)
                                                        && z1.train < a + 1 implies qcov(
                                                    queue,
                                                    z1,
                                                ) by {
                                                    if z1.train == a {
                                                        assert(ls[a as int].route[z1.train_schedule_progress as int]
                                                            == node.station);
                                                        assert(false);
                                                    }
                                                }
                                            }
                                        }
                                    } else {
                                        proof {
                                            assert forall|z0: QueueNode, z1: QueueNode|
                                                entry_matches(prev@[prev@.len() - 1], z0)
                                                    && z0.score == node.score && boards(ls, z0)
                                                    && #[trigger] switch_step(tm, ls, z0, z1)
                                                    && z1.train < a + 1 implies qcov(queue, z1) by {
                                                if z1.train == a {
                                                    assert(z0.train == node.train);
                                                    assert(false);
                                                }
                                            }
                                        }
                                    }
                                    a = a + 1;
                                }
                                proof {
                                    lemma_full_expansion(queue, prev@, tm, ls, n_spec, node,
                                        rider, score2, lines@.len() as int);
                                }
                            }
                        }
                    }
                },
            }
        }
        proof {
            assert forall|i: int, j: int|
                0 <= i <= j < n_spec implies (if i < station as int + 1 {
                is_min_journey_time(tm, ls, i, j, #[trigger] times.deep_view()[i][j])
            } else {
                times.deep_view()[i][j] == UNREACHED_TIME
            }) by {
                if i == station as int {
                    if unvisited@.contains(j as usize) {
                        // the queue drained: any journey to this station
                        // would have had to pass an expansion of its key,
                        // yet expanded stations are never left unvisited
                        assert forall|z: QueueNode, steps: nat|
                            #[trigger] journey_reaches(tm, ls, station as int, z, steps)
                            implies z.station != j by {
                            if z.station == j {
                                lemma_journey_floor(tm, ls, station as int, n_spec, queue, prev@,
                                    z, steps, u64::MAX as int + 1);
                                let jj = choose|jj: int|
                                    0 <= jj < prev@.len() && entry_matches(#[trigger] prev@[jj], z)
                                        && prev@[jj].4 <= z.score;
                                let k = choose|k: int|
                                    0 <= k < unvisited@.len() && unvisited@[k] == j as usize;
                                assert(prev@[jj].0 != unvisited@[k]);
                                assert(false);
                            }
                        }
                        assert(times.deep_view()[station as int][j] == UNREACHED_TIME);
                    } else {
                        assert(min_protected(tm, ls, station as int, j,
                            times.deep_view()[station as int][j]));
                    }
                }
            }
        }
        station = station + 1;
    }
    times
}


/// The weighted time of the pair `(i, j)`: its travel demand times its
/// travel time.
pub open spec fn pair_weight(times: Seq<Seq<u64>>, freqs: Seq<Seq<u64>>, i: int, j: int) -> int {
    freqs[i][j] * times[i][j]
}

/// Weighted times of row `i`, over columns `i + 1 .. j`.
pub open spec fn weight_row_sum(
    times: Seq<Seq<u64>>,
    freqs: Seq<Seq<u64>>,
    i: int,
    j: int,
) -> int
    decreases j - i,
{
    if j <= i + 1 {
        0
    } else {
        weight_row_sum(times, freqs, i, j - 1) + pair_weight(times, freqs, i, j - 1)
    }
}

/// Weighted times of all pairs `(i, j)` with `0 <= i < j < n` and `i < r`.
pub open spec fn weight_sum_upto(
    times: Seq<Seq<u64>>,
    freqs: Seq<Seq<u64>>,
    n: int,
    r: int,
) -> int
    decreases r,
{
    if r <= 0 {
        0
    } else {
        weight_sum_upto(times, freqs, n, r - 1) + weight_row_sum(times, freqs, r - 1, n)
    }
}

/// The demand-weighted total travel time of a time matrix: every unordered
/// station pair counted once.
pub open spec fn weighted_total(times: Seq<Seq<u64>>, freqs: Seq<Seq<u64>>, n: int) -> int {
    weight_sum_upto(times, freqs, n, n)
}

/// A weighted row sum is never negative and never shrinks as it widens.
proof fn lemma_weight_row_sum_monotone(
    times: Seq<Seq<u64>>,
    freqs: Seq<Seq<u64>>,
    i: int,
    j1: int,
    j2: int,
)
    requires
        j1 <= j2,
    ensures
        weight_row_sum(times, freqs, i, j1) <= weight_row_sum(times, freqs, i, j2),
    decreases j2 - j1,
{
    if j1 < j2 {
        lemma_weight_row_sum_monotone(times, freqs, i, j1, j2 - 1);
        vstd::arithmetic::mul::lemma_mul_nonnegative(
            freqs[i][j2 - 1] as int,
            times[i][j2 - 1] as int,
        );
    }
}

/// A weighted row sum is never negative.
proof fn lemma_weight_row_sum_nonneg(times: Seq<Seq<u64>>, freqs: Seq<Seq<u64>>, i: int, j: int)
    ensures
        0 <= weight_row_sum(times, freqs, i, j),
{
    if j <= i + 1 {
    } else {
        lemma_weight_row_sum_monotone(times, freqs, i, i + 1, j);
    }
}

/// A weighted prefix sum is never negative.
proof fn lemma_weight_sum_upto_nonneg(times: Seq<Seq<u64>>, freqs: Seq<Seq<u64>>, n: int, r: int)
    ensures
        0 <= weight_sum_upto(times, freqs, n, r),
    decreases r,
{
    if r > 0 {
        lemma_weight_sum_upto_nonneg(times, freqs, n, r - 1);
        lemma_weight_row_sum_nonneg(times, freqs, r - 1, n);
    }
}

/// The demand-weighted total of a travel time matrix, clamped to a machine
/// word.
#[verifier::loop_isolation(false)]
pub fn network_objective(problem: &Problem, times: &Vec<Vec<u64>>) -> (r: u64)
    requires
        problem.wf(),
        sym_sized(times.deep_view(), problem.n as int),
    ensures
        r as int == sat64(
            weighted_total(
                times.deep_view(),
                problem.travel_frequencies.deep_view(),
                problem.n as int,
            ),
        ),
{
    let ghost tm = times.deep_view();
    let ghost fm = problem.travel_frequencies.deep_view();
    let ghost n_spec = problem.n as int;
    let n = problem.n;
    let mut acc: u64 = 0;
    let mut i: usize = 0;
    while i < n
        invariant
            i <= n,
            acc as int == sat64(weight_sum_upto(tm, fm, n_spec, i as int)),
        decreases n - i,
    {
        let mut j: usize = i + 1;
        while j < n
            invariant
                i < j <= n,
                acc as int == sat64(
                    weight_sum_upto(tm, fm, n_spec, i as int) + weight_row_sum(
                        tm,
                        fm,
                        i as int,
                        j as int,
                    ),
                ),
            decreases n - j,
        {
            proof {
                lemma_weight_sum_upto_nonneg(tm, fm, n_spec, i as int);
                lemma_weight_row_sum_nonneg(tm, fm, i as int, j as int);
                vstd::arithmetic::mul::lemma_mul_nonnegative(
                    fm[i as int][j as int] as int,
                    tm[i as int][j as int] as int,
                );
            }
            let f = mat_at(&problem.travel_frequencies, i, j);
            let w = mat_at(times, i, j);
            let term: u64 = match f.checked_mul(w) {
                Some(p) => p,
                None => u64::MAX,
            };
            acc = acc.saturating_add(term);
            j = j + 1;
        }
        i = i + 1;
    }
    acc
}

/// Evaluate a candidate line set: the demand-weighted total of the pairwise
/// travel times of the commuter model — the symmetric matrix holding, for
/// each station pair, the least journey time between them, or the unreached
/// penalty when no journey connects them.
pub fn evaluate(problem: &Problem, lines: &Vec<TrainLine>) -> (r: u64)
    requires
        problem.wf(),
        lines_wf(lines.deep_view(), problem.n as int),
    ensures
        objective_of(r, lines.deep_view(), *problem),
{
    let times = compute_travel_times(problem, lines);
    let r = network_objective(problem, &times);
    proof {
        assert(sym_sized(times.deep_view(), problem.n as int) && settled_pairs(
            times.deep_view(),
            problem.track_times.deep_view(),
            lines.deep_view(),
            problem.n as int,
            problem.n as int,
        ) && r as int == sat64(
            weighted_total(
                times.deep_view(),
                problem.travel_frequencies.deep_view(),
                problem.n as int,
            ),
        ));
    }
    r
}

} // verus!
