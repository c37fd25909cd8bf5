//! The two metaheuristics that pick the next candidate: tabu search, which
//! forbids recently visited line lists for an adaptive while, and simulated
//! annealing, which accepts worsening candidates with odds that cool over
//! time. Both consume a batch of already scored candidates and return the
//! chosen one, or nothing when no candidate is acceptable.

use crate::problem::{LineView, Problem, TrainLine};
use crate::rng::RandomSource;
use crate::working::{clone_lines, lines_equal, same_network, WorkingSolution};
use vstd::prelude::*;

verus! {

/// A candidate together with its evaluator score.
pub struct ScoredCandidate {
    /// The candidate network.
    pub solution: WorkingSolution,
    /// The evaluator's objective value for it; lower is better.
    pub score: u64,
}

/// The candidate is one of the batch: some batch member has the same network
/// and the same score.
pub open spec fn cand_from(sc: ScoredCandidate, batch: Seq<ScoredCandidate>) -> bool {
    exists|k: int|
        0 <= k < batch.len() && same_network((#[trigger] batch[k]).solution, sc.solution)
            && batch[k].score == sc.score
}

/// Configuration of the tabu search.
#[derive(Debug, Clone, Copy, PartialEq, Eq, Structural)]
pub struct TabuParams {
    /// How many iterations a signature stays forbidden to begin with.
    pub initial_timeout: usize,
    /// The step by which the timeout adapts every call.
    pub size_adjust: usize,
}

/// A line-list signature is recorded in the tabu list with time `at`.
pub open spec fn tabu_has(t: Seq<(Vec<TrainLine>, usize)>, sig: Seq<LineView>, at: int) -> bool {
    exists|k: int|
        0 <= k < t.len() && (#[trigger] t[k]).0.deep_view() == sig && t[k].1 == at
}

/// A signature is forbidden at `time`: some recorded entry has not yet timed
/// out under the given timeout.
pub open spec fn is_tabu_active(
    t: Seq<(Vec<TrainLine>, usize)>,
    timeout: usize,
    sig: Seq<LineView>,
    time: usize,
) -> bool {
    exists|k: int|
        0 <= k < t.len() && (#[trigger] t[k]).0.deep_view() == sig && t[k].1 + timeout >= time
}

/// The adaptive timeout after a choice: shrunk by one step (down to a floor)
/// when the chosen candidate is worse than the previous score, grown by one
/// step otherwise.
pub open spec fn next_timeout(t: usize, adjust: usize, worse: bool) -> usize {
    if worse && t > adjust {
        (t - adjust) as usize
    } else if !worse {
        if t + adjust > usize::MAX {
            usize::MAX
        } else {
            (t + adjust) as usize
        }
    } else {
        t
    }
}

/// One retained entry stems from a still-active entry among the first `k` of
/// the old list.
pub open spec fn entry_from(
    e: (Vec<TrainLine>, usize),
    t0: Seq<(Vec<TrainLine>, usize)>,
    timeout0: usize,
    time: usize,
    k: int,
) -> bool {
    exists|m: int|
        0 <= m < k && (#[trigger] t0[m]).0.deep_view() == e.0.deep_view() && t0[m].1 == e.1 && t0[
            m
        ].1 + timeout0 >= time
}

/// Stemming from the first `k` entries also means stemming from the first
/// `k2` whenever `k <= k2`.
proof fn lemma_entry_from_weaken(
    e: (Vec<TrainLine>, usize),
    t0: Seq<(Vec<TrainLine>, usize)>,
    timeout0: usize,
    time: usize,
    k: int,
    k2: int,
)
    requires
        k <= k2,
        entry_from(e, t0, timeout0, time, k),
    ensures
        entry_from(e, t0, timeout0, time, k2),
{
    let m = choose|m: int|
        0 <= m < k && (#[trigger] t0[m]).0.deep_view() == e.0.deep_view() && t0[m].1 == e.1 && t0[
            m
        ].1 + timeout0 >= time;
    assert(0 <= m < k2 && t0[m].0.deep_view() == e.0.deep_view() && t0[m].1 == e.1 && t0[m].1
        + timeout0 >= time);
}

/// A recorded signature stays recorded when another entry is appended.
proof fn lemma_tabu_has_push(
    t: Seq<(Vec<TrainLine>, usize)>,
    e: (Vec<TrainLine>, usize),
    sig: Seq<LineView>,
    at: int,
)
    requires
        tabu_has(t, sig, at),
    ensures
        tabu_has(t.push(e), sig, at),
{
    let k = choose|k: int|
        0 <= k < t.len() && (#[trigger] t[k]).0.deep_view() == sig && t[k].1 == at;
    assert(t.push(e)[k] == t[k]);
}

/// Tabu search: a recency map from line-list signatures to the iteration at
/// which they were accepted, with an adaptive timeout.
pub struct TabuSearch {
    /// The forbidden signatures, each with the time it was recorded.
    pub tabu: Vec<(Vec<TrainLine>, usize)>,
    /// The configuration of the tabu search.
    pub params: TabuParams,
    /// The current timeout for expiry of recorded signatures.
    pub tabu_timeout: usize,
}

/// Whether the list records this exact line-list signature.
fn tabu_contains(t: &Vec<(Vec<TrainLine>, usize)>, lines: &Vec<TrainLine>) -> (r: bool)
    ensures
        r == exists|k: int|
            0 <= k < t@.len() && (#[trigger] t@[k]).0.deep_view() == lines.deep_view(),
{
    let mut k: usize = 0;
    while k < t.len()
        invariant
            k <= t@.len(),
            forall|m: int| 0 <= m < k ==> (#[trigger] t@[m]).0.deep_view() != lines.deep_view(),
        decreases t@.len() - k,
    {
        let e = &t[k];
        if lines_equal(&e.0, lines) {
            return true;
        }
        k = k + 1;
    }
    false
}

impl TabuSearch {
    /// A fresh tabu search with an empty recency map.
    pub fn new(params: TabuParams) -> (r: TabuSearch)
        ensures
            r.tabu@.len() == 0,
            r.params == params,
            r.tabu_timeout == params.initial_timeout,
    {
        TabuSearch { tabu: Vec::new(), params, tabu_timeout: params.initial_timeout }
    }

    /// Select the best-scored candidate whose line list is not currently
    /// forbidden, record its signature at `time`, and adapt the timeout:
    /// shrink it when the chosen candidate is worse than the previous score,
    /// grow it otherwise. Expired entries are evicted first. Returns nothing
    /// when every candidate is forbidden (shrinking the timeout), so the
    /// caller skips the iteration.
    #[verifier::loop_isolation(false)]
    pub fn choose_update(
        &mut self,
        problem: &Problem,
        candidates: &Vec<ScoredCandidate>,
        prev_score: u64,
        time: usize,
    ) -> (r: Option<ScoredCandidate>)
        ensures
            final(self).params == old(self).params,
            // Entries that have not timed out under the old timeout survive
            // the eviction.
            forall|k: int|
                0 <= k < old(self).tabu@.len() && (#[trigger] old(self).tabu@[k]).1 + old(
                    self,
                ).tabu_timeout >= time ==> tabu_has(
                    final(self).tabu@,
                    old(self).tabu@[k].0.deep_view(),
                    old(self).tabu@[k].1 as int,
                ),
            // Nothing else enters the map: every final entry except the one
            // recording the chosen candidate stems from a still-active old
            // entry, unchanged.
            forall|j: int|
                0 <= j < final(self).tabu@.len() - (if r is Some {
                    1int
                } else {
                    0int
                }) ==> entry_from(
                    #[trigger] final(self).tabu@[j],
                    old(self).tabu@,
                    old(self).tabu_timeout,
                    time,
                    old(self).tabu@.len() as int,
                ),
            match r {
                Some(sc) => {
                    &&& exists|k: int|
                        0 <= k < candidates@.len() && same_network(
                            (#[trigger] candidates@[k]).solution,
                            sc.solution,
                        ) && candidates@[k].score == sc.score
                    &&& !is_tabu_active(
                        old(self).tabu@,
                        old(self).tabu_timeout,
                        sc.solution.train_lines.deep_view(),
                        time,
                    )
                    &&& forall|k: int|
                        0 <= k < candidates@.len() && !is_tabu_active(
                            old(self).tabu@,
                            old(self).tabu_timeout,
                            (#[trigger] candidates@[k]).solution.train_lines.deep_view(),
                            time,
                        ) ==> sc.score <= candidates@[k].score
                    &&& final(self).tabu@.len() >= 1
                    &&& final(self).tabu@.last().0.deep_view()
                        == sc.solution.train_lines.deep_view()
                    &&& final(self).tabu@.last().1 == time
                    &&& tabu_has(final(self).tabu@, sc.solution.train_lines.deep_view(), time as int)
                    &&& final(self).tabu_timeout == next_timeout(
                        old(self).tabu_timeout,
                        old(self).params.size_adjust,
                        prev_score < sc.score,
                    )
                },
                None => {
                    &&& forall|k: int|
                        0 <= k < candidates@.len() ==> is_tabu_active(
                            old(self).tabu@,
                            old(self).tabu_timeout,
                            (#[trigger] candidates@[k]).solution.train_lines.deep_view(),
                            time,
                        )
                    &&& final(self).tabu_timeout == (if old(self).tabu_timeout > old(
                        self,
                    ).params.size_adjust {
                        (old(self).tabu_timeout - old(self).params.size_adjust) as usize
                    } else {
                        old(self).tabu_timeout
                    })
                },
            },
    {
        let ghost t0 = self.tabu@;
        let ghost timeout0 = self.tabu_timeout;
        // Evict entries whose recorded time has moved out of the window.
        let mut kept: Vec<(Vec<TrainLine>, usize)> = Vec::new();
        let mut k: usize = 0;
        while k < self.tabu.len()
            invariant
                k <= t0.len(),
                self.tabu@ == t0,
                self.tabu_timeout == timeout0,
                forall|m: int|
                    0 <= m < k && (#[trigger] t0[m]).1 + timeout0 >= time ==> tabu_has(
                        kept@,
                        t0[m].0.deep_view(),
                        t0[m].1 as int,
                    ),
                forall|j: int|
                    0 <= j < kept@.len() ==> entry_from(
                        #[trigger] kept@[j],
                        t0,
                        timeout0,
                        time,
                        k as int,
                    ),
            decreases t0.len() - k,
        {
            let ghost kept0 = kept@;
            let e = &self.tabu[k];
            if e.1.saturating_add(self.tabu_timeout) >= time {
                let copy = (clone_lines(&e.0), e.1);
                proof {
                    assert(copy.0.deep_view() == t0[k as int].0.deep_view() && copy.1
                        == t0[k as int].1);
                }
                kept.push(copy);
            }
            proof {
                assert forall|m: int|
                    0 <= m < k + 1 && (#[trigger] t0[m]).1 + timeout0 >= time implies tabu_has(
                    kept@,
                    t0[m].0.deep_view(),
                    t0[m].1 as int,
                ) by {
                    if m < k {
                        if kept@.len() == kept0.len() {
                            assert(kept@ == kept0);
                        } else {
                            assert(kept@ =~= kept0.push(kept@.last()));
                            lemma_tabu_has_push(kept0, kept@.last(), t0[m].0.deep_view(),
                                t0[m].1 as int);
                        }
                    } else {
                        assert(kept@.last().0.deep_view() == t0[m].0.deep_view());
                    }
                }
                assert forall|j: int| 0 <= j < kept@.len() implies entry_from(
                    #[trigger] kept@[j],
                    t0,
                    timeout0,
                    time,
                    k as int + 1,
                ) by {
                    if j < kept0.len() {
                        assert(kept@[j] == kept0[j]);
                        lemma_entry_from_weaken(kept0[j], t0, timeout0, time, k as int,
                            k as int + 1);
                    } else {
                        assert(t0[k as int].0.deep_view() == kept@[j].0.deep_view()
                            && t0[k as int].1 == kept@[j].1 && t0[k as int].1 + timeout0 >= time);
                    }
                }
            }
            k = k + 1;
        }
        self.tabu = kept;

        // Among candidates whose signature is not forbidden, take the one
        // with the least score (of equal scores, the latest).
        let mut best: Option<usize> = None;
        let mut c: usize = 0;
        while c < candidates.len()
            invariant
                c <= candidates@.len(),
                self.tabu_timeout == timeout0,
                forall|j: int|
                    0 <= j < self.tabu@.len() ==> entry_from(
                        #[trigger] self.tabu@[j],
                        t0,
                        timeout0,
                        time,
                        t0.len() as int,
                    ),
                forall|m: int|
                    0 <= m < t0.len() && (#[trigger] t0[m]).1 + timeout0 >= time ==> tabu_has(
                        self.tabu@,
                        t0[m].0.deep_view(),
                        t0[m].1 as int,
                    ),
                match best {
                    Some(bi) => {
                        &&& bi < c
                        &&& !is_tabu_active(
                            t0,
                            timeout0,
                            candidates@[bi as int].solution.train_lines.deep_view(),
                            time,
                        )
                        &&& forall|j: int|
                            0 <= j < c && !is_tabu_active(
                                t0,
                                timeout0,
                                (#[trigger] candidates@[j]).solution.train_lines.deep_view(),
                                time,
                            ) ==> candidates@[bi as int].score <= candidates@[j].score
                    },
                    None => {
                        forall|j: int|
                            0 <= j < c ==> is_tabu_active(
                                t0,
                                timeout0,
                                (#[trigger] candidates@[j]).solution.train_lines.deep_view(),
                                time,
                            )
                    },
                },
            decreases candidates@.len() - c,
        {
            let sig_forbidden = tabu_contains(&self.tabu, &candidates[c].solution.train_lines);
            proof {
                // Presence in the evicted list is exactly activity under the
                // old timeout.
                let sig = candidates@[c as int].solution.train_lines.deep_view();
                if sig_forbidden {
                    let j = choose|j: int|
                        0 <= j < self.tabu@.len() && (#[trigger] self.tabu@[j]).0.deep_view()
                            == sig;
                    assert(entry_from(self.tabu@[j], t0, timeout0, time, t0.len() as int));
                    let m = choose|m: int|
                        0 <= m < t0.len() && (#[trigger] t0[m]).0.deep_view()
                            == self.tabu@[j].0.deep_view() && t0[m].1 == self.tabu@[j].1 && t0[
                            m
                        ].1 + timeout0 >= time;
                    assert(is_tabu_active(t0, timeout0, sig, time));
                } else {
                    if is_tabu_active(t0, timeout0, sig, time) {
                        let m = choose|m: int|
                            0 <= m < t0.len() && (#[trigger] t0[m]).0.deep_view() == sig && t0[m].1
                                + timeout0 >= time;
                        assert(tabu_has(self.tabu@, t0[m].0.deep_view(), t0[m].1 as int));
                        assert(false);
                    }
                }
            }
            if !sig_forbidden {
                match best {
                    Some(bi) => {
                        if candidates[c].score <= candidates[bi].score {
                            best = Some(c);
                        }
                    },
                    None => {
                        best = Some(c);
                    },
                }
            }
            c = c + 1;
        }

        match best {
            Some(bi) => {
                let chosen = ScoredCandidate {
                    solution: candidates[bi].solution.clone_solution(),
                    score: candidates[bi].score,
                };
                if prev_score < chosen.score && self.tabu_timeout > self.params.size_adjust {
                    self.tabu_timeout = self.tabu_timeout - self.params.size_adjust;
                } else if prev_score >= chosen.score {
                    self.tabu_timeout = self.tabu_timeout.saturating_add(self.params.size_adjust);
                }
                let ghost pre = self.tabu@;
                let sig = clone_lines(&chosen.solution.train_lines);
                self.tabu.push((sig, time));
                proof {
                    assert(self.tabu@.last().0.deep_view()
                        == chosen.solution.train_lines.deep_view());
                    assert forall|m: int|
                        0 <= m < t0.len() && (#[trigger] t0[m]).1 + timeout0 >= time
                        implies tabu_has(self.tabu@, t0[m].0.deep_view(), t0[m].1 as int) by {
                        let j = choose|j: int|
                            0 <= j < pre.len() && (#[trigger] pre[j]).0.deep_view()
                                == t0[m].0.deep_view() && pre[j].1 == t0[m].1 as int;
                        assert(self.tabu@[j] == pre[j]);
                    }
                    assert forall|j: int| 0 <= j < self.tabu@.len() - 1 implies entry_from(
                        #[trigger] self.tabu@[j],
                        t0,
                        timeout0,
                        time,
                        t0.len() as int,
                    ) by {
                        assert(self.tabu@[j] == pre[j]);
                    }
                }
                Some(chosen)
            },
            None => {
                if self.tabu_timeout > self.params.size_adjust {
                    self.tabu_timeout = self.tabu_timeout - self.params.size_adjust;
                }
                None
            },
        }
    }
}

/// Tabu non-repetition: a signature accepted and recorded at one iteration
/// cannot be the signature accepted at a later iteration that still lies
/// within the active timeout window. The first call's record makes the
/// signature forbidden, and a chosen candidate is never forbidden.
pub proof fn lemma_tabu_non_repetition(
    m2: TabuSearch,
    accepted_sig: Seq<LineView>,
    accepted_at: usize,
    chosen_sig: Seq<LineView>,
    t2: usize,
)
    requires
        // The earlier acceptance stands in the map.
        tabu_has(m2.tabu@, accepted_sig, accepted_at as int),
        // The later iteration still lies within the window.
        accepted_at + m2.tabu_timeout >= t2,
        // What the later call chose was not forbidden then.
        !is_tabu_active(m2.tabu@, m2.tabu_timeout, chosen_sig, t2),
    ensures
        chosen_sig != accepted_sig,
{
    let k = choose|k: int|
        0 <= k < m2.tabu@.len() && (#[trigger] m2.tabu@[k]).0.deep_view() == accepted_sig
            && m2.tabu@[k].1 == accepted_at as int;
    assert(is_tabu_active(m2.tabu@, m2.tabu_timeout, accepted_sig, t2));
}

/// Configuration of the simulated annealing strategy: the starting
/// temperature and the geometric cooling factor `scale_num / scale_den`,
/// which must lie in the interval from zero (exclusive) to one (inclusive).
#[derive(Debug, Clone, Copy, PartialEq, Eq, Structural)]
pub struct SimAnnealParams {
    /// The temperature of the first iteration.
    pub initial_temp: u64,
    /// Numerator of the cooling factor.
    pub temp_scale_num: u64,
    /// Denominator of the cooling factor.
    pub temp_scale_den: u64,
}

impl SimAnnealParams {
    /// A valid cooling factor: a fraction in the interval from zero
    /// (exclusive) to one (inclusive).
    pub open spec fn wf(&self) -> bool {
        1 <= self.temp_scale_num <= self.temp_scale_den
    }
}

/// Simulated annealing: accept the first scanned improving candidate, or a
/// worsening one with odds that fall as the temperature cools.
pub struct SimAnneal {
    /// The current temperature.
    pub temp: u64,
    /// The configuration of the annealing.
    pub params: SimAnnealParams,
}

impl SimAnneal {
    /// A fresh annealing strategy at its initial temperature.
    pub fn new(params: SimAnnealParams) -> (r: SimAnneal)
        ensures
            r.temp == params.initial_temp,
            r.params == params,
    {
        SimAnneal { temp: params.initial_temp, params }
    }

    /// One step of geometric cooling: the new temperature is exactly the old
    /// one scaled by the cooling factor, rounded down. It never rises; it
    /// falls strictly whenever it is positive and the cooling factor is
    /// below one, and stays exactly equal under a factor of one.
    pub fn cool(&mut self)
        requires
            old(self).params.wf(),
        ensures
            final(self).params == old(self).params,
            final(self).temp as int == old(self).temp * old(self).params.temp_scale_num as int
                / old(self).params.temp_scale_den as int,
            final(self).temp <= old(self).temp,
            old(self).params.temp_scale_num < old(self).params.temp_scale_den && old(self).temp > 0
                ==> final(self).temp < old(self).temp,
            old(self).params.temp_scale_num == old(self).params.temp_scale_den ==> final(self).temp
                == old(self).temp,
    {
        let t = self.temp as u128;
        let num = self.params.temp_scale_num as u128;
        let den = self.params.temp_scale_den as u128;
        proof {
            assert((t as int) * (num as int) <= u128::MAX) by (nonlinear_arith)
                requires
                    t <= u64::MAX && num <= u64::MAX,
            ;
        }
        let cooled = t * num / den;
        proof {
            let ti = self.temp as int;
            let ni = self.params.temp_scale_num as int;
            let di = self.params.temp_scale_den as int;
            assert(ti * ni <= di * ti) by (nonlinear_arith)
                requires
                    0 <= ti,
                    0 < ni <= di,
            ;
            vstd::arithmetic::div_mod::lemma_div_multiples_vanish(ti, di);
            vstd::arithmetic::div_mod::lemma_div_is_ordered(ti * ni, di * ti, di);
            assert(cooled as int <= ti);
            if ni < di && ti > 0 {
                assert(ti * ni <= di * (ti - 1) + (di - 1)) by (nonlinear_arith)
                    requires
                        1 <= ti,
                        0 < ni < di,
                ;
                vstd::arithmetic::div_mod::lemma_div_multiples_vanish_fancy(ti - 1, di - 1, di);
                vstd::arithmetic::div_mod::lemma_div_is_ordered(
                    ti * ni,
                    di * (ti - 1) + (di - 1),
                    di,
                );
                assert(cooled as int <= ti - 1);
            }
            if ni == di {
                assert(ti * ni == di * ti) by (nonlinear_arith)
                    requires
                        ni == di,
                ;
                assert(cooled as int == ti);
            }
        }
        self.temp = cooled as u64;
    }

    /// Scan the candidates in random order: adopt the first that improves on
    /// the previous score, or a worsening one the Metropolis rule accepts at
    /// the current temperature; cool the temperature first. Returns nothing
    /// when the scan exhausts all candidates, which can only happen when
    /// none of them improves on the previous score.
    #[verifier::loop_isolation(false)]
    #[verifier::rlimit(30)]
    pub fn choose_update<R: RandomSource>(
        &mut self,
        problem: &Problem,
        candidates: Vec<ScoredCandidate>,
        rng: &mut R,
        prev_score: u64,
    ) -> (r: Option<ScoredCandidate>)
        requires
            old(self).params.wf(),
        ensures
            final(self).params == old(self).params,
            final(self).temp as int == old(self).temp * old(self).params.temp_scale_num as int
                / old(self).params.temp_scale_den as int,
            final(self).temp <= old(self).temp,
            old(self).params.temp_scale_num < old(self).params.temp_scale_den && old(self).temp > 0
                ==> final(self).temp < old(self).temp,
            old(self).params.temp_scale_num == old(self).params.temp_scale_den ==> final(self).temp
                == old(self).temp,
            match r {
                Some(sc) => cand_from(sc, candidates@),
                None => forall|k: int|
                    0 <= k < candidates@.len() ==> (#[trigger] candidates@[k]).score >= prev_score,
            },
    {
        self.cool();
        let ghost orig = candidates@;
        let mut remaining = candidates;
        proof {
            assert forall|k: int| 0 <= k < remaining@.len() implies cand_from(
                #[trigger] remaining@[k],
                orig,
            ) by {
                assert(same_network(orig[k].solution, remaining@[k].solution) && orig[k].score
                    == remaining@[k].score);
            }
            if exists|k: int| 0 <= k < orig.len() && (#[trigger] orig[k]).score < prev_score {
                let k = choose|k: int|
                    0 <= k < orig.len() && (#[trigger] orig[k]).score < prev_score;
                assert(remaining@[k].score < prev_score);
            }
        }
        while remaining.len() != 0
            invariant
                forall|k: int|
                    0 <= k < remaining@.len() ==> cand_from(#[trigger] remaining@[k], orig),
                (exists|k: int| 0 <= k < orig.len() && (#[trigger] orig[k]).score < prev_score)
                    ==> (exists|k: int|
                    0 <= k < remaining@.len() && (#[trigger] remaining@[k]).score < prev_score),
            decreases remaining@.len(),
        {
            let j = rng.pick(remaining.len());
            let ghost before = remaining@;
            let sc = remaining.remove(j);
            if sc.score < prev_score {
                return Some(sc);
            }
            let accept = rng.accept_worse(sc.score - prev_score, self.temp);
            if accept {
                return Some(sc);
            }
            proof {
                assert(remaining@ == before.remove(j as int));
                before.remove_ensures(j as int);
                if exists|k: int| 0 <= k < before.len() && (#[trigger] before[k]).score
                    < prev_score {
                    let k = choose|k: int|
                        0 <= k < before.len() && (#[trigger] before[k]).score < prev_score;
                    if k < j {
                        assert(remaining@[k].score < prev_score);
                    } else {
                        assert(k > j);
                        assert(remaining@[k - 1].score < prev_score);
                    }
                }
                assert forall|k: int| 0 <= k < remaining@.len() implies cand_from(
                    #[trigger] remaining@[k],
                    orig,
                ) by {
                    if k < j {
                        assert(remaining@[k] == before[k]);
                    } else {
                        assert(remaining@[k] == before[k + 1]);
                    }
                }
            }
        }
        None
    }
}

} // verus!
