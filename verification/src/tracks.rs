//! Walking the tracks a train line requires: every consecutive stop pair,
//! plus the wrap pair joining the route's ends for a `Circular` line. This
//! iterator is the executable twin of the `line_tracks` specification and is
//! the single source of truth the move generator's cost bookkeeping rests on.

use crate::problem::{
    lemma_lines_view, line_tracks, line_uses_track, lines_use_track, pair_connects, ScheduleType,
    TrainLine,
};
use vstd::prelude::*;

verus! {

/// Helper iterator to visit all tracks on a single train line.
pub struct TrainTrackIterator<'a> {
    train_line: &'a TrainLine,
    i: usize,
}

impl<'a> TrainTrackIterator<'a> {
    /// The line being walked.
    pub closed spec fn line(&self) -> &'a TrainLine {
        self.train_line
    }

    /// How many track pairs have been handed out so far.
    pub closed spec fn pos(&self) -> int {
        self.i as int
    }

    /// Create a new track iterator for a specific line.
    pub fn new(train_line: &'a TrainLine) -> (r: Self)
        ensures
            r.line() == train_line,
            r.pos() == 0,
    {
        Self { train_line, i: 0 }
    }

    /// Hand out the next track pair the line requires, or `None` once every
    /// pair has been seen.
    pub fn next(&mut self) -> (r: Option<(usize, usize)>)
        requires
            old(self).line()@.route.len() >= 2,
            0 <= old(self).pos() <= line_tracks(old(self).line()@).len(),
        ensures
            final(self).line() == old(self).line(),
            old(self).pos() < line_tracks(old(self).line()@).len() ==> {
                &&& r == Some(line_tracks(old(self).line()@)[old(self).pos()])
                &&& final(self).pos() == old(self).pos() + 1
            },
            old(self).pos() == line_tracks(old(self).line()@).len() ==> {
                &&& r is None
                &&& final(self).pos() == old(self).pos()
            },
    {
        let route_len = self.train_line.route.len();
        let limit = route_len - 1 + (match self.train_line.ty {
            ScheduleType::Bidirectional => 0,
            ScheduleType::Circular => 1,
        });
        if self.i == limit {
            return None;
        }
        self.i = self.i + 1;
        if self.train_line.ty == ScheduleType::Circular && self.i == route_len {
            return Some((self.train_line.route[0], self.train_line.route[route_len - 1]));
        }
        Some((self.train_line.route[self.i - 1], self.train_line.route[self.i]))
    }
}

/// Whether this line requires the track between stations `a` and `b`, in
/// either orientation.
#[verifier::loop_isolation(false)]
pub fn line_uses_track_at(l: &TrainLine, a: usize, b: usize) -> (r: bool)
    requires
        l@.route.len() >= 2,
    ensures
        r == line_uses_track(l@, a as int, b as int),
{
    let mut it = TrainTrackIterator::new(l);
    loop
        invariant
            it.line() == l,
            l@.route.len() >= 2,
            0 <= it.pos() <= line_tracks(l@).len(),
            forall|k: int|
                0 <= k < it.pos() ==> !pair_connects(
                    #[trigger] line_tracks(l@)[k],
                    a as int,
                    b as int,
                ),
        decreases line_tracks(l@).len() - it.pos(),
    {
        match it.next() {
            Some(p) => {
                if (p.0 == a && p.1 == b) || (p.0 == b && p.1 == a) {
                    return true;
                }
            },
            None => {
                return false;
            },
        }
    }
}

/// Whether some line in the list requires the track between `a` and `b`.
#[verifier::loop_isolation(false)]
pub fn lines_use_track_at(lines: &Vec<TrainLine>, a: usize, b: usize) -> (r: bool)
    requires
        forall|k: int|
            0 <= k < lines.deep_view().len() ==> (#[trigger] lines.deep_view()[k]).route.len()
                >= 2,
    ensures
        r == lines_use_track(lines.deep_view(), a as int, b as int),
{
    proof {
        lemma_lines_view(lines);
    }
    let mut k: usize = 0;
    while k < lines.len()
        invariant
            k <= lines.len(),
            forall|m: int|
                0 <= m < k ==> !line_uses_track(
                    #[trigger] lines.deep_view()[m],
                    a as int,
                    b as int,
                ),
        decreases lines.len() - k,
    {
        proof {
            lemma_lines_view(lines);
            assert(lines.deep_view()[k as int] == lines@[k as int]@);
        }
        if line_uses_track_at(&lines[k], a, b) {
            proof {
                assert(line_uses_track(lines.deep_view()[k as int], a as int, b as int));
            }
            return true;
        }
        k = k + 1;
    }
    false
}

} // verus!
