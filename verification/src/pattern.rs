//! Estimator that tells sequential from random writing.
use vstd::prelude::*;

verus! {

/// Bound of the pattern counter on both sides.
pub const PATTERN_LIMIT: isize = 5;

/// A saturating counter that rises on every write that starts where the
/// previous one stopped, and falls on every other write.
#[derive(Debug)]
pub struct WriterPattern {
    is_seq_count: isize,
    last_write_stop_offset: usize,
}

/// What a [`WriterPattern`] stands for: the counter and the offset at which
/// the last write stopped.
pub struct PatternView {
    pub count: int,
    pub last_stop: int,
}

/// The estimator after one more write of `size` bytes at `offset`.
pub open spec fn pattern_step(p: PatternView, offset: int, size: int) -> PatternView {
    PatternView {
        count: if p.last_stop == offset {
            if p.count < PATTERN_LIMIT {
                p.count + 1
            } else {
                p.count
            }
        } else {
            if p.count > -PATTERN_LIMIT {
                p.count - 1
            } else {
                p.count
            }
        },
        last_stop: offset + size,
    }
}

/// The estimator after the writes `ops`, each an `(offset, size)` pair,
/// applied in order to `start`.
pub open spec fn pattern_run(start: PatternView, ops: Seq<(int, int)>) -> PatternView
    decreases ops.len(),
{
    if ops.len() == 0 {
        start
    } else {
        pattern_step(pattern_run(start, ops.drop_last()), ops.last().0, ops.last().1)
    }
}

/// The counter lies within its limits.
pub open spec fn pattern_in_bounds(p: PatternView) -> bool {
    -PATTERN_LIMIT <= p.count <= PATTERN_LIMIT
}

impl View for WriterPattern {
    type V = PatternView;

    closed spec fn view(&self) -> PatternView {
        PatternView {
            count: self.is_seq_count as int,
            last_stop: self.last_write_stop_offset as int,
        }
    }
}

impl WriterPattern {
    /// The counter lies within its limits.
    pub open spec fn wf(&self) -> bool {
        pattern_in_bounds(self@)
    }

    /// A fresh estimator: counter zero, nothing written yet.
    pub fn new() -> (p: WriterPattern)
        ensures
            p@ == (PatternView { count: 0, last_stop: 0 }),
            p.wf(),
    {
        WriterPattern { is_seq_count: 0, last_write_stop_offset: 0 }
    }

    /// Records a write of `size` bytes at `offset`.
    pub fn monitor_write_at(&mut self, offset: usize, size: usize)
        requires
            old(self).wf(),
            offset + size <= usize::MAX,
        ensures
            final(self)@ == pattern_step(old(self)@, offset as int, size as int),
            final(self).wf(),
    {
        let last_offset: usize = self.last_write_stop_offset;
        self.last_write_stop_offset = offset + size;
        let count: isize = self.is_seq_count;
        if last_offset == offset {
            if count < PATTERN_LIMIT {
                self.is_seq_count = count + 1;
            }
        } else {
            if count > -PATTERN_LIMIT {
                self.is_seq_count = count - 1;
            }
        }
    }

    /// Whether the recent writes look sequential.
    pub fn is_seq(&self) -> (seq: bool)
        ensures
            seq == (self@.count >= 0),
    {
        self.is_seq_count >= 0
    }

    /// The current value of the counter.
    pub fn count(&self) -> (c: isize)
        ensures
            c == self@.count,
    {
        self.is_seq_count
    }
}

/// One recorded write keeps the counter within its limits.
pub proof fn lemma_pattern_step_bounded(p: PatternView, offset: int, size: int)
    requires
        pattern_in_bounds(p),
    ensures
        pattern_in_bounds(pattern_step(p, offset, size)),
{
}

/// Whatever writes are recorded, in whatever order, the counter never leaves
/// its limits.
pub proof fn lemma_pattern_run_bounded(start: PatternView, ops: Seq<(int, int)>)
    requires
        pattern_in_bounds(start),
    ensures
        pattern_in_bounds(pattern_run(start, ops)),
    decreases ops.len(),
{
    if ops.len() > 0 {
        lemma_pattern_run_bounded(start, ops.drop_last());
        lemma_pattern_step_bounded(
            pattern_run(start, ops.drop_last()),
            ops.last().0,
            ops.last().1,
        );
    }
}

} // verus!
