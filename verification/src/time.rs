//! Millisecond durations, sample indices and half-open time ranges.

use vstd::prelude::*;

verus! {

/// A duration or an instant on a timeline, in whole milliseconds.
#[derive(Debug, Clone, Copy, Default, PartialEq, Eq, Structural, PartialOrd, Ord, Hash)]
pub struct DurationMs(pub u64);

/// A zero-based index into a stream of audio frames.
#[derive(Debug, Clone, Copy, Default, PartialEq, Eq, Structural, PartialOrd, Ord, Hash)]
pub struct SampleIndex(pub u64);

/// A half-open interval `[start, end)` of milliseconds.
#[derive(Debug, Clone, Copy, Default, PartialEq, Eq, Structural)]
pub struct TimeRange {
    pub start: DurationMs,
    pub end: DurationMs,
}

impl TimeRange {
    /// The length of the range as a number, `end - start`, or 0 when `end < start`.
    pub open spec fn spec_len(self) -> nat {
        if self.end.0 >= self.start.0 {
            (self.end.0 - self.start.0) as nat
        } else {
            0
        }
    }

    /// Whether the millisecond `point` lies in `[start, end)`.
    pub open spec fn holds(self, point: int) -> bool {
        self.start.0 <= point < self.end.0
    }

    /// Builds the range `[start, end)` as given; no ordering is required.
    pub fn new(start: DurationMs, end: DurationMs) -> (range: Self)
        ensures
            range.start == start,
            range.end == end,
    {
        Self { start, end }
    }

    /// The length of the range, saturating at zero for a reversed range.
    pub fn duration(self) -> (d: DurationMs)
        ensures
            d.0 == self.spec_len(),
    {
        DurationMs(self.end.0.saturating_sub(self.start.0))
    }

    /// Whether the two half-open ranges share at least one instant.
    pub fn overlaps(&self, other: &TimeRange) -> (b: bool)
        ensures
            b == (self.start.0 < other.end.0 && other.start.0 < self.end.0),
    {
        self.start.0 < other.end.0 && other.start.0 < self.end.0
    }

    /// Whether `point` lies in `[start, end)`.
    pub fn contains(&self, point: DurationMs) -> (b: bool)
        ensures
            b == self.holds(point.0 as int),
    {
        self.start.0 <= point.0 && point.0 < self.end.0
    }
}

/// Overlap is symmetric, and two non-empty ranges overlap exactly when some
/// instant lies in both.
pub proof fn lemma_overlaps_iff_common_point(a: TimeRange, b: TimeRange)
    requires
        a.start.0 < a.end.0,
        b.start.0 < b.end.0,
    ensures
        (a.start.0 < b.end.0 && b.start.0 < a.end.0) == (b.start.0 < a.end.0 && a.start.0 < b.end.0),
        (a.start.0 < b.end.0 && b.start.0 < a.end.0) <==> (exists|p: int| a.holds(p) && b.holds(p)),
{
    if a.start.0 < b.end.0 && b.start.0 < a.end.0 {
        let p: int = if a.start.0 >= b.start.0 { a.start.0 as int } else { b.start.0 as int };
        assert(a.holds(p) && b.holds(p));
    }
}

/// A range contains exactly `duration` instants: the instants it holds are
/// `start, start + 1, ..., start + duration - 1`.
pub proof fn lemma_contains_matches_duration(r: TimeRange, p: int)
    ensures
        r.holds(p) <==> (r.start.0 <= p < r.start.0 + r.spec_len()),
{
}

} // verus!
