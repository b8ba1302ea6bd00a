//! Half-open integer intervals and their three-way split.
use vstd::prelude::*;

verus! {

/// The half-open run of integers `[start, start + count)`.
///
/// An interval with `count == 0` stands for the empty set.
#[derive(Clone, Copy, Debug, PartialEq, Eq, Structural)]
pub struct AlmanacRange {
    pub start: i64,
    pub count: i64,
}

impl AlmanacRange {
    /// The first integer past the interval.
    pub open spec fn end(self) -> int {
        self.start + self.count
    }

    /// An interval is valid when its length is not negative and its end can
    /// be held in an `i64`.
    pub open spec fn valid(self) -> bool {
        0 <= self.count && self.end() <= i64::MAX
    }

    /// Whether the integer `x` lies in the interval.
    pub open spec fn contains(self, x: int) -> bool {
        self.start <= x < self.end()
    }

    /// The part of the interval that lies in the window `[lo, hi)`, or `None`
    /// where the two do not meet.
    pub open spec fn clip(self, lo: int, hi: int) -> Option<AlmanacRange> {
        let a = if lo > self.start { lo } else { self.start as int };
        let b = if hi < self.end() { hi } else { self.end() };
        if a < b {
            Some(AlmanacRange { start: a as i64, count: (b - a) as i64 })
        } else {
            None
        }
    }

    /// The part of the interval that lies before `cut`.
    pub open spec fn before(self, cut: int) -> Option<AlmanacRange> {
        self.clip(self.start as int, cut)
    }

    /// The part of the interval that lies at or after `cut`.
    pub open spec fn after(self, cut: int) -> Option<AlmanacRange> {
        self.clip(cut, self.end())
    }

    /// Tests `valid` at run time.
    pub fn is_valid(&self) -> (ok: bool)
        ensures
            ok == self.valid(),
    {
        self.count >= 0 && self.start <= i64::MAX - self.count
    }

    /// Cuts the interval by the window `[left_cut, right_cut)` into the part
    /// before the window, the part inside it and the part at or after its
    /// end. A part that would be empty is absent, and the lengths of the
    /// parts add up to the length of the interval.
    pub fn split(&self, left_cut: i64, right_cut: i64) -> (parts: (
        Option<AlmanacRange>,
        Option<AlmanacRange>,
        Option<AlmanacRange>,
    ))
        requires
            self.valid(),
            left_cut <= right_cut,
        ensures
            parts.0 == self.before(left_cut as int),
            parts.1 == self.clip(left_cut as int, right_cut as int),
            parts.2 == self.after(right_cut as int),
            part_count(parts.0) + part_count(parts.1) + part_count(parts.2) == self.count,
    {
        let stop: i64 = self.start + self.count;

        let lstop: i64 = if left_cut < stop { left_cut } else { stop };
        let lcount: i64 = if lstop > self.start { lstop - self.start } else { 0 };

        let cstart: i64 = if left_cut > self.start { left_cut } else { self.start };
        let cstop: i64 = if right_cut < stop { right_cut } else { stop };
        let ccount: i64 = if cstop > cstart { cstop - cstart } else { 0 };

        let rstart: i64 = if right_cut > self.start { right_cut } else { self.start };
        let rcount: i64 = if stop > rstart { stop - rstart } else { 0 };

        (
            if lcount > 0 { Some(AlmanacRange { start: self.start, count: lcount }) } else { None },
            if ccount > 0 { Some(AlmanacRange { start: cstart, count: ccount }) } else { None },
            if rcount > 0 { Some(AlmanacRange { start: rstart, count: rcount }) } else { None },
        )
    }
}

/// The length of a part that may be absent: an absent part has length 0.
pub open spec fn part_count(part: Option<AlmanacRange>) -> int {
    match part {
        Some(r) => r.count as int,
        None => 0,
    }
}

} // verus!
