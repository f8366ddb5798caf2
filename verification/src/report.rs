//! The result sink's tallies: how many duplicate groups were reported,
//! how many files are redundant copies, and how many bytes they take.

use vstd::prelude::*;

verus! {

/// Addition on the counters: exact until the counter is full, then
/// pinned at the top.
pub open spec fn sat_add(a: u64, b: u64) -> u64 {
    if a + b > u64::MAX {
        u64::MAX
    } else {
        (a + b) as u64
    }
}

/// Multiplication with the same saturation rule.
pub open spec fn sat_mul(a: u64, b: u64) -> u64 {
    if a * b > u64::MAX {
        u64::MAX
    } else {
        (a * b) as u64
    }
}

/// Running totals over every reported group.
pub struct Totals {
    pub dupes: u64,
    pub files: u64,
    pub size: u64,
}

/// `a + b`, saturating at the top of the counter.
fn add_sat(a: u64, b: u64) -> (r: u64)
    ensures
        r == sat_add(a, b),
{
    match a.checked_add(b) {
        Some(x) => x,
        None => u64::MAX,
    }
}

impl Totals {
    /// Nothing tallied yet.
    pub fn new() -> (t: Totals)
        ensures
            t.dupes == 0 && t.files == 0 && t.size == 0,
    {
        Totals { dupes: 0, files: 0, size: 0 }
    }

    /// Tallies one reported group of `len` paths of `size` bytes each:
    /// one more group, `len - 1` files that are redundant copies, and
    /// `size * (len - 1)` bytes taken by them.
    pub fn record(&mut self, size: u64, len: u64)
        requires
            len >= 2,
        ensures
            final(self).dupes == sat_add(old(self).dupes, 1),
            final(self).files == sat_add(old(self).files, (len - 1) as u64),
            final(self).size == sat_add(old(self).size, sat_mul(size, (len - 1) as u64)),
    {
        self.dupes = add_sat(self.dupes, 1);
        self.files = add_sat(self.files, len - 1);
        let extra = match size.checked_mul(len - 1) {
            Some(x) => x,
            None => u64::MAX,
        };
        self.size = add_sat(self.size, extra);
    }
}

} // verus!
