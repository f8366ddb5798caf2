//! Early filters of the pipeline: the inode filter that keeps hardlinked
//! paths from reporting themselves as duplicates, the size bounds, and
//! the hidden-name test.

use vstd::prelude::*;
use std::collections::HashSet;

verus! {

broadcast use vstd::std_specs::hash::group_hash_axioms;

/// One key for a (device, inode) pair.
pub open spec fn inode_key(dev: u64, ino: u64) -> u128 {
    (dev * 0x10000000000000000 + ino) as u128
}

/// Distinct (device, inode) pairs have distinct keys.
pub proof fn lemma_inode_key_injective(d1: u64, i1: u64, d2: u64, i2: u64)
    ensures
        inode_key(d1, i1) == inode_key(d2, i2) <==> (d1 == d2 && i1 == i2),
{
    assert(d1 * 0x10000000000000000 + i1 < 0x100000000000000000000000000000000);
    assert(d2 * 0x10000000000000000 + i2 < 0x100000000000000000000000000000000);
    if d1 * 0x10000000000000000 + i1 == d2 * 0x10000000000000000 + i2 {
        assert(d1 == d2 && i1 == i2);
    }
}

/// The set of (device, inode) pairs already seen. A pair passes
/// exactly once, so hardlinked paths to one inode enter the pipeline
/// at most once.
pub struct InodeFilter {
    seen: HashSet<u128>,
}

impl View for InodeFilter {
    type V = Set<u128>;

    closed spec fn view(&self) -> Set<u128> {
        self.seen@
    }
}

impl InodeFilter {
    /// A filter that has seen nothing.
    pub fn new() -> (f: InodeFilter)
        ensures
            f@ == Set::<u128>::empty(),
    {
        InodeFilter { seen: HashSet::new() }
    }

    /// Lets a file through exactly when its (device, inode) pair is
    /// new; the pair is recorded as it passes.
    pub fn check_inode(&mut self, dev: u64, ino: u64) -> (r: bool)
        ensures
            r == !old(self)@.contains(inode_key(dev, ino)),
            final(self)@ == old(self)@.insert(inode_key(dev, ino)),
    {
        let key: u128 = (dev as u128) * 0x10000000000000000u128 + (ino as u128);
        proof {
            assert(key == inode_key(dev, ino));
        }
        self.seen.insert(key)
    }
}

/// Whether a file of `fsize` bytes falls inside the configured bounds:
/// files below the minimum or above the maximum take no part at all.
pub fn size_in_range(fsize: u64, minsize: u64, maxsize: u64) -> (r: bool)
    ensures
        r == (minsize <= fsize && fsize <= maxsize),
{
    minsize <= fsize && fsize <= maxsize
}

/// Whether a filename counts as hidden: its first character is a dot.
pub fn is_hidden_name(name: &str) -> (r: bool)
    ensures
        r == (name@.len() > 0 && name@[0] == '.'),
{
    if name.is_empty() {
        false
    } else {
        name.get_char(0) == '.'
    }
}

/// Whether an entry passes the hidden-name rule: with `nohidden` set,
/// no path whose final name component begins with a dot goes on.
pub fn passes_hidden_rule(nohidden: bool, name: &str) -> (r: bool)
    ensures
        r == !(nohidden && name@.len() > 0 && name@[0] == '.'),
{
    !(nohidden && is_hidden_name(name))
}

} // verus!
