//! The hash aggregator: collects (size, digest, path) results of the
//! sparse-hash stage into buckets keyed by (size, digest). Buckets that
//! end up with two or more paths are the candidate groups handed to the
//! byte comparator.

use vstd::prelude::*;
use crate::compare::bytes_equal;

verus! {

/// One bucket: every path seen with this size and this sparse digest.
pub struct HashBucket {
    pub size: u64,
    pub digest: Vec<u8>,
    pub paths: Vec<String>,
}

/// The buckets, no two sharing a (size, digest) key.
pub struct HashAggregator {
    pub buckets: Vec<HashBucket>,
}

impl HashAggregator {
    /// No two buckets share a key, and no bucket is empty.
    pub open spec fn inv(self) -> bool {
        &&& forall|i: int, j: int|
            0 <= i < j < self.buckets@.len() ==> !((#[trigger] self.buckets@[i]).size == (
            #[trigger] self.buckets@[j]).size && self.buckets@[i].digest@
                == self.buckets@[j].digest@)
        &&& forall|i: int|
            0 <= i < self.buckets@.len() ==> (#[trigger] self.buckets@[i]).paths@.len() >= 1
    }

    /// An empty aggregator.
    pub fn new() -> (a: HashAggregator)
        ensures
            a.inv(),
            a.buckets@.len() == 0,
    {
        HashAggregator { buckets: Vec::new() }
    }

    /// Files a path under its (size, digest) key: the path is appended
    /// to the one bucket with that key, or a fresh bucket is opened for
    /// it at the end. No other bucket changes.
    pub fn insert(&mut self, size: u64, digest: Vec<u8>, path: String)
        requires
            old(self).inv(),
        ensures
            final(self).inv(),
            forall|k: int|
                0 <= k < old(self).buckets@.len() && (#[trigger] old(self).buckets@[k]).size
                    == size && old(self).buckets@[k].digest@ == digest@ ==> {
                    &&& final(self).buckets@.len() == old(self).buckets@.len()
                    &&& (#[trigger] final(self).buckets@[k]).size == size
                    &&& final(self).buckets@[k].digest@ == digest@
                    &&& final(self).buckets@[k].paths@ == old(self).buckets@[k].paths@.push(path)
                    &&& forall|j: int|
                        0 <= j < old(self).buckets@.len() && j != k ==> final(self).buckets@[j]
                            == old(self).buckets@[j]
                },
            (forall|k: int|
                0 <= k < old(self).buckets@.len() ==> !((#[trigger] old(self).buckets@[k]).size
                    == size && old(self).buckets@[k].digest@ == digest@)) ==> {
                &&& final(self).buckets@.len() == old(self).buckets@.len() + 1
                &&& final(self).buckets@.subrange(0, old(self).buckets@.len() as int) == old(
                    self,
                ).buckets@
                &&& (final(self).buckets@.last()).size == size
                &&& (final(self).buckets@.last()).digest@ == digest@
                &&& (final(self).buckets@.last()).paths@.len() == 1
                &&& (final(self).buckets@.last()).paths@[0] == path
            },
    {
        let mut i: usize = 0;
        while i < self.buckets.len()
            invariant
                i <= self.buckets@.len(),
                self.buckets@ == old(self).buckets@,
                old(self).inv(),
                forall|k: int|
                    0 <= k < i ==> !((#[trigger] self.buckets@[k]).size == size
                        && self.buckets@[k].digest@ == digest@),
            decreases self.buckets@.len() - i,
        {
            if self.buckets[i].size == size && bytes_equal(&self.buckets[i].digest, &digest) {
                let mut b = self.buckets.remove(i);
                b.paths.push(path);
                self.buckets.insert(i, b);
                proof {
                    assert(self.buckets@.len() == old(self).buckets@.len());
                    assert forall|j: int|
                        0 <= j < old(self).buckets@.len() && j != i implies self.buckets@[j]
                        == old(self).buckets@[j] by {
                        if j < i {
                            assert(self.buckets@[j] == old(self).buckets@.remove(i as int)[j]);
                        } else {
                            assert(self.buckets@[j] == old(self).buckets@.remove(i as int)[j - 1]);
                        }
                    }
                    assert(self.buckets@[i as int].size == size && self.buckets@[i as int].digest@
                        == digest@ && self.buckets@[i as int].paths@ == old(self).buckets@[
                    i as int].paths@.push(path));
                    assert forall|x: int, y: int|
                        0 <= x < y < self.buckets@.len() implies !((#[trigger] self.buckets@[x]).size
                        == (#[trigger] self.buckets@[y]).size && self.buckets@[x].digest@
                        == self.buckets@[y].digest@) by {
                        assert(self.buckets@[x].size == old(self).buckets@[x].size
                            && self.buckets@[x].digest@ == old(self).buckets@[x].digest@);
                        assert(self.buckets@[y].size == old(self).buckets@[y].size
                            && self.buckets@[y].digest@ == old(self).buckets@[y].digest@);
                        assert(!(old(self).buckets@[x].size == old(self).buckets@[y].size && old(
                            self,
                        ).buckets@[x].digest@ == old(self).buckets@[y].digest@));
                    }
                    assert forall|x: int| 0 <= x < self.buckets@.len() implies (
                    #[trigger] self.buckets@[x]).paths@.len() >= 1 by {
                        if x != i {
                            assert(self.buckets@[x] == old(self).buckets@[x]);
                        }
                    }
                }
                return;
            }
            i = i + 1;
        }
        let mut paths: Vec<String> = Vec::new();
        paths.push(path);
        self.buckets.push(HashBucket { size, digest, paths });
        proof {
            assert(self.buckets@.subrange(0, old(self).buckets@.len() as int) =~= old(
                self,
            ).buckets@);
            assert forall|x: int, y: int|
                0 <= x < y < self.buckets@.len() implies !((#[trigger] self.buckets@[x]).size == (
            #[trigger] self.buckets@[y]).size && self.buckets@[x].digest@
                == self.buckets@[y].digest@) by {
                if y < old(self).buckets@.len() {
                    assert(self.buckets@[x] == old(self).buckets@[x] && self.buckets@[y] == old(
                        self,
                    ).buckets@[y]);
                } else {
                    assert(self.buckets@[x] == old(self).buckets@[x]);
                    assert(!(old(self).buckets@[x].size == size && old(self).buckets@[x].digest@
                        == digest@));
                }
            }
        }
    }

    /// Hands the buckets over, for the comparison phase to walk.
    pub fn take_buckets(self) -> (r: Vec<HashBucket>)
        ensures
            r == self.buckets,
    {
        self.buckets
    }
}

} // verus!
