//! The size bucket: the first stage of the pipeline. Files of a unique
//! size are never hashed; the first duplicate of a size retroactively
//! promotes the stashed first path to a hashing job.

use vstd::prelude::*;
use std::collections::HashMap;

verus! {

broadcast use vstd::std_specs::hash::group_hash_axioms;

/// What the bucket knows of one file size: one path stashed so far, or
/// two or more already promoted.
pub enum SizeState {
    One(String),
    Many,
}

/// Maps each file size seen to its state. A size's state only ever
/// moves forward: absent, then `One`, then `Many`.
pub struct SizeMap {
    m: HashMap<u64, SizeState>,
}

impl View for SizeMap {
    type V = Map<u64, SizeState>;

    closed spec fn view(&self) -> Map<u64, SizeState> {
        self.m@
    }
}

impl SizeMap {
    /// An empty bucket.
    pub fn new() -> (s: SizeMap)
        ensures
            s@ == Map::<u64, SizeState>::empty(),
    {
        SizeMap { m: HashMap::new() }
    }

    /// Sees one file of size `fsize` at `path` and hands back the
    /// hashing jobs that fall due: none on a first sighting, the
    /// stashed path and the new one on the second, the new one alone
    /// from then on.
    pub fn observe(&mut self, fsize: u64, path: String) -> (jobs: Vec<(u64, String)>)
        ensures
            !old(self)@.contains_key(fsize) ==> final(self)@ == old(self)@.insert(
                fsize,
                SizeState::One(path),
            ) && jobs@.len() == 0,
            old(self)@.contains_key(fsize) ==> final(self)@ == old(self)@.insert(
                fsize,
                SizeState::Many,
            ),
            (old(self)@.contains_key(fsize) && old(self)@[fsize] is One) ==> jobs@.len() == 2
                && jobs@[0].0 == fsize && jobs@[0].1 == old(self)@[fsize]->One_0 && jobs@[1].0
                == fsize && jobs@[1].1 == path,
            (old(self)@.contains_key(fsize) && old(self)@[fsize] is Many) ==> jobs@.len() == 1
                && jobs@[0].0 == fsize && jobs@[0].1 == path,
    {
        if !self.m.contains_key(&fsize) {
            self.m.insert(fsize, SizeState::One(path));
            return Vec::new();
        }
        let prev_state = self.m.remove(&fsize).unwrap();
        self.m.insert(fsize, SizeState::Many);
        let mut jobs: Vec<(u64, String)> = Vec::new();
        match prev_state {
            SizeState::One(prev) => {
                jobs.push((fsize, prev));
                jobs.push((fsize, path));
            },
            SizeState::Many => {
                jobs.push((fsize, path));
                proof {
                    assert(self@ =~= old(self)@.insert(fsize, SizeState::Many));
                }
            },
        }
        jobs
    }
}

} // verus!
