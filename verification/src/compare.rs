//! The byte comparator: splits a group of same-size candidate files into
//! exact-duplicate sets by walking their contents block by block and
//! partitioning on the first diverging block.
//!
//! A candidate group uses one strategy uniformly: `Fast` keeps a handle to
//! every file for the whole comparison, `Slow` holds no handle between
//! block reads. Groups of 100 or more candidates use `Slow`, which bounds
//! the number of file descriptors open at once.

use vstd::prelude::*;
use crate::sample::BLOCK;

verus! {

/// How the comparator holds a file between block reads: a live handle for
/// the whole comparison, or a stored offset with one open per block.
#[derive(Clone, Copy, Debug)]
pub enum Strategy {
    Fast,
    Slow,
}

/// Largest group that may hold every member's file open at once.
pub const STRATEGY_LIMIT: usize = 100;

/// Picks the candidate strategy for a group of `n` members. Groups of
/// `STRATEGY_LIMIT` or more must not keep every file open, so they run
/// with the `Slow` strategy.
pub fn select_strategy(n: usize) -> (s: Strategy)
    ensures
        n >= STRATEGY_LIMIT <==> s is Slow,
        n < STRATEGY_LIMIT <==> s is Fast,
{
    if n < STRATEGY_LIMIT {
        Strategy::Fast
    } else {
        Strategy::Slow
    }
}

/// Per-file state inside the comparator: the path, the file's bytes, the
/// chosen strategy, the read offset, and the block read last.
pub struct Candidate {
    pub path: String,
    pub data: Vec<u8>,
    pub strategy: Strategy,
    pub pos: usize,
    pub buf: Vec<u8>,
}

impl Candidate {
    /// The buffer always holds exactly the block that ends at the read
    /// offset.
    pub open spec fn inv(self) -> bool {
        &&& self.pos <= self.data@.len()
        &&& self.buf@.len() <= self.pos
        &&& self.buf@.len() <= BLOCK
        &&& self.buf@ == self.data@.subrange(self.pos - self.buf@.len(), self.pos as int)
    }

    /// A fresh candidate: nothing consumed, empty buffer.
    pub fn new(path: String, data: Vec<u8>, strategy: Strategy) -> (c: Candidate)
        ensures
            c.inv(),
            c.path@ == path@,
            c.data@ == data@,
            c.strategy == strategy,
            c.pos == 0,
            c.buf@ == Seq::<u8>::empty(),
    {
        let c = Candidate { path, data, strategy, pos: 0, buf: Vec::new() };
        proof {
            assert(c.buf@ =~= c.data@.subrange(0, 0));
        }
        c
    }

    /// Reads the next block of up to `BLOCK` bytes into the buffer and
    /// advances the offset. Returns the number of bytes read; zero means
    /// end of file.
    pub fn read_block(&mut self) -> (n: usize)
        requires
            old(self).inv(),
        ensures
            final(self).inv(),
            final(self).path@ == old(self).path@,
            final(self).data@ == old(self).data@,
            final(self).strategy == old(self).strategy,
            n == if old(self).data@.len() - old(self).pos >= BLOCK {
                BLOCK as int
            } else {
                old(self).data@.len() - old(self).pos
            },
            final(self).pos == old(self).pos + n,
            final(self).buf@ == old(self).data@.subrange(
                old(self).pos as int,
                old(self).pos + n,
            ),
    {
        let remaining = self.data.len() - self.pos;
        let n = if remaining >= BLOCK {
            BLOCK
        } else {
            remaining
        };
        let mut block: Vec<u8> = Vec::new();
        block.extend_from_slice(&self.data.as_slice()[self.pos..self.pos + n]);
        proof {
            assert(block@ =~= self.data@.subrange(self.pos as int, self.pos + n));
        }
        self.buf = block;
        self.pos = self.pos + n;
        n
    }

    /// Compares the block read last with another candidate's.
    pub fn buf_equal(&self, other: &Candidate) -> (r: bool)
        ensures
            r <==> self.buf@ == other.buf@,
    {
        bytes_equal(&self.buf, &other.buf)
    }

    /// Gives the path up, dropping the rest of the candidate.
    pub fn into_path(self) -> (r: String)
        ensures
            r@ == self.path@,
    {
        self.path
    }
}

/// A set of paths reported as byte-identical: `size` bytes each, at least
/// two members, every pair equal over the whole file.
pub struct DuplicateGroup {
    pub size: u64,
    pub paths: Vec<String>,
}

/// The (path, content) pairs a sequence of candidates stands for.
pub open spec fn cand_entries(s: Seq<Candidate>) -> Seq<(Seq<char>, Seq<u8>)> {
    Seq::new(s.len(), |i: int| (s[i].path@, s[i].data@))
}

/// The (path, content) pairs of a batch of in-memory files.
pub open spec fn file_entries(s: Seq<(String, Vec<u8>)>) -> Seq<(Seq<char>, Seq<u8>)> {
    Seq::new(s.len(), |i: int| (s[i].0@, s[i].1@))
}

/// No two entries carry the same path, so a path names one content.
pub open spec fn distinct_paths(entries: Seq<(Seq<char>, Seq<u8>)>) -> bool {
    forall|i: int, j: int|
        0 <= i < j < entries.len() ==> (#[trigger] entries[i]).0 != (#[trigger] entries[j]).0
}

/// Whether a reported group lists path `p`.
pub open spec fn group_has_path(g: DuplicateGroup, p: Seq<char>) -> bool {
    exists|a: int| 0 <= a < g.paths@.len() && (#[trigger] g.paths@[a])@ == p
}

/// Whether some entry carries path `p`.
pub open spec fn path_in_entries(entries: Seq<(Seq<char>, Seq<u8>)>, p: Seq<char>) -> bool {
    exists|i: int| 0 <= i < entries.len() && (#[trigger] entries[i]).0 == p
}

/// The content borne by path `p`. Meaningful where paths are distinct and
/// `p` is one of them.
pub open spec fn content_of(entries: Seq<(Seq<char>, Seq<u8>)>, p: Seq<char>) -> Seq<u8> {
    let i = choose|i: int| 0 <= i < entries.len() && (#[trigger] entries[i]).0 == p;
    entries[i].1
}

/// One reported group is sound for `entries`: `fsize` bytes, at least
/// two members, every listed path is an input path, and all listed paths
/// bear one and the same content.
pub open spec fn group_sound_one(
    entries: Seq<(Seq<char>, Seq<u8>)>,
    g: DuplicateGroup,
    fsize: u64,
) -> bool {
    &&& g.size == fsize
    &&& g.paths@.len() >= 2
    &&& forall|a: int|
        0 <= a < g.paths@.len() ==> path_in_entries(entries, (#[trigger] g.paths@[a])@)
    &&& forall|a: int, b: int|
        0 <= a < g.paths@.len() && 0 <= b < g.paths@.len() ==> content_of(
            entries,
            (#[trigger] g.paths@[a])@,
        ) == content_of(entries, (#[trigger] g.paths@[b])@)
}

/// Every reported group is a set of at least two paths of the input whose
/// contents agree byte for byte over the whole `fsize` bytes.
#[verifier::opaque]
pub open spec fn groups_sound(
    entries: Seq<(Seq<char>, Seq<u8>)>,
    new: Seq<DuplicateGroup>,
    fsize: u64,
) -> bool {
    forall|k: int| 0 <= k < new.len() ==> group_sound_one(entries, #[trigger] new[k], fsize)
}

/// Every pair of distinct input entries with equal contents is reported,
/// and in one group.
#[verifier::opaque]
pub open spec fn groups_complete(
    entries: Seq<(Seq<char>, Seq<u8>)>,
    new: Seq<DuplicateGroup>,
) -> bool {
    forall|i: int, j: int|
        0 <= i < entries.len() && 0 <= j < entries.len() && i != j && (#[trigger] entries[i]).1
            == (#[trigger] entries[j]).1 ==> exists|k: int|
            0 <= k < new.len() && group_has_path(#[trigger] new[k], entries[i].0)
                && group_has_path(new[k], entries[j].0)
}

/// No path is listed twice inside one group.
pub open spec fn group_paths_distinct(g: DuplicateGroup) -> bool {
    forall|x: int, x2: int|
        0 <= x < x2 < g.paths@.len() ==> (#[trigger] g.paths@[x])@ != (#[trigger] g.paths@[x2])@
}

/// Two groups list no path in common.
pub open spec fn groups_share_no_path(g1: DuplicateGroup, g2: DuplicateGroup) -> bool {
    forall|x: int, x2: int|
        0 <= x < g1.paths@.len() && 0 <= x2 < g2.paths@.len() ==> (#[trigger] g1.paths@[x])@ != (
        #[trigger] g2.paths@[x2])@
}

/// No path is listed twice, neither inside one group nor across groups:
/// reported groups are pairwise disjoint.
#[verifier::opaque]
pub open spec fn groups_disjoint(new: Seq<DuplicateGroup>) -> bool {
    &&& forall|k: int| 0 <= k < new.len() ==> group_paths_distinct(#[trigger] new[k])
    &&& forall|k: int, k2: int|
        0 <= k < k2 < new.len() ==> groups_share_no_path(#[trigger] new[k], #[trigger] new[k2])
}

/// The groups appended to `out` by one comparator call.
pub open spec fn appended(
    before: Seq<DuplicateGroup>,
    after: Seq<DuplicateGroup>,
) -> Seq<DuplicateGroup> {
    after.subrange(before.len() as int, after.len() as int)
}

/// Well-formedness of a live candidate group: every candidate holds its
/// buffer invariant, all contents have the group's size, reads advance in
/// lock step, everything read before the current buffer agrees, paths are
/// distinct, and one strategy is active for the whole group.
pub open spec fn group_wf(s: Seq<Candidate>, fsize: u64) -> bool {
    &&& forall|i: int| 0 <= i < s.len() ==> (#[trigger] s[i]).inv()
    &&& forall|i: int| 0 <= i < s.len() ==> (#[trigger] s[i]).data@.len() == fsize
    &&& forall|i: int, j: int|
        0 <= i < s.len() && 0 <= j < s.len() ==> (#[trigger] s[i]).pos == (#[trigger] s[j]).pos
            && s[i].buf@.len() == s[j].buf@.len()
    &&& forall|i: int, j: int|
        0 <= i < s.len() && 0 <= j < s.len() ==> (#[trigger] s[i]).data@.subrange(
            0,
            s[i].pos - s[i].buf@.len(),
        ) == (#[trigger] s[j]).data@.subrange(0, s[j].pos - s[j].buf@.len())
    &&& forall|i: int, j: int|
        0 <= i < j < s.len() ==> (#[trigger] s[i]).path@ != (#[trigger] s[j]).path@
    &&& forall|i: int, j: int|
        0 <= i < s.len() && 0 <= j < s.len() ==> (#[trigger] s[i]).strategy == (
        #[trigger] s[j]).strategy
}

/// Whether some candidate of `s` carries path `p`.
pub open spec fn has_path(s: Seq<Candidate>, p: Seq<char>) -> bool {
    exists|i: int| 0 <= i < s.len() && (#[trigger] s[i]).path@ == p
}

/// Every candidate of `sub` appears in `sup` with the same path and the
/// same content.
#[verifier::opaque]
pub open spec fn subset_of(sub: Seq<Candidate>, sup: Seq<Candidate>) -> bool {
    forall|m: int|
        0 <= m < sub.len() ==> exists|i: int|
            0 <= i < sup.len() && (#[trigger] sup[i]).path@ == (#[trigger] sub[m]).path@
                && sup[i].data@ == sub[m].data@
}

/// Candidates of `orig` with equal contents are still together: either
/// both paths live in `cur` or neither does.
#[verifier::opaque]
pub open spec fn class_closed(orig: Seq<Candidate>, cur: Seq<Candidate>) -> bool {
    forall|i: int, j: int|
        0 <= i < orig.len() && 0 <= j < orig.len() && (#[trigger] orig[i]).data@ == (
        #[trigger] orig[j]).data@ ==> (has_path(cur, orig[i].path@) <==> has_path(
            cur,
            orig[j].path@,
        ))
}

/// No path still under comparison has been reported yet.
#[verifier::opaque]
pub open spec fn none_emitted(cur: Seq<Candidate>, new: Seq<DuplicateGroup>) -> bool {
    forall|m: int, k: int|
        0 <= m < cur.len() && 0 <= k < new.len() ==> !group_has_path(
            #[trigger] new[k],
            (#[trigger] cur[m]).path@,
        )
}

/// Every pair of equal-content candidates whose paths already left the
/// live set has been reported, in one group.
#[verifier::opaque]
pub open spec fn departed_reported(
    orig: Seq<Candidate>,
    cur: Seq<Candidate>,
    new: Seq<DuplicateGroup>,
) -> bool {
    forall|i: int, j: int|
        0 <= i < orig.len() && 0 <= j < orig.len() && i != j && (#[trigger] orig[i]).data@ == (
        #[trigger] orig[j]).data@ && !has_path(cur, orig[i].path@) ==> exists|k: int|
            0 <= k < new.len() && group_has_path(#[trigger] new[k], orig[i].path@)
                && group_has_path(new[k], orig[j].path@)
}

/// Every path a group lists is carried by some candidate of `s`.
pub open spec fn group_paths_in(g: DuplicateGroup, s: Seq<Candidate>) -> bool {
    forall|x: int| 0 <= x < g.paths@.len() ==> has_path(s, (#[trigger] g.paths@[x])@)
}

/// Every path listed by a group of `new` is carried by some candidate of
/// `s`.
#[verifier::opaque]
pub open spec fn groups_paths_from(new: Seq<DuplicateGroup>, s: Seq<Candidate>) -> bool {
    forall|k: int| 0 <= k < new.len() ==> group_paths_in(#[trigger] new[k], s)
}

/// In a group of distinct paths, two candidates with the same content
/// hold the same buffer.
proof fn lemma_same_content_same_buf(s: Seq<Candidate>, i: int, j: int, fsize: u64)
    requires
        group_wf(s, fsize),
        0 <= i < s.len(),
        0 <= j < s.len(),
        s[i].data@ == s[j].data@,
    ensures
        s[i].buf@ == s[j].buf@,
{
    assert(s[i].buf@ == s[i].data@.subrange(s[i].pos - s[i].buf@.len(), s[i].pos as int));
    assert(s[j].buf@ == s[j].data@.subrange(s[j].pos - s[j].buf@.len(), s[j].pos as int));
}

/// A candidate of `s` bearing the path of `orig[i]` also bears its
/// content, because paths are distinct in `orig`.
proof fn lemma_bearer(orig: Seq<Candidate>, s: Seq<Candidate>, i: int, fsize: u64)
    requires
        group_wf(orig, fsize),
        subset_of(s, orig),
        0 <= i < orig.len(),
        has_path(s, orig[i].path@),
    ensures
        exists|m: int|
            0 <= m < s.len() && (#[trigger] s[m]).path@ == orig[i].path@ && s[m].data@
                == orig[i].data@,
{
    reveal(subset_of);
    let m = choose|m: int| 0 <= m < s.len() && (#[trigger] s[m]).path@ == orig[i].path@;
    let t = choose|t: int|
        0 <= t < orig.len() && (#[trigger] orig[t]).path@ == s[m].path@ && orig[t].data@
            == s[m].data@;
    if t != i {
        assert(orig[t].path@ == orig[i].path@);
        if t < i {
            assert(orig[t].path@ != orig[i].path@);
        } else {
            assert(orig[i].path@ != orig[t].path@);
        }
    }
    assert(s[m].data@ == orig[i].data@);
}

/// The unique entry carrying path `entries[i].0` is `entries[i]` itself.
proof fn lemma_content_at(entries: Seq<(Seq<char>, Seq<u8>)>, i: int)
    requires
        distinct_paths(entries),
        0 <= i < entries.len(),
    ensures
        path_in_entries(entries, entries[i].0),
        content_of(entries, entries[i].0) == entries[i].1,
{
    assert(path_in_entries(entries, entries[i].0));
    let j = choose|j: int| 0 <= j < entries.len() && (#[trigger] entries[j]).0 == entries[i].0;
    if j != i {
        if j < i {
            assert(entries[j].0 != entries[i].0);
        } else {
            assert(entries[i].0 != entries[j].0);
        }
    }
}

/// Soundness carries from a subset of the candidates to the whole set,
/// and every reported path is one of the subset's.
#[verifier::spinoff_prover]
proof fn lemma_lift_sound(
    sub: Seq<Candidate>,
    sup: Seq<Candidate>,
    new: Seq<DuplicateGroup>,
    fsize: u64,
)
    requires
        subset_of(sub, sup),
        distinct_paths(cand_entries(sub)),
        distinct_paths(cand_entries(sup)),
        groups_sound(cand_entries(sub), new, fsize),
    ensures
        groups_sound(cand_entries(sup), new, fsize),
        groups_paths_from(new, sub),
{
    reveal(subset_of);
    reveal(groups_sound);
    reveal(groups_paths_from);
    let se = cand_entries(sub);
    let pe = cand_entries(sup);
    assert forall|p: Seq<char>| path_in_entries(se, p) implies path_in_entries(pe, p)
        && content_of(pe, p) == content_of(se, p) && has_path(sub, p) by {
        let m = choose|m: int| 0 <= m < se.len() && (#[trigger] se[m]).0 == p;
        lemma_content_at(se, m);
        assert(sub[m].path@ == p);
        let i1 = choose|i1: int|
            0 <= i1 < sup.len() && (#[trigger] sup[i1]).path@ == sub[m].path@ && sup[i1].data@
                == sub[m].data@;
        assert(pe[i1].0 == p);
        lemma_content_at(pe, i1);
    }
    assert forall|k: int| 0 <= k < new.len() implies group_sound_one(pe, #[trigger] new[k], fsize)
        && group_paths_in(new[k], sub) by {
        let g = new[k];
        assert(group_sound_one(se, g, fsize));
        assert forall|a: int| 0 <= a < g.paths@.len() implies path_in_entries(
            pe,
            (#[trigger] g.paths@[a])@,
        ) && has_path(sub, g.paths@[a]@) by {
            assert(path_in_entries(se, g.paths@[a]@));
        }
        assert forall|a: int, b: int|
            0 <= a < g.paths@.len() && 0 <= b < g.paths@.len() implies content_of(
            pe,
            (#[trigger] g.paths@[a])@,
        ) == content_of(pe, (#[trigger] g.paths@[b])@) by {
            assert(path_in_entries(se, g.paths@[a]@));
            assert(path_in_entries(se, g.paths@[b]@));
            assert(content_of(se, g.paths@[a]@) == content_of(se, g.paths@[b]@));
        }
    }
}

/// Soundness and disjointness carry to the concatenation of two reported
/// batches when the later batch lists only paths that the earlier one
/// never touched.
#[verifier::spinoff_prover]
proof fn lemma_groups_concat(
    entries: Seq<(Seq<char>, Seq<u8>)>,
    a: Seq<DuplicateGroup>,
    b: Seq<DuplicateGroup>,
    sb: Seq<Candidate>,
    fsize: u64,
)
    requires
        groups_sound(entries, a, fsize),
        groups_sound(entries, b, fsize),
        groups_disjoint(a),
        groups_disjoint(b),
        groups_paths_from(b, sb),
        none_emitted(sb, a),
    ensures
        groups_sound(entries, a + b, fsize),
        groups_disjoint(a + b),
{
    reveal(groups_sound);
    reveal(groups_disjoint);
    reveal(groups_paths_from);
    reveal(none_emitted);
    let t = a + b;
    assert forall|k: int| 0 <= k < t.len() implies group_sound_one(entries, #[trigger] t[k], fsize)
        && group_paths_distinct(t[k]) by {
        if k < a.len() {
            assert(t[k] == a[k]);
            assert(group_sound_one(entries, a[k], fsize) && group_paths_distinct(a[k]));
        } else {
            assert(t[k] == b[k - a.len()]);
            assert(group_sound_one(entries, b[k - a.len()], fsize) && group_paths_distinct(
                b[k - a.len()],
            ));
        }
    }
    assert forall|k: int, k2: int| 0 <= k < k2 < t.len() implies groups_share_no_path(
        #[trigger] t[k],
        #[trigger] t[k2],
    ) by {
        if k2 < a.len() {
            assert(t[k] == a[k] && t[k2] == a[k2]);
            assert(groups_share_no_path(a[k], a[k2]));
        } else if k >= a.len() {
            assert(t[k] == b[k - a.len()] && t[k2] == b[k2 - a.len()]);
            assert(groups_share_no_path(b[k - a.len()], b[k2 - a.len()]));
        } else {
            let g1 = a[k];
            let g2 = b[k2 - a.len()];
            assert(t[k] == g1 && t[k2] == g2);
            assert(group_paths_in(g2, sb));
            assert forall|x: int, x2: int|
                0 <= x < g1.paths@.len() && 0 <= x2 < g2.paths@.len() implies (
            #[trigger] g1.paths@[x])@ != (#[trigger] g2.paths@[x2])@ by {
                assert(has_path(sb, g2.paths@[x2]@));
                let m = choose|m: int|
                    0 <= m < sb.len() && (#[trigger] sb[m]).path@ == g2.paths@[x2]@;
                assert(!group_has_path(g1, sb[m].path@));
                if g1.paths@[x]@ == g2.paths@[x2]@ {
                    assert(group_has_path(g1, sb[m].path@));
                }
            }
        }
    }
}

/// Two candidates of a well-formed group with one path are one
/// candidate.
proof fn lemma_path_unique(s: Seq<Candidate>, a: int, b: int, fsize: u64)
    requires
        group_wf(s, fsize),
        0 <= a < s.len(),
        0 <= b < s.len(),
        s[a].path@ == s[b].path@,
    ensures
        a == b,
{
    if a < b {
        assert(s[a].path@ != s[b].path@);
    } else if b < a {
        assert(s[b].path@ != s[a].path@);
    }
}

/// Index `idx` was moved into one of the two halves.
pub open spec fn covered(kidx: Seq<int>, didx: Seq<int>, idx: int) -> bool {
    (exists|m: int| 0 <= m < kidx.len() && #[trigger] kidx[m] == idx) || (exists|m: int|
        0 <= m < didx.len() && #[trigger] didx[m] == idx)
}

/// What partitioning a group against its first member's buffer yields:
/// both halves are well formed, they split the group's paths without
/// loss or overlap, and candidates of equal content land in one half.
#[verifier::spinoff_prover]
proof fn lemma_partition_split(
    orig: Seq<Candidate>,
    g0: Seq<Candidate>,
    keep: Seq<Candidate>,
    diff: Seq<Candidate>,
    kidx: Seq<int>,
    didx: Seq<int>,
    fsize: u64,
)
    requires
        group_wf(orig, fsize),
        group_wf(g0, fsize),
        subset_of(g0, orig),
        class_closed(orig, g0),
        g0.len() >= 1,
        kidx.len() == keep.len(),
        didx.len() == diff.len(),
        forall|m: int|
            0 <= m < keep.len() ==> 0 <= #[trigger] kidx[m] < g0.len() && keep[m] == g0[kidx[m]],
        forall|m: int|
            0 <= m < diff.len() ==> 0 <= #[trigger] didx[m] < g0.len() && diff[m] == g0[didx[m]],
        forall|m: int, m2: int|
            0 <= m < m2 < keep.len() ==> #[trigger] kidx[m] != #[trigger] kidx[m2],
        forall|m: int, m2: int|
            0 <= m < m2 < diff.len() ==> #[trigger] didx[m] != #[trigger] didx[m2],
        forall|idx: int| 0 <= idx < g0.len() ==> #[trigger] covered(kidx, didx, idx),
        forall|m: int| 0 <= m < keep.len() ==> (#[trigger] keep[m]).buf@ == g0[0].buf@,
        forall|m: int| 0 <= m < diff.len() ==> (#[trigger] diff[m]).buf@ != g0[0].buf@,
    ensures
        group_wf(keep, fsize),
        group_wf(diff, fsize),
        subset_of(keep, orig),
        subset_of(diff, orig),
        class_closed(orig, keep),
        class_closed(orig, diff),
        forall|m: int| 0 <= m < keep.len() ==> has_path(g0, (#[trigger] keep[m]).path@),
        forall|m: int| 0 <= m < diff.len() ==> has_path(g0, (#[trigger] diff[m]).path@),
        forall|m: int| 0 <= m < keep.len() ==> !has_path(diff, (#[trigger] keep[m]).path@),
        forall|i: int|
            0 <= i < orig.len() && has_path(g0, (#[trigger] orig[i]).path@) && !has_path(
                keep,
                orig[i].path@,
            ) ==> has_path(diff, orig[i].path@),
        forall|m: int, m2: int|
            0 <= m < keep.len() && 0 <= m2 < keep.len() ==> (#[trigger] keep[m]).buf@ == (
            #[trigger] keep[m2]).buf@,
{
    reveal(subset_of);
    reveal(class_closed);
    // well-formedness of each half, elementwise and pairwise through the
    // index maps
    assert forall|m: int| 0 <= m < keep.len() implies (#[trigger] keep[m]).inv() && keep[m].data@.len()
        == fsize by {
        assert(keep[m] == g0[kidx[m]]);
    }
    assert forall|m: int| 0 <= m < diff.len() implies (#[trigger] diff[m]).inv() && diff[m].data@.len()
        == fsize by {
        assert(diff[m] == g0[didx[m]]);
    }
    assert forall|m: int, m2: int|
        0 <= m < keep.len() && 0 <= m2 < keep.len() implies (#[trigger] keep[m]).pos == (
    #[trigger] keep[m2]).pos && keep[m].buf@.len() == keep[m2].buf@.len() && keep[m].strategy
        == keep[m2].strategy && keep[m].data@.subrange(0, keep[m].pos - keep[m].buf@.len())
        == keep[m2].data@.subrange(0, keep[m2].pos - keep[m2].buf@.len()) by {
        assert(keep[m] == g0[kidx[m]] && keep[m2] == g0[kidx[m2]]);
        assert(g0[kidx[m]].pos == g0[kidx[m2]].pos && g0[kidx[m]].buf@.len()
            == g0[kidx[m2]].buf@.len());
        assert(g0[kidx[m]].data@.subrange(0, g0[kidx[m]].pos - g0[kidx[m]].buf@.len())
            == g0[kidx[m2]].data@.subrange(0, g0[kidx[m2]].pos - g0[kidx[m2]].buf@.len()));
    }
    assert forall|m: int, m2: int|
        0 <= m < diff.len() && 0 <= m2 < diff.len() implies (#[trigger] diff[m]).pos == (
    #[trigger] diff[m2]).pos && diff[m].buf@.len() == diff[m2].buf@.len() && diff[m].strategy
        == diff[m2].strategy && diff[m].data@.subrange(0, diff[m].pos - diff[m].buf@.len())
        == diff[m2].data@.subrange(0, diff[m2].pos - diff[m2].buf@.len()) by {
        assert(diff[m] == g0[didx[m]] && diff[m2] == g0[didx[m2]]);
        assert(g0[didx[m]].pos == g0[didx[m2]].pos && g0[didx[m]].buf@.len()
            == g0[didx[m2]].buf@.len());
        assert(g0[didx[m]].data@.subrange(0, g0[didx[m]].pos - g0[didx[m]].buf@.len())
            == g0[didx[m2]].data@.subrange(0, g0[didx[m2]].pos - g0[didx[m2]].buf@.len()));
    }
    assert forall|m: int, m2: int| 0 <= m < m2 < keep.len() implies (#[trigger] keep[m]).path@ != (
    #[trigger] keep[m2]).path@ by {
        assert(keep[m] == g0[kidx[m]] && keep[m2] == g0[kidx[m2]]);
        assert(kidx[m] != kidx[m2]);
        if g0[kidx[m]].path@ == g0[kidx[m2]].path@ {
            lemma_path_unique(g0, kidx[m], kidx[m2], fsize);
        }
    }
    assert forall|m: int, m2: int| 0 <= m < m2 < diff.len() implies (#[trigger] diff[m]).path@ != (
    #[trigger] diff[m2]).path@ by {
        assert(diff[m] == g0[didx[m]] && diff[m2] == g0[didx[m2]]);
        assert(didx[m] != didx[m2]);
        if g0[didx[m]].path@ == g0[didx[m2]].path@ {
            lemma_path_unique(g0, didx[m], didx[m2], fsize);
        }
    }
    // each half's candidates come from the group
    assert forall|m: int| 0 <= m < keep.len() implies exists|i: int|
        0 <= i < orig.len() && (#[trigger] orig[i]).path@ == (#[trigger] keep[m]).path@
            && orig[i].data@ == keep[m].data@ by {
        assert(keep[m] == g0[kidx[m]]);
        let i = choose|i: int|
            0 <= i < orig.len() && (#[trigger] orig[i]).path@ == g0[kidx[m]].path@ && orig[i].data@
                == g0[kidx[m]].data@;
        assert(orig[i].path@ == keep[m].path@ && orig[i].data@ == keep[m].data@);
    }
    assert forall|m: int| 0 <= m < diff.len() implies exists|i: int|
        0 <= i < orig.len() && (#[trigger] orig[i]).path@ == (#[trigger] diff[m]).path@
            && orig[i].data@ == diff[m].data@ by {
        assert(diff[m] == g0[didx[m]]);
        let i = choose|i: int|
            0 <= i < orig.len() && (#[trigger] orig[i]).path@ == g0[didx[m]].path@ && orig[i].data@
                == g0[didx[m]].data@;
        assert(orig[i].path@ == diff[m].path@ && orig[i].data@ == diff[m].data@);
    }
    // the halves' paths come from the group and do not overlap
    assert forall|m: int| 0 <= m < keep.len() implies has_path(
        g0,
        (#[trigger] keep[m]).path@,
    ) by {
        assert(g0[kidx[m]].path@ == keep[m].path@);
    }
    assert forall|m: int| 0 <= m < diff.len() implies has_path(
        g0,
        (#[trigger] diff[m]).path@,
    ) by {
        assert(g0[didx[m]].path@ == diff[m].path@);
    }
    assert forall|m: int| 0 <= m < keep.len() implies !has_path(
        diff,
        (#[trigger] keep[m]).path@,
    ) by {
        if has_path(diff, keep[m].path@) {
            let m2 = choose|m2: int|
                0 <= m2 < diff.len() && (#[trigger] diff[m2]).path@ == keep[m].path@;
            assert(keep[m] == g0[kidx[m]] && diff[m2] == g0[didx[m2]]);
            lemma_path_unique(g0, kidx[m], didx[m2], fsize);
            assert(g0[kidx[m]].buf@ == g0[0].buf@);
            assert(g0[didx[m2]].buf@ != g0[0].buf@);
        }
    }
    // whoever left the keep half while its path was in the group is in
    // the diff half
    assert forall|i: int|
        0 <= i < orig.len() && has_path(g0, (#[trigger] orig[i]).path@) && !has_path(
            keep,
            orig[i].path@,
        ) implies has_path(diff, orig[i].path@) by {
        let m = choose|m: int| 0 <= m < g0.len() && (#[trigger] g0[m]).path@ == orig[i].path@;
        assert(covered(kidx, didx, m));
        if exists|m2: int| 0 <= m2 < kidx.len() && #[trigger] kidx[m2] == m {
            let m2 = choose|m2: int| 0 <= m2 < kidx.len() && #[trigger] kidx[m2] == m;
            assert(keep[m2] == g0[m]);
            assert(has_path(keep, orig[i].path@));
        } else {
            let m2 = choose|m2: int| 0 <= m2 < didx.len() && #[trigger] didx[m2] == m;
            assert(diff[m2] == g0[m]);
            assert(has_path(diff, orig[i].path@));
        }
    }
    // candidates of one content land in one half
    assert forall|i: int, j: int|
        0 <= i < orig.len() && 0 <= j < orig.len() && (#[trigger] orig[i]).data@ == (
    #[trigger] orig[j]).data@ implies (has_path(keep, orig[i].path@) <==> has_path(
        keep,
        orig[j].path@,
    )) && (has_path(diff, orig[i].path@) <==> has_path(diff, orig[j].path@)) by {
        assert forall|i1: int, j1: int|
            0 <= i1 < orig.len() && 0 <= j1 < orig.len() && (#[trigger] orig[i1]).data@ == (
        #[trigger] orig[j1]).data@ && has_path(keep, orig[i1].path@) implies has_path(
            keep,
            orig[j1].path@,
        ) by {
            let m = choose|m: int|
                0 <= m < keep.len() && (#[trigger] keep[m]).path@ == orig[i1].path@;
            assert(has_path(g0, orig[i1].path@));
            assert(has_path(g0, orig[j1].path@));
            lemma_bearer(orig, g0, i1, fsize);
            let mi = choose|mi: int|
                0 <= mi < g0.len() && (#[trigger] g0[mi]).path@ == orig[i1].path@ && g0[mi].data@
                    == orig[i1].data@;
            lemma_bearer(orig, g0, j1, fsize);
            let mj = choose|mj: int|
                0 <= mj < g0.len() && (#[trigger] g0[mj]).path@ == orig[j1].path@ && g0[mj].data@
                    == orig[j1].data@;
            lemma_same_content_same_buf(g0, mi, mj, fsize);
            assert(keep[m] == g0[kidx[m]]);
            lemma_path_unique(g0, kidx[m], mi, fsize);
            assert(g0[mj].buf@ == g0[0].buf@);
            assert(covered(kidx, didx, mj));
            if exists|m2: int| 0 <= m2 < didx.len() && #[trigger] didx[m2] == mj {
                let m2 = choose|m2: int| 0 <= m2 < didx.len() && #[trigger] didx[m2] == mj;
                assert(diff[m2] == g0[mj]);
                assert(diff[m2].buf@ != g0[0].buf@);
                assert(false);
            } else {
                let m2 = choose|m2: int| 0 <= m2 < kidx.len() && #[trigger] kidx[m2] == mj;
                assert(keep[m2] == g0[mj]);
                assert(has_path(keep, orig[j1].path@));
            }
        }
        assert forall|i1: int, j1: int|
            0 <= i1 < orig.len() && 0 <= j1 < orig.len() && (#[trigger] orig[i1]).data@ == (
        #[trigger] orig[j1]).data@ && has_path(diff, orig[i1].path@) implies has_path(
            diff,
            orig[j1].path@,
        ) by {
            let m = choose|m: int|
                0 <= m < diff.len() && (#[trigger] diff[m]).path@ == orig[i1].path@;
            assert(has_path(g0, orig[i1].path@));
            assert(has_path(g0, orig[j1].path@));
            lemma_bearer(orig, g0, i1, fsize);
            let mi = choose|mi: int|
                0 <= mi < g0.len() && (#[trigger] g0[mi]).path@ == orig[i1].path@ && g0[mi].data@
                    == orig[i1].data@;
            lemma_bearer(orig, g0, j1, fsize);
            let mj = choose|mj: int|
                0 <= mj < g0.len() && (#[trigger] g0[mj]).path@ == orig[j1].path@ && g0[mj].data@
                    == orig[j1].data@;
            lemma_same_content_same_buf(g0, mi, mj, fsize);
            assert(diff[m] == g0[didx[m]]);
            lemma_path_unique(g0, didx[m], mi, fsize);
            assert(g0[mj].buf@ != g0[0].buf@);
            assert(covered(kidx, didx, mj));
            if exists|m2: int| 0 <= m2 < kidx.len() && #[trigger] kidx[m2] == mj {
                let m2 = choose|m2: int| 0 <= m2 < kidx.len() && #[trigger] kidx[m2] == mj;
                assert(keep[m2] == g0[mj]);
                assert(keep[m2].buf@ == g0[0].buf@);
                assert(false);
            } else {
                let m2 = choose|m2: int| 0 <= m2 < didx.len() && #[trigger] didx[m2] == mj;
                assert(diff[m2] == g0[mj]);
                assert(has_path(diff, orig[j1].path@));
            }
        }
    }
}

/// Two candidates that read in lock step, agree before their buffers,
/// hold equal buffers, and stand at the end of their data, are equal byte
/// for byte.
proof fn lemma_full_agreement(a: Candidate, b: Candidate)
    requires
        a.inv(),
        b.inv(),
        a.pos == b.pos,
        a.buf@.len() == b.buf@.len(),
        a.pos == a.data@.len(),
        b.pos == b.data@.len(),
        a.data@.subrange(0, a.pos - a.buf@.len()) == b.data@.subrange(0, b.pos - b.buf@.len()),
        a.buf@ == b.buf@,
    ensures
        a.data@ == b.data@,
{
    assert(a.data@ =~= a.data@.subrange(0, a.pos - a.buf@.len()) + a.buf@);
    assert(b.data@ =~= b.data@.subrange(0, b.pos - b.buf@.len()) + b.buf@);
}

/// Advances every candidate by one block, in lock step. Returns true at
/// end of file, leaving every path, content and offset as it was;
/// otherwise the group has read one more block each and is well formed
/// again, its members in reversed order.
#[verifier::spinoff_prover]
fn read_step(todo: &mut Vec<Candidate>, Ghost(fsize): Ghost<u64>) -> (eof: bool)
    requires
        group_wf(old(todo)@, fsize),
        old(todo)@.len() >= 1,
        forall|m: int, m2: int|
            0 <= m < old(todo)@.len() && 0 <= m2 < old(todo)@.len() ==> (#[trigger] old(
                todo,
            )@[m]).buf@ == (#[trigger] old(todo)@[m2]).buf@,
    ensures
        final(todo)@.len() == old(todo)@.len(),
        eof ==> forall|m: int|
            0 <= m < final(todo)@.len() ==> (#[trigger] final(todo)@[m]).path@
                == old(todo)@[m].path@ && final(todo)@[m].data@ == old(todo)@[m].data@,
        eof ==> forall|m: int| 0 <= m < old(todo)@.len() ==> (#[trigger] old(todo)@[m]).pos
            == fsize,
        !eof ==> group_wf(final(todo)@, fsize),
        !eof ==> forall|m: int|
            0 <= m < final(todo)@.len() ==> (#[trigger] final(todo)@[m]).path@
                == old(todo)@[m].path@ && final(todo)@[m].data@ == old(todo)@[m].data@,
        !eof ==> final(todo)@[0].pos > old(todo)@[0].pos,
{
    let ghost t0 = old(todo)@;
    let ghost pcur: int = t0[0].pos as int;
    let ghost nst: int = if fsize - pcur >= BLOCK {
        BLOCK as int
    } else {
        fsize - pcur
    };
    let mut c = todo.pop().unwrap();
    let n = c.read_block();
    if n == 0 {
        todo.push(c);
        proof {
            assert(t0[t0.len() - 1].pos == fsize);
            assert forall|m: int| 0 <= m < todo@.len() implies (#[trigger] todo@[m]).path@
                == t0[m].path@ && todo@[m].data@ == t0[m].data@ by {
                if m < t0.len() - 1 {
                    assert(todo@[m] == t0[m]);
                }
            }
            assert forall|m: int| 0 <= m < t0.len() implies (#[trigger] t0[m]).pos == fsize by {
                assert(t0[m].pos == t0[t0.len() - 1].pos);
            }
        }
        return true;
    }
    proof {
        assert(t0[t0.len() - 1].pos == pcur);
        assert(n == nst);
        assert(nst > 0);
    }
    let mut advanced: Vec<Candidate> = Vec::new();
    advanced.push(c);
    while todo.len() > 0
        invariant
            group_wf(t0, fsize),
            t0.len() >= 1,
            nst == if fsize - pcur >= BLOCK {
                BLOCK as int
            } else {
                fsize - pcur
            },
            nst > 0,
            pcur == t0[0].pos as int,
            todo@ == t0.subrange(0, todo@.len() as int),
            advanced@.len() + todo@.len() == t0.len(),
            forall|m: int|
                0 <= m < advanced@.len() ==> (#[trigger] advanced@[m]).inv()
                    && advanced@[m].path@ == t0[t0.len() - 1 - m].path@ && advanced@[m].data@
                    == t0[t0.len() - 1 - m].data@ && advanced@[m].strategy == t0[t0.len() - 1
                    - m].strategy && advanced@[m].pos == pcur + nst && advanced@[m].buf@
                    == t0[t0.len() - 1 - m].data@.subrange(pcur, pcur + nst),
        decreases todo@.len(),
    {
        let mut c2 = todo.pop().unwrap();
        proof {
            assert(c2 == t0[todo@.len() as int]);
            assert(c2.pos == t0[0].pos);
        }
        let n2 = c2.read_block();
        proof {
            assert(n2 == nst);
        }
        advanced.push(c2);
        proof {
            assert(todo@ =~= t0.subrange(0, todo@.len() as int));
        }
    }
    let ghost af = advanced@;
    let mut restored: Vec<Candidate> = Vec::new();
    while advanced.len() > 0
        invariant
            advanced@ == af.subrange(0, advanced@.len() as int),
            restored@.len() + advanced@.len() == af.len(),
            forall|m: int|
                0 <= m < restored@.len() ==> #[trigger] restored@[m] == af[af.len() - 1 - m],
        decreases advanced@.len(),
    {
        let c = advanced.pop().unwrap();
        proof {
            assert(c == af[advanced@.len() as int]);
            assert(advanced@ =~= af.subrange(0, advanced@.len() as int));
        }
        restored.push(c);
    }
    *todo = restored;
    proof {
        assert forall|m: int| 0 <= m < todo@.len() implies #[trigger] todo@[m] == af[af.len() - 1
            - m] by {}
        assert forall|m: int| 0 <= m < todo@.len() implies (#[trigger] todo@[m]).inv()
            && todo@[m].path@ == t0[m].path@ && todo@[m].data@ == t0[m].data@ && todo@[m].strategy
            == t0[m].strategy && todo@[m].pos == pcur + nst && todo@[m].buf@
            == t0[m].data@.subrange(pcur, pcur + nst) by {
            assert(todo@[m] == af[af.len() - 1 - m]);
            assert(af[af.len() - 1 - m].path@ == t0[t0.len() - 1 - (af.len() - 1 - m)].path@);
            assert(t0.len() - 1 - (af.len() - 1 - m) == m);
        }
        let ta = todo@;
        assert forall|m: int, m2: int|
            0 <= m < ta.len() && 0 <= m2 < ta.len() implies (#[trigger] ta[m]).pos == (
        #[trigger] ta[m2]).pos && ta[m].buf@.len() == ta[m2].buf@.len() && ta[m].strategy
            == ta[m2].strategy by {
            assert(ta[m].strategy == t0[m].strategy);
            assert(ta[m2].strategy == t0[m2].strategy);
            assert(t0[m].strategy == t0[m2].strategy);
        }
        assert forall|m: int| 0 <= m < ta.len() implies (#[trigger] ta[m]).data@.len()
            == fsize by {
            assert(ta[m].data@ == t0[m].data@);
        }
        assert forall|m: int, m2: int|
            0 <= m < ta.len() && 0 <= m2 < ta.len() implies (#[trigger] ta[m]).data@.subrange(
            0,
            ta[m].pos - ta[m].buf@.len(),
        ) == (#[trigger] ta[m2]).data@.subrange(0, ta[m2].pos - ta[m2].buf@.len()) by {
            let a = t0[m];
            let b = t0[m2];
            assert(a.inv() && b.inv());
            assert(a.pos == pcur && b.pos == pcur);
            assert(a.buf@ == b.buf@);
            assert(a.data@.subrange(0, pcur - a.buf@.len()) == b.data@.subrange(
                0,
                pcur - b.buf@.len(),
            ));
            assert(a.data@.subrange(0, pcur) =~= a.data@.subrange(0, pcur - a.buf@.len())
                + a.buf@);
            assert(b.data@.subrange(0, pcur) =~= b.data@.subrange(0, pcur - b.buf@.len())
                + b.buf@);
            assert(ta[m].data@.subrange(0, ta[m].pos - ta[m].buf@.len()) == a.data@.subrange(
                0,
                pcur,
            ));
            assert(ta[m2].data@.subrange(0, ta[m2].pos - ta[m2].buf@.len()) == b.data@.subrange(
                0,
                pcur,
            ));
        }
        assert forall|m: int, m2: int| 0 <= m < m2 < ta.len() implies (#[trigger] ta[m]).path@ != (
        #[trigger] ta[m2]).path@ by {
            assert(ta[m].path@ == t0[m].path@);
            assert(ta[m2].path@ == t0[m2].path@);
            assert(t0[m].path@ != t0[m2].path@);
        }
        assert(group_wf(ta, fsize));
        assert(ta[0].pos == pcur + nst);
    }
    false
}

/// Candidates drawn from `g0` have reported nothing that `g0` had not.
proof fn lemma_none_emitted_subset(
    sub: Seq<Candidate>,
    g0: Seq<Candidate>,
    t: Seq<DuplicateGroup>,
)
    requires
        forall|m: int| 0 <= m < sub.len() ==> has_path(g0, (#[trigger] sub[m]).path@),
        none_emitted(g0, t),
    ensures
        none_emitted(sub, t),
{
    reveal(none_emitted);
    assert forall|m: int, k: int|
        0 <= m < sub.len() && 0 <= k < t.len() implies !group_has_path(
        #[trigger] t[k],
        (#[trigger] sub[m]).path@,
    ) by {
        assert(has_path(g0, sub[m].path@));
        let m2 = choose|m2: int| 0 <= m2 < g0.len() && (#[trigger] g0[m2]).path@ == sub[m].path@;
        assert(!group_has_path(t[k], g0[m2].path@));
    }
}

/// Books the groups a recursive comparison of the diverged half added:
/// the whole batch reported so far stays sound and disjoint, and the
/// surviving half still owes nothing but its own paths.
#[verifier::spinoff_prover]
#[verifier::rlimit(100)]
proof fn lemma_after_recursion(
    orig: Seq<Candidate>,
    g0: Seq<Candidate>,
    keepseq: Seq<Candidate>,
    dsnap: Seq<Candidate>,
    out0: Seq<DuplicateGroup>,
    outa: Seq<DuplicateGroup>,
    outn: Seq<DuplicateGroup>,
    fsize: u64,
)
    requires
        group_wf(orig, fsize),
        group_wf(g0, fsize),
        group_wf(dsnap, fsize),
        subset_of(g0, orig),
        subset_of(keepseq, orig),
        subset_of(dsnap, orig),
        class_closed(orig, dsnap),
        forall|m: int| 0 <= m < keepseq.len() ==> has_path(g0, (#[trigger] keepseq[m]).path@),
        forall|m: int| 0 <= m < dsnap.len() ==> has_path(g0, (#[trigger] dsnap[m]).path@),
        forall|m: int| 0 <= m < keepseq.len() ==> !has_path(dsnap, (#[trigger] keepseq[m]).path@),
        forall|i: int|
            0 <= i < orig.len() && has_path(g0, (#[trigger] orig[i]).path@) && !has_path(
                keepseq,
                orig[i].path@,
            ) ==> has_path(dsnap, orig[i].path@),
        out0.len() <= outa.len(),
        outa.subrange(0, out0.len() as int) == out0,
        groups_sound(cand_entries(orig), appended(out0, outa), fsize),
        groups_disjoint(appended(out0, outa)),
        none_emitted(g0, appended(out0, outa)),
        departed_reported(orig, g0, appended(out0, outa)),
        outa.len() <= outn.len(),
        outn.subrange(0, outa.len() as int) == outa,
        groups_sound(cand_entries(dsnap), appended(outa, outn), fsize),
        groups_complete(cand_entries(dsnap), appended(outa, outn)),
        groups_disjoint(appended(outa, outn)),
    ensures
        out0.len() <= outn.len(),
        outn.subrange(0, out0.len() as int) == out0,
        groups_sound(cand_entries(orig), appended(out0, outn), fsize),
        groups_disjoint(appended(out0, outn)),
        none_emitted(keepseq, appended(out0, outn)),
        departed_reported(orig, keepseq, appended(out0, outn)),
{
    let entries = cand_entries(orig);
    let a = appended(out0, outa);
    let b = appended(outa, outn);
    assert forall|i: int| 0 <= i < outa.len() implies outn[i] == outa[i] by {
        assert(outn.subrange(0, outa.len() as int)[i] == outn[i]);
    }
    assert(outn.subrange(0, out0.len() as int) =~= out0);
    assert(appended(out0, outn) =~= a + b);
    assert forall|i: int, j: int| 0 <= i < j < cand_entries(dsnap).len() implies (
    #[trigger] cand_entries(dsnap)[i]).0 != (#[trigger] cand_entries(dsnap)[j]).0 by {
        assert(dsnap[i].path@ != dsnap[j].path@);
    }
    assert forall|i: int, j: int| 0 <= i < j < entries.len() implies (#[trigger] entries[i]).0 != (
    #[trigger] entries[j]).0 by {
        assert(orig[i].path@ != orig[j].path@);
    }
    lemma_none_emitted_subset(dsnap, g0, a);
    lemma_lift_sound(dsnap, orig, b, fsize);
    lemma_groups_concat(entries, a, b, dsnap, fsize);
    lemma_none_emitted_subset(keepseq, g0, a);
    lemma_keep_unreported(keepseq, dsnap, a, b);
    lemma_departed_after(orig, g0, keepseq, dsnap, a, b, fsize);
}

/// The surviving half's paths stay unreported across the recursion's
/// additions, which list diverged paths alone.
#[verifier::spinoff_prover]
proof fn lemma_keep_unreported(
    keepseq: Seq<Candidate>,
    dsnap: Seq<Candidate>,
    a: Seq<DuplicateGroup>,
    b: Seq<DuplicateGroup>,
)
    requires
        none_emitted(keepseq, a),
        groups_paths_from(b, dsnap),
        forall|m: int| 0 <= m < keepseq.len() ==> !has_path(dsnap, (#[trigger] keepseq[m]).path@),
    ensures
        none_emitted(keepseq, a + b),
{
    reveal(none_emitted);
    reveal(groups_paths_from);
    assert forall|m: int, k: int|
        0 <= m < keepseq.len() && 0 <= k < (a + b).len() implies !group_has_path(
        #[trigger] (a + b)[k],
        (#[trigger] keepseq[m]).path@,
    ) by {
        if k < a.len() {
            assert((a + b)[k] == a[k]);
            assert(!group_has_path(a[k], keepseq[m].path@));
        } else {
            assert((a + b)[k] == b[k - a.len()]);
            assert(group_paths_in(b[k - a.len()], dsnap));
            if group_has_path(b[k - a.len()], keepseq[m].path@) {
                let x = choose|x: int|
                    0 <= x < b[k - a.len()].paths@.len() && (#[trigger] b[k
                        - a.len()].paths@[x])@ == keepseq[m].path@;
                assert(has_path(dsnap, b[k - a.len()].paths@[x]@));
                assert(!has_path(dsnap, keepseq[m].path@));
            }
        }
    }
}

/// Every pair of equal contents no longer alive is reported: either it
/// was reported before this round, or it diverged and the recursion
/// reported it.
#[verifier::spinoff_prover]
#[verifier::rlimit(100)]
proof fn lemma_departed_after(
    orig: Seq<Candidate>,
    g0: Seq<Candidate>,
    keepseq: Seq<Candidate>,
    dsnap: Seq<Candidate>,
    a: Seq<DuplicateGroup>,
    b: Seq<DuplicateGroup>,
    fsize: u64,
)
    requires
        group_wf(orig, fsize),
        subset_of(dsnap, orig),
        class_closed(orig, dsnap),
        forall|i: int|
            0 <= i < orig.len() && has_path(g0, (#[trigger] orig[i]).path@) && !has_path(
                keepseq,
                orig[i].path@,
            ) ==> has_path(dsnap, orig[i].path@),
        departed_reported(orig, g0, a),
        groups_complete(cand_entries(dsnap), b),
    ensures
        departed_reported(orig, keepseq, a + b),
{
    reveal(subset_of);
    reveal(class_closed);
    reveal(departed_reported);
    reveal(groups_complete);
    assert forall|i: int, j: int|
        0 <= i < orig.len() && 0 <= j < orig.len() && i != j && (#[trigger] orig[i]).data@ == (
    #[trigger] orig[j]).data@ && !has_path(keepseq, orig[i].path@) implies exists|k: int|
        0 <= k < (a + b).len() && group_has_path(#[trigger] (a + b)[k], orig[i].path@)
            && group_has_path((a + b)[k], orig[j].path@) by {
        if has_path(g0, orig[i].path@) {
            assert(has_path(dsnap, orig[i].path@));
            assert(has_path(dsnap, orig[j].path@));
            lemma_bearer(orig, dsnap, i, fsize);
            let mi = choose|mi: int|
                0 <= mi < dsnap.len() && (#[trigger] dsnap[mi]).path@ == orig[i].path@
                    && dsnap[mi].data@ == orig[i].data@;
            lemma_bearer(orig, dsnap, j, fsize);
            let mj = choose|mj: int|
                0 <= mj < dsnap.len() && (#[trigger] dsnap[mj]).path@ == orig[j].path@
                    && dsnap[mj].data@ == orig[j].data@;
            let de = cand_entries(dsnap);
            assert(de[mi].1 == de[mj].1);
            assert(orig[i].path@ != orig[j].path@);
            assert(mi != mj);
            let k = choose|k: int|
                0 <= k < b.len() && group_has_path(#[trigger] b[k], de[mi].0) && group_has_path(
                    b[k],
                    de[mj].0,
                );
            assert((a + b)[a.len() + k] == b[k]);
        } else {
            let k = choose|k: int|
                0 <= k < a.len() && group_has_path(#[trigger] a[k], orig[i].path@)
                    && group_has_path(a[k], orig[j].path@);
            assert((a + b)[k] == a[k]);
        }
    }
}

/// Books a diverged half too small to recurse on: it can hold no pair
/// of equal contents, so nothing is owed for it.
#[verifier::spinoff_prover]
proof fn lemma_after_drop(
    orig: Seq<Candidate>,
    g0: Seq<Candidate>,
    keepseq: Seq<Candidate>,
    dsnap: Seq<Candidate>,
    a: Seq<DuplicateGroup>,
    fsize: u64,
)
    requires
        group_wf(orig, fsize),
        subset_of(dsnap, orig),
        class_closed(orig, dsnap),
        dsnap.len() < 2,
        forall|i: int|
            0 <= i < orig.len() && has_path(g0, (#[trigger] orig[i]).path@) && !has_path(
                keepseq,
                orig[i].path@,
            ) ==> has_path(dsnap, orig[i].path@),
        departed_reported(orig, g0, a),
    ensures
        departed_reported(orig, keepseq, a),
{
    reveal(subset_of);
    reveal(class_closed);
    reveal(departed_reported);
    assert forall|i: int, j: int|
        0 <= i < orig.len() && 0 <= j < orig.len() && i != j && (#[trigger] orig[i]).data@ == (
    #[trigger] orig[j]).data@ && !has_path(keepseq, orig[i].path@) implies exists|k: int|
        0 <= k < a.len() && group_has_path(#[trigger] a[k], orig[i].path@) && group_has_path(
            a[k],
            orig[j].path@,
        ) by {
        if has_path(g0, orig[i].path@) {
            assert(has_path(dsnap, orig[i].path@));
            assert(has_path(dsnap, orig[j].path@));
            lemma_bearer(orig, dsnap, i, fsize);
            let mi = choose|mi: int|
                0 <= mi < dsnap.len() && (#[trigger] dsnap[mi]).path@ == orig[i].path@
                    && dsnap[mi].data@ == orig[i].data@;
            lemma_bearer(orig, dsnap, j, fsize);
            let mj = choose|mj: int|
                0 <= mj < dsnap.len() && (#[trigger] dsnap[mj]).path@ == orig[j].path@
                    && dsnap[mj].data@ == orig[j].data@;
            assert(orig[i].path@ != orig[j].path@);
            assert(mi != mj);
            assert(false);
        }
    }
}

/// A live set holding fewer than two candidates owes nothing more: all
/// pairs of equal contents have been reported.
#[verifier::spinoff_prover]
proof fn lemma_complete_when_few(
    orig: Seq<Candidate>,
    curseq: Seq<Candidate>,
    t: Seq<DuplicateGroup>,
    fsize: u64,
)
    requires
        group_wf(orig, fsize),
        curseq.len() < 2,
        class_closed(orig, curseq),
        departed_reported(orig, curseq, t),
    ensures
        groups_complete(cand_entries(orig), t),
{
    reveal(class_closed);
    reveal(departed_reported);
    reveal(groups_complete);
    let entries = cand_entries(orig);
    assert forall|i: int, j: int|
        0 <= i < entries.len() && 0 <= j < entries.len() && i != j && (#[trigger] entries[i]).1
            == (#[trigger] entries[j]).1 implies exists|k: int|
        0 <= k < t.len() && group_has_path(#[trigger] t[k], entries[i].0) && group_has_path(
            t[k],
            entries[j].0,
        ) by {
        assert(orig[i].data@ == orig[j].data@);
        if has_path(curseq, orig[i].path@) {
            assert(has_path(curseq, orig[j].path@));
            let mi = choose|mi: int|
                0 <= mi < curseq.len() && (#[trigger] curseq[mi]).path@ == orig[i].path@;
            let mj = choose|mj: int|
                0 <= mj < curseq.len() && (#[trigger] curseq[mj]).path@ == orig[j].path@;
            assert(orig[i].path@ != orig[j].path@);
            assert(mi != mj);
            assert(false);
        }
    }
}

/// After a lock-step read the live set carries the same paths, each
/// with its content unchanged.
#[verifier::spinoff_prover]
proof fn lemma_read_keeps_paths(orig: Seq<Candidate>, h0: Seq<Candidate>, curseq: Seq<Candidate>)
    requires
        subset_of(h0, orig),
        curseq.len() == h0.len(),
        forall|m: int|
            0 <= m < curseq.len() ==> (#[trigger] curseq[m]).path@ == h0[m].path@
                && curseq[m].data@ == h0[m].data@,
    ensures
        subset_of(curseq, orig),
        forall|i: int|
            0 <= i < orig.len() ==> #[trigger] has_path(curseq, orig[i].path@) == has_path(
                h0,
                orig[i].path@,
            ),
{
    reveal(subset_of);
    assert forall|i: int| 0 <= i < orig.len() implies #[trigger] has_path(
        curseq,
        orig[i].path@,
    ) == has_path(h0, orig[i].path@) by {
        if has_path(curseq, orig[i].path@) {
            let m = choose|m: int|
                0 <= m < curseq.len() && (#[trigger] curseq[m]).path@ == orig[i].path@;
            assert(h0[m].path@ == orig[i].path@);
        }
        if has_path(h0, orig[i].path@) {
            let m2 = choose|m2: int|
                0 <= m2 < h0.len() && (#[trigger] h0[m2]).path@ == orig[i].path@;
            assert(curseq[m2].path@ == orig[i].path@);
        }
    }
    assert forall|m: int| 0 <= m < curseq.len() implies exists|i: int|
        0 <= i < orig.len() && (#[trigger] orig[i]).path@ == (#[trigger] curseq[m]).path@
            && orig[i].data@ == curseq[m].data@ by {
        let i = choose|i: int|
            0 <= i < orig.len() && (#[trigger] orig[i]).path@ == h0[m].path@ && orig[i].data@
                == h0[m].data@;
        assert(orig[i].path@ == curseq[m].path@ && orig[i].data@ == curseq[m].data@);
    }
}

/// Carries class closure and the report obligations across a lock-step
/// read: membership by path has not moved.
#[verifier::spinoff_prover]
proof fn lemma_read_keeps_books(
    orig: Seq<Candidate>,
    h0: Seq<Candidate>,
    curseq: Seq<Candidate>,
    t: Seq<DuplicateGroup>,
)
    requires
        class_closed(orig, h0),
        departed_reported(orig, h0, t),
        forall|i: int|
            0 <= i < orig.len() ==> #[trigger] has_path(curseq, orig[i].path@) == has_path(
                h0,
                orig[i].path@,
            ),
    ensures
        class_closed(orig, curseq),
        departed_reported(orig, curseq, t),
{
    reveal(class_closed);
    reveal(departed_reported);
    assert forall|i: int, j: int|
        0 <= i < orig.len() && 0 <= j < orig.len() && (#[trigger] orig[i]).data@ == (
    #[trigger] orig[j]).data@ implies (has_path(curseq, orig[i].path@) <==> has_path(
        curseq,
        orig[j].path@,
    )) by {
        assert(has_path(curseq, orig[i].path@) == has_path(h0, orig[i].path@));
        assert(has_path(curseq, orig[j].path@) == has_path(h0, orig[j].path@));
    }
    assert forall|i: int, j: int|
        0 <= i < orig.len() && 0 <= j < orig.len() && i != j && (#[trigger] orig[i]).data@ == (
    #[trigger] orig[j]).data@ && !has_path(curseq, orig[i].path@) implies exists|k: int|
        0 <= k < t.len() && group_has_path(#[trigger] t[k], orig[i].path@) && group_has_path(
            t[k],
            orig[j].path@,
        ) by {
        assert(has_path(curseq, orig[i].path@) == has_path(h0, orig[i].path@));
        assert(!has_path(h0, orig[i].path@));
    }
}

/// Nothing a lock-step read leaves alive has been reported.
proof fn lemma_read_keeps_unreported(
    h0: Seq<Candidate>,
    curseq: Seq<Candidate>,
    t: Seq<DuplicateGroup>,
)
    requires
        none_emitted(h0, t),
        curseq.len() == h0.len(),
        forall|m: int|
            0 <= m < curseq.len() ==> (#[trigger] curseq[m]).path@ == h0[m].path@
                && curseq[m].data@ == h0[m].data@,
    ensures
        none_emitted(curseq, t),
{
    reveal(none_emitted);
    assert forall|m: int, k: int|
        0 <= m < curseq.len() && 0 <= k < t.len() implies !group_has_path(
        #[trigger] t[k],
        (#[trigger] curseq[m]).path@,
    ) by {
        assert(!group_has_path(t[k], h0[m].path@));
    }
}

/// Partitions a live group against its first member's current buffer:
/// candidates whose buffer matches stay, the rest are handed back for a
/// comparison of their own.
#[verifier::spinoff_prover]
#[verifier::rlimit(100)]
fn partition_step(
    cur: Vec<Candidate>,
    Ghost(fsize): Ghost<u64>,
    Ghost(orig): Ghost<Seq<Candidate>>,
) -> (r: (Vec<Candidate>, Vec<Candidate>))
    requires
        cur@.len() >= 2,
        group_wf(cur@, fsize),
        group_wf(orig, fsize),
        subset_of(cur@, orig),
        class_closed(orig, cur@),
    ensures
        ({
            let keep = r.0@;
            let diff = r.1@;
            let g0 = cur@;
            &&& keep.len() + diff.len() == g0.len()
            &&& keep.len() >= 1
            &&& group_wf(keep, fsize)
            &&& group_wf(diff, fsize)
            &&& subset_of(keep, orig)
            &&& subset_of(diff, orig)
            &&& class_closed(orig, keep)
            &&& class_closed(orig, diff)
            &&& forall|m: int| 0 <= m < keep.len() ==> has_path(g0, (#[trigger] keep[m]).path@)
            &&& forall|m: int| 0 <= m < diff.len() ==> has_path(g0, (#[trigger] diff[m]).path@)
            &&& forall|m: int|
                0 <= m < keep.len() ==> !has_path(diff, (#[trigger] keep[m]).path@)
            &&& forall|i: int|
                0 <= i < orig.len() && has_path(g0, (#[trigger] orig[i]).path@) && !has_path(
                    keep,
                    orig[i].path@,
                ) ==> has_path(diff, orig[i].path@)
            &&& forall|m: int, m2: int|
                0 <= m < keep.len() && 0 <= m2 < keep.len() ==> (#[trigger] keep[m]).buf@ == (
                #[trigger] keep[m2]).buf@
            &&& keep[0].pos == g0[0].pos
        }),
{
    let ghost g0 = cur@;
    let mut cur = cur;
    let mut keep: Vec<Candidate> = Vec::new();
    let mut diff: Vec<Candidate> = Vec::new();
    let ghost mut kidx: Seq<int> = Seq::empty();
    let ghost mut didx: Seq<int> = Seq::empty();
    while cur.len() > 1
        invariant
            1 <= cur@.len() <= g0.len(),
            cur@ == g0.subrange(0, cur@.len() as int),
            group_wf(g0, fsize),
            kidx.len() == keep@.len(),
            didx.len() == diff@.len(),
            keep@.len() + diff@.len() + cur@.len() == g0.len(),
            forall|m: int|
                0 <= m < keep@.len() ==> cur@.len() <= #[trigger] kidx[m] < g0.len() && keep@[m]
                    == g0[kidx[m]],
            forall|m: int|
                0 <= m < diff@.len() ==> cur@.len() <= #[trigger] didx[m] < g0.len() && diff@[m]
                    == g0[didx[m]],
            forall|m: int, m2: int|
                0 <= m < m2 < kidx.len() ==> #[trigger] kidx[m] > #[trigger] kidx[m2],
            forall|m: int, m2: int|
                0 <= m < m2 < didx.len() ==> #[trigger] didx[m] > #[trigger] didx[m2],
            forall|idx: int| cur@.len() <= idx < g0.len() ==> #[trigger] covered(kidx, didx, idx),
            forall|m: int| 0 <= m < keep@.len() ==> (#[trigger] keep@[m]).buf@ == g0[0].buf@,
            forall|m: int| 0 <= m < diff@.len() ==> (#[trigger] diff@[m]).buf@ != g0[0].buf@,
        decreases cur@.len(),
    {
        let c = cur.pop().unwrap();
        let ghost idx: int = cur@.len() as int;
        proof {
            assert(c == g0[idx]);
            assert(cur@ =~= g0.subrange(0, cur@.len() as int));
            assert(cur@[0] == g0[0]);
        }
        let matches_first = c.buf_equal(&cur[0]);
        if matches_first {
            keep.push(c);
            proof {
                let kold = kidx;
                kidx = kidx.push(idx);
                assert forall|i2: int| cur@.len() <= i2 < g0.len() implies #[trigger] covered(
                    kidx,
                    didx,
                    i2,
                ) by {
                    if i2 == idx {
                        assert(kidx[kold.len() as int] == i2);
                    } else {
                        assert(covered(kold, didx, i2));
                        if exists|m: int| 0 <= m < kold.len() && #[trigger] kold[m] == i2 {
                            let m = choose|m: int| 0 <= m < kold.len() && #[trigger] kold[m] == i2;
                            assert(kidx[m] == i2);
                        }
                    }
                }
            }
        } else {
            diff.push(c);
            proof {
                let dold = didx;
                didx = didx.push(idx);
                assert forall|i2: int| cur@.len() <= i2 < g0.len() implies #[trigger] covered(
                    kidx,
                    didx,
                    i2,
                ) by {
                    if i2 == idx {
                        assert(didx[dold.len() as int] == i2);
                    } else {
                        assert(covered(kidx, dold, i2));
                        if exists|m: int| 0 <= m < dold.len() && #[trigger] dold[m] == i2 {
                            let m = choose|m: int| 0 <= m < dold.len() && #[trigger] dold[m] == i2;
                            assert(didx[m] == i2);
                        }
                    }
                }
            }
        }
    }
    let c0 = cur.pop().unwrap();
    proof {
        assert(c0 == g0[0]);
    }
    keep.push(c0);
    proof {
        let kold = kidx;
        kidx = kidx.push(0);
        assert forall|i2: int| 0 <= i2 < g0.len() implies #[trigger] covered(kidx, didx, i2) by {
            if i2 == 0 {
                assert(kidx[kold.len() as int] == i2);
            } else {
                assert(covered(kold, didx, i2));
                if exists|m: int| 0 <= m < kold.len() && #[trigger] kold[m] == i2 {
                    let m = choose|m: int| 0 <= m < kold.len() && #[trigger] kold[m] == i2;
                    assert(kidx[m] == i2);
                }
            }
        }
        lemma_partition_split(orig, g0, keep@, diff@, kidx, didx, fsize);
        assert(keep@[0] == g0[kidx[0]]);
        assert(g0[kidx[0]].pos == g0[0].pos);
    }
    (keep, diff)
}

/// Every candidate of a group appears in it, path and content alike.
proof fn lemma_self_subset(orig: Seq<Candidate>)
    ensures
        subset_of(orig, orig),
{
    reveal(subset_of);
    assert forall|m: int| 0 <= m < orig.len() implies exists|i: int|
        0 <= i < orig.len() && (#[trigger] orig[i]).path@ == (#[trigger] orig[m]).path@
            && orig[i].data@ == orig[m].data@ by {
        assert(orig[m].path@ == orig[m].path@ && orig[m].data@ == orig[m].data@);
    }
}

/// Every path of a group is in the group, so classes sit together.
proof fn lemma_self_closed(orig: Seq<Candidate>)
    ensures
        class_closed(orig, orig),
        departed_reported(orig, orig, Seq::<DuplicateGroup>::empty()),
{
    reveal(class_closed);
    reveal(departed_reported);
    assert forall|m: int| 0 <= m < orig.len() implies #[trigger] has_path(
        orig,
        orig[m].path@,
    ) by {
        assert(orig[m].path@ == orig[m].path@);
    }
}

/// An empty report batch claims nothing and owes nothing.
proof fn lemma_empty_batch(entries: Seq<(Seq<char>, Seq<u8>)>, s: Seq<Candidate>, fsize: u64)
    ensures
        none_emitted(s, Seq::<DuplicateGroup>::empty()),
        groups_sound(entries, Seq::<DuplicateGroup>::empty(), fsize),
        groups_disjoint(Seq::<DuplicateGroup>::empty()),
{
    reveal(none_emitted);
    reveal(groups_sound);
    reveal(groups_disjoint);
}

/// Fewer than two entries hold no pair, so nothing is owed at all.
proof fn lemma_complete_tiny(entries: Seq<(Seq<char>, Seq<u8>)>)
    requires
        entries.len() < 2,
    ensures
        groups_complete(entries, Seq::<DuplicateGroup>::empty()),
{
    reveal(groups_complete);
}

/// Carries the whole of the live set's book-keeping across a lock-step
/// read: paths and contents are untouched, so nothing moves.
#[verifier::spinoff_prover]
proof fn lemma_read_keeps_all(
    orig: Seq<Candidate>,
    h0: Seq<Candidate>,
    curseq: Seq<Candidate>,
    t: Seq<DuplicateGroup>,
)
    requires
        subset_of(h0, orig),
        class_closed(orig, h0),
        none_emitted(h0, t),
        departed_reported(orig, h0, t),
        curseq.len() == h0.len(),
        forall|m: int|
            0 <= m < curseq.len() ==> (#[trigger] curseq[m]).path@ == h0[m].path@
                && curseq[m].data@ == h0[m].data@,
    ensures
        subset_of(curseq, orig),
        class_closed(orig, curseq),
        none_emitted(curseq, t),
        departed_reported(orig, curseq, t),
{
    lemma_read_keeps_paths(orig, h0, curseq);
    lemma_read_keeps_books(orig, h0, curseq, t);
    lemma_read_keeps_unreported(h0, curseq, t);
}

/// A group that stands at the end of its data, with every buffer equal
/// and everything before the buffers agreed, is byte-identical.
#[verifier::spinoff_prover]
proof fn lemma_eof_identical(h0: Seq<Candidate>, curseq: Seq<Candidate>, fsize: u64)
    requires
        group_wf(h0, fsize),
        curseq.len() == h0.len(),
        forall|m: int, m2: int|
            0 <= m < h0.len() && 0 <= m2 < h0.len() ==> (#[trigger] h0[m]).buf@ == (
            #[trigger] h0[m2]).buf@,
        forall|m: int| 0 <= m < h0.len() ==> (#[trigger] h0[m]).pos == fsize,
        forall|m: int|
            0 <= m < curseq.len() ==> (#[trigger] curseq[m]).path@ == h0[m].path@
                && curseq[m].data@ == h0[m].data@,
    ensures
        forall|m: int, m2: int|
            0 <= m < curseq.len() && 0 <= m2 < curseq.len() ==> (#[trigger] curseq[m]).data@ == (
            #[trigger] curseq[m2]).data@,
        forall|m: int, m2: int|
            0 <= m < m2 < curseq.len() ==> (#[trigger] curseq[m]).path@ != (
            #[trigger] curseq[m2]).path@,
{
    assert forall|m: int, m2: int|
        0 <= m < curseq.len() && 0 <= m2 < curseq.len() implies (#[trigger] curseq[m]).data@ == (
    #[trigger] curseq[m2]).data@ by {
        lemma_full_agreement(h0[m], h0[m2]);
        assert(curseq[m].data@ == h0[m].data@ && curseq[m2].data@ == h0[m2].data@);
    }
    assert forall|m: int, m2: int| 0 <= m < m2 < curseq.len() implies (
    #[trigger] curseq[m]).path@ != (#[trigger] curseq[m2]).path@ by {
        assert(curseq[m].path@ == h0[m].path@ && curseq[m2].path@ == h0[m2].path@);
        assert(h0[m].path@ != h0[m2].path@);
    }
}

/// Reads the next block of every member and carries the group's
/// book-keeping across the advance. Returns true when the members stand
/// at end of file, in which case they are byte-identical throughout.
#[verifier::spinoff_prover]
#[verifier::rlimit(100)]
fn advance_group(
    cur: &mut Vec<Candidate>,
    Ghost(fsize): Ghost<u64>,
    Ghost(orig): Ghost<Seq<Candidate>>,
    Ghost(t): Ghost<Seq<DuplicateGroup>>,
) -> (eof: bool)
    requires
        group_wf(old(cur)@, fsize),
        group_wf(orig, fsize),
        2 <= old(cur)@.len(),
        forall|m: int, m2: int|
            0 <= m < old(cur)@.len() && 0 <= m2 < old(cur)@.len() ==> (#[trigger] old(cur)@[m]).buf@
                == (#[trigger] old(cur)@[m2]).buf@,
        subset_of(old(cur)@, orig),
        class_closed(orig, old(cur)@),
        none_emitted(old(cur)@, t),
        departed_reported(orig, old(cur)@, t),
    ensures
        final(cur)@.len() == old(cur)@.len(),
        subset_of(final(cur)@, orig),
        class_closed(orig, final(cur)@),
        none_emitted(final(cur)@, t),
        departed_reported(orig, final(cur)@, t),
        !eof ==> group_wf(final(cur)@, fsize),
        !eof ==> final(cur)@[0].pos > old(cur)@[0].pos,
        eof ==> forall|m: int, m2: int|
            0 <= m < final(cur)@.len() && 0 <= m2 < final(cur)@.len() ==> (#[trigger] final(cur)@[m]).data@
                == (#[trigger] final(cur)@[m2]).data@,
        eof ==> forall|m: int, m2: int|
            0 <= m < m2 < final(cur)@.len() ==> (#[trigger] final(cur)@[m]).path@ != (
            #[trigger] final(cur)@[m2]).path@,
{
    let ghost h0 = cur@;
    let eof = read_step(cur, Ghost(fsize));
    proof {
        assert forall|m: int| 0 <= m < cur@.len() implies (#[trigger] cur@[m]).path@
            == h0[m].path@ && cur@[m].data@ == h0[m].data@ by {}
        lemma_read_keeps_all(orig, h0, cur@, t);
        if eof {
            lemma_eof_identical(h0, cur@, fsize);
        }
    }
    eof
}

/// Books the final report of a branch: all survivors reached end of
/// file with one content, so the group they form keeps the whole batch
/// sound, disjoint and complete.
#[verifier::spinoff_prover]
#[verifier::rlimit(100)]
proof fn lemma_emit(
    orig: Seq<Candidate>,
    fin: Seq<Candidate>,
    a: Seq<DuplicateGroup>,
    t: Seq<DuplicateGroup>,
    group: DuplicateGroup,
    fsize: u64,
)
    requires
        group_wf(orig, fsize),
        subset_of(fin, orig),
        class_closed(orig, fin),
        fin.len() >= 2,
        forall|m: int, m2: int|
            0 <= m < fin.len() && 0 <= m2 < fin.len() ==> (#[trigger] fin[m]).data@ == (
            #[trigger] fin[m2]).data@,
        forall|m: int, m2: int|
            0 <= m < m2 < fin.len() ==> (#[trigger] fin[m]).path@ != (#[trigger] fin[m2]).path@,
        group.size == fsize,
        group.paths@.len() == fin.len(),
        forall|x: int|
            0 <= x < group.paths@.len() ==> (#[trigger] group.paths@[x])@ == fin[fin.len() - 1
                - x].path@,
        t == a.push(group),
        groups_sound(cand_entries(orig), a, fsize),
        groups_disjoint(a),
        none_emitted(fin, a),
        departed_reported(orig, fin, a),
    ensures
        groups_sound(cand_entries(orig), t, fsize),
        groups_disjoint(t),
        groups_complete(cand_entries(orig), t),
{
    reveal(subset_of);
    reveal(class_closed);
    reveal(none_emitted);
    reveal(departed_reported);
    reveal(groups_sound);
    reveal(groups_disjoint);
    reveal(groups_complete);
    let entries = cand_entries(orig);
    assert forall|i: int, j: int| 0 <= i < j < entries.len() implies (#[trigger] entries[i]).0 != (
    #[trigger] entries[j]).0 by {
        assert(orig[i].path@ != orig[j].path@);
    }
    assert(group_sound_one(entries, group, fsize)) by {
        assert forall|x: int| 0 <= x < group.paths@.len() implies path_in_entries(
            entries,
            (#[trigger] group.paths@[x])@,
        ) && content_of(entries, group.paths@[x]@) == fin[0].data@ by {
            let src = fin.len() - 1 - x;
            let i = choose|i: int|
                0 <= i < orig.len() && (#[trigger] orig[i]).path@ == fin[src].path@
                    && orig[i].data@ == fin[src].data@;
            assert(entries[i].0 == fin[src].path@);
            lemma_content_at(entries, i);
            assert(content_of(entries, group.paths@[x]@) == orig[i].data@);
            assert(fin[src].data@ == fin[0].data@);
        }
    }
    assert(group_paths_distinct(group)) by {
        assert forall|x: int, x2: int| 0 <= x < x2 < group.paths@.len() implies (
        #[trigger] group.paths@[x])@ != (#[trigger] group.paths@[x2])@ by {
            assert(fin[fin.len() - 1 - x2].path@ != fin[fin.len() - 1 - x].path@);
        }
    }
    assert forall|k: int| 0 <= k < t.len() implies group_sound_one(entries, #[trigger] t[k], fsize)
        && group_paths_distinct(t[k]) by {
        if k < a.len() {
            assert(t[k] == a[k]);
            assert(group_sound_one(entries, a[k], fsize) && group_paths_distinct(a[k]));
        } else {
            assert(t[k] == group);
        }
    }
    assert forall|k: int, k2: int| 0 <= k < k2 < t.len() implies groups_share_no_path(
        #[trigger] t[k],
        #[trigger] t[k2],
    ) by {
        if k2 < a.len() {
            assert(t[k] == a[k] && t[k2] == a[k2]);
            assert(groups_share_no_path(a[k], a[k2]));
        } else {
            assert(t[k] == a[k] && t[k2] == group);
            assert forall|x: int, x2: int|
                0 <= x < a[k].paths@.len() && 0 <= x2 < group.paths@.len() implies (
            #[trigger] a[k].paths@[x])@ != (#[trigger] group.paths@[x2])@ by {
                let src = fin.len() - 1 - x2;
                assert(!group_has_path(a[k], fin[src].path@));
                if a[k].paths@[x]@ == group.paths@[x2]@ {
                    assert(group_has_path(a[k], fin[src].path@));
                }
            }
        }
    }
    assert forall|i: int, j: int|
        0 <= i < entries.len() && 0 <= j < entries.len() && i != j && (#[trigger] entries[i]).1
            == (#[trigger] entries[j]).1 implies exists|k: int|
        0 <= k < t.len() && group_has_path(#[trigger] t[k], entries[i].0) && group_has_path(
            t[k],
            entries[j].0,
        ) by {
        assert(orig[i].data@ == orig[j].data@);
        if has_path(fin, orig[i].path@) {
            assert(has_path(fin, orig[j].path@));
            let mi = choose|mi: int|
                0 <= mi < fin.len() && (#[trigger] fin[mi]).path@ == orig[i].path@;
            let mj = choose|mj: int|
                0 <= mj < fin.len() && (#[trigger] fin[mj]).path@ == orig[j].path@;
            assert(group.paths@[fin.len() - 1 - mi]@ == orig[i].path@);
            assert(group.paths@[fin.len() - 1 - mj]@ == orig[j].path@);
            assert(group_has_path(group, entries[i].0));
            assert(group_has_path(group, entries[j].0));
            assert(t[a.len() as int] == group);
        } else {
            let k = choose|k: int|
                0 <= k < a.len() && group_has_path(#[trigger] a[k], orig[i].path@)
                    && group_has_path(a[k], orig[j].path@);
            assert(t[k] == a[k]);
        }
    }
}

/// Pops every survivor into a reported group and books it.
#[verifier::spinoff_prover]
#[verifier::rlimit(100)]
fn emit_group(
    cur: Vec<Candidate>,
    fsize: u64,
    out: &mut Vec<DuplicateGroup>,
    Ghost(orig): Ghost<Seq<Candidate>>,
    Ghost(out0): Ghost<Seq<DuplicateGroup>>,
)
    requires
        group_wf(orig, fsize),
        2 <= cur@.len(),
        subset_of(cur@, orig),
        class_closed(orig, cur@),
        forall|m: int, m2: int|
            0 <= m < cur@.len() && 0 <= m2 < cur@.len() ==> (#[trigger] cur@[m]).data@ == (
            #[trigger] cur@[m2]).data@,
        forall|m: int, m2: int|
            0 <= m < m2 < cur@.len() ==> (#[trigger] cur@[m]).path@ != (
            #[trigger] cur@[m2]).path@,
        out0.len() <= old(out)@.len(),
        old(out)@.subrange(0, out0.len() as int) == out0,
        groups_sound(cand_entries(orig), appended(out0, old(out)@), fsize),
        groups_disjoint(appended(out0, old(out)@)),
        none_emitted(cur@, appended(out0, old(out)@)),
        departed_reported(orig, cur@, appended(out0, old(out)@)),
    ensures
        out0.len() <= final(out)@.len(),
        final(out)@.subrange(0, out0.len() as int) == out0,
        groups_sound(cand_entries(orig), appended(out0, final(out)@), fsize),
        groups_complete(cand_entries(orig), appended(out0, final(out)@)),
        groups_disjoint(appended(out0, final(out)@)),
{
    let ghost fin = cur@;
    let ghost outl = out@;
    let mut cur = cur;
    let mut paths: Vec<String> = Vec::new();
    while cur.len() > 0
        invariant
            cur@ == fin.subrange(0, cur@.len() as int),
            paths@.len() + cur@.len() == fin.len(),
            forall|a: int|
                0 <= a < paths@.len() ==> (#[trigger] paths@[a])@ == fin[fin.len() - 1 - a].path@,
        decreases cur@.len(),
    {
        let c = cur.pop().unwrap();
        proof {
            assert(c == fin[cur@.len() as int]);
            assert(cur@ =~= fin.subrange(0, cur@.len() as int));
        }
        paths.push(c.into_path());
    }
    let group = DuplicateGroup { size: fsize, paths };
    out.push(group);
    proof {
        assert(out@.subrange(0, out0.len() as int) =~= out0);
        assert(appended(out0, out@) =~= appended(out0, outl).push(group));
        lemma_emit(orig, fin, appended(out0, outl), appended(out0, out@), group, fsize);
    }
}

/// Splits a group of same-size candidates into exact-duplicate sets and
/// appends one `DuplicateGroup` per set of two or more byte-identical
/// members.
///
/// Each round partitions the group against its first member's current
/// buffer; candidates whose buffer diverges are compared among
/// themselves by recursion, and the rest read their next block. A branch
/// that reaches end of file with two or more members left reports them.
///
/// What is appended to `out` is sound (a reported group's paths all bear
/// one content), complete (every pair of equal-content candidates is
/// reported, in one group) and pairwise disjoint; groups already in
/// `out` stand untouched.
/// One round of a comparison branch: partition against the first
/// member's buffer, send the diverged half to its own comparison, stop
/// if fewer than two members survive, otherwise read the next block.
/// Returns 0 when the branch is exhausted, 1 at end of file with the
/// survivors byte-identical, 2 to go on reading.
#[verifier::spinoff_prover]
#[verifier::rlimit(100)]
fn compare_round(
    fsize: u64,
    cur: Vec<Candidate>,
    out: &mut Vec<DuplicateGroup>,
    Ghost(orig): Ghost<Seq<Candidate>>,
    Ghost(out0): Ghost<Seq<DuplicateGroup>>,
) -> (r: (u8, Vec<Candidate>))
    requires
        2 <= cur@.len() <= orig.len(),
        group_wf(cur@, fsize),
        group_wf(orig, fsize),
        subset_of(cur@, orig),
        class_closed(orig, cur@),
        out0.len() <= old(out)@.len(),
        old(out)@.subrange(0, out0.len() as int) == out0,
        groups_sound(cand_entries(orig), appended(out0, old(out)@), fsize),
        groups_disjoint(appended(out0, old(out)@)),
        none_emitted(cur@, appended(out0, old(out)@)),
        departed_reported(orig, cur@, appended(out0, old(out)@)),
    ensures
        out0.len() <= final(out)@.len(),
        final(out)@.subrange(0, out0.len() as int) == out0,
        groups_sound(cand_entries(orig), appended(out0, final(out)@), fsize),
        groups_disjoint(appended(out0, final(out)@)),
        r.0 == 0 || r.0 == 1 || r.0 == 2,
        r.0 == 0 ==> groups_complete(cand_entries(orig), appended(out0, final(out)@)),
        r.0 != 0 ==> 2 <= r.1@.len() <= cur@.len(),
        r.0 != 0 ==> subset_of(r.1@, orig),
        r.0 != 0 ==> class_closed(orig, r.1@),
        r.0 != 0 ==> none_emitted(r.1@, appended(out0, final(out)@)),
        r.0 != 0 ==> departed_reported(orig, r.1@, appended(out0, final(out)@)),
        r.0 == 1 ==> forall|m: int, m2: int|
            0 <= m < r.1@.len() && 0 <= m2 < r.1@.len() ==> (#[trigger] r.1@[m]).data@ == (
            #[trigger] r.1@[m2]).data@,
        r.0 == 1 ==> forall|m: int, m2: int|
            0 <= m < m2 < r.1@.len() ==> (#[trigger] r.1@[m]).path@ != (#[trigger] r.1@[m2]).path@,
        r.0 == 2 ==> group_wf(r.1@, fsize),
        r.0 == 2 ==> r.1@[0].pos > cur@[0].pos,
    decreases cur@.len(), 0int,
{
    let ghost g0 = cur@;
    let (keep, diff) = partition_step(cur, Ghost(fsize), Ghost(orig));
    let mut nxt = keep;
    let ghost dsnap = diff@;
    let ghost outa = out@;
    proof {
        lemma_none_emitted_subset(nxt@, g0, appended(out0, outa));
    }
    if diff.len() >= 2 {
        proof {
            assert(dsnap.len() < g0.len());
        }
        compare_files_inner(fsize, diff, out);
        proof {
            lemma_after_recursion(orig, g0, nxt@, dsnap, out0, outa, out@, fsize);
        }
    } else {
        proof {
            lemma_after_drop(orig, g0, nxt@, dsnap, appended(out0, out@), fsize);
        }
    }
    if nxt.len() < 2 {
        proof {
            lemma_complete_when_few(orig, nxt@, appended(out0, out@), fsize);
        }
        return (0u8, nxt);
    }
    let eof = advance_group(&mut nxt, Ghost(fsize), Ghost(orig), Ghost(appended(out0, out@)));
    if eof {
        (1u8, nxt)
    } else {
        (2u8, nxt)
    }
}

/// Splits a group of same-size candidates into exact-duplicate sets and
/// appends one `DuplicateGroup` per set of two or more byte-identical
/// members.
///
/// Each round partitions the group against its first member's current
/// buffer; candidates whose buffer diverges are compared among
/// themselves by recursion, and the rest read their next block. A branch
/// that reaches end of file with two or more members left reports them.
///
/// What is appended to `out` is sound (a reported group's paths all bear
/// one content), complete (every pair of equal-content candidates is
/// reported, in one group) and pairwise disjoint; groups already in
/// `out` stand untouched.
#[verifier::rlimit(100)]
#[verifier::spinoff_prover]
pub fn compare_files_inner(fsize: u64, todo: Vec<Candidate>, out: &mut Vec<DuplicateGroup>)
    requires
        group_wf(todo@, fsize),
    ensures
        old(out)@.len() <= final(out)@.len(),
        final(out)@.subrange(0, old(out)@.len() as int) == old(out)@,
        groups_sound(cand_entries(todo@), appended(old(out)@, final(out)@), fsize),
        groups_complete(cand_entries(todo@), appended(old(out)@, final(out)@)),
        groups_disjoint(appended(old(out)@, final(out)@)),
    decreases todo@.len(), 1int,
{
    let ghost orig = todo@;
    let ghost out0 = out@;
    let mut cur = todo;
    proof {
        lemma_self_subset(orig);
        lemma_self_closed(orig);
        lemma_empty_batch(cand_entries(orig), orig, fsize);
        assert(out@.subrange(0, out0.len() as int) =~= out0);
        assert(appended(out0, out@) =~= Seq::<DuplicateGroup>::empty());
    }
    if cur.len() < 2 {
        proof {
            lemma_complete_tiny(cand_entries(orig));
        }
        return;
    }
    loop
        invariant_except_break
            orig == todo@,
            out0 == old(out)@,
            2 <= cur@.len() <= orig.len(),
            group_wf(cur@, fsize),
            group_wf(orig, fsize),
            subset_of(cur@, orig),
            class_closed(orig, cur@),
            out0.len() <= out@.len(),
            out@.subrange(0, out0.len() as int) == out0,
            groups_sound(cand_entries(orig), appended(out0, out@), fsize),
            groups_disjoint(appended(out0, out@)),
            none_emitted(cur@, appended(out0, out@)),
            departed_reported(orig, cur@, appended(out0, out@)),
        ensures
            orig == todo@,
            out0 == old(out)@,
            2 <= cur@.len() <= orig.len(),
            group_wf(orig, fsize),
            subset_of(cur@, orig),
            class_closed(orig, cur@),
            forall|m: int, m2: int|
                0 <= m < cur@.len() && 0 <= m2 < cur@.len() ==> (#[trigger] cur@[m]).data@ == (
                #[trigger] cur@[m2]).data@,
            forall|m: int, m2: int|
                0 <= m < m2 < cur@.len() ==> (#[trigger] cur@[m]).path@ != (
                #[trigger] cur@[m2]).path@,
            out0.len() <= out@.len(),
            out@.subrange(0, out0.len() as int) == out0,
            groups_sound(cand_entries(orig), appended(out0, out@), fsize),
            groups_disjoint(appended(out0, out@)),
            none_emitted(cur@, appended(out0, out@)),
            departed_reported(orig, cur@, appended(out0, out@)),
        decreases fsize - cur@[0].pos,
    {
        let round = compare_round(fsize, cur, out, Ghost(orig), Ghost(out0));
        let outcome = round.0;
        cur = round.1;
        if outcome == 0 {
            return;
        }
        if outcome == 1 {
            break;
        }
    }
    // every survivor matched to the end of the file: report the group
    emit_group(cur, fsize, out, Ghost(orig), Ghost(out0));
}

/// Compares a candidate group of same-size files byte for byte and
/// appends every exact-duplicate set found. Groups of `STRATEGY_LIMIT`
/// or more members run with the `Slow` strategy throughout.
#[verifier::spinoff_prover]
#[verifier::rlimit(100)]
pub fn compare_files(fsize: u64, files: Vec<(String, Vec<u8>)>, out: &mut Vec<DuplicateGroup>)
    requires
        distinct_paths(file_entries(files@)),
        forall|i: int| 0 <= i < files@.len() ==> (#[trigger] files@[i]).1@.len() == fsize,
    ensures
        old(out)@.len() <= final(out)@.len(),
        final(out)@.subrange(0, old(out)@.len() as int) == old(out)@,
        groups_sound(file_entries(files@), appended(old(out)@, final(out)@), fsize),
        groups_complete(file_entries(files@), appended(old(out)@, final(out)@)),
        groups_disjoint(appended(old(out)@, final(out)@)),
{
    let ghost forig = files@;
    let strategy = select_strategy(files.len());
    let mut rem = files;
    let mut todo: Vec<Candidate> = Vec::new();
    while rem.len() > 0
        invariant
            rem@ == forig.subrange(forig.len() - rem@.len(), forig.len() as int),
            todo@.len() + rem@.len() == forig.len(),
            forall|m: int|
                0 <= m < todo@.len() ==> (#[trigger] todo@[m]).inv() && todo@[m].path@
                    == forig[m].0@ && todo@[m].data@ == forig[m].1@ && todo@[m].pos == 0
                    && todo@[m].buf@ == Seq::<u8>::empty() && todo@[m].strategy == strategy,
        decreases rem@.len(),
    {
        proof {
            assert(rem@[0] == forig[todo@.len() as int]);
        }
        let f = rem.remove(0);
        todo.push(Candidate::new(f.0, f.1, strategy));
        proof {
            assert(rem@ =~= forig.subrange(forig.len() - rem@.len(), forig.len() as int));
        }
    }
    proof {
        let fe = file_entries(forig);
        assert forall|i: int| 0 <= i < todo@.len() implies (#[trigger] todo@[i]).data@.len()
            == fsize by {
            assert(forig[i].1@.len() == fsize);
        }
        assert forall|i: int, j: int|
            0 <= i < todo@.len() && 0 <= j < todo@.len() implies (
        #[trigger] todo@[i]).data@.subrange(0, todo@[i].pos - todo@[i].buf@.len()) == (
        #[trigger] todo@[j]).data@.subrange(0, todo@[j].pos - todo@[j].buf@.len()) by {
            assert(todo@[i].data@.subrange(0, 0) =~= Seq::<u8>::empty());
            assert(todo@[j].data@.subrange(0, 0) =~= Seq::<u8>::empty());
        }
        assert forall|i: int, j: int| 0 <= i < j < todo@.len() implies (
        #[trigger] todo@[i]).path@ != (#[trigger] todo@[j]).path@ by {
            assert(fe[i].0 != fe[j].0);
            assert(fe[i].0 == forig[i].0@ && fe[j].0 == forig[j].0@);
        }
        assert(group_wf(todo@, fsize));
    }
    let ghost tsnap = todo@;
    compare_files_inner(fsize, todo, out);
    proof {
        assert(cand_entries(tsnap) =~= file_entries(forig));
    }
}

/// A path is reported exactly when some other path bears the same
/// bytes: membership in the report follows the contents alone, so
/// swapping two files' contents moves membership with it and leaves no
/// stale entries.
pub proof fn lemma_reported_iff_duplicate(
    entries: Seq<(Seq<char>, Seq<u8>)>,
    new: Seq<DuplicateGroup>,
    fsize: u64,
    i: int,
)
    requires
        distinct_paths(entries),
        groups_sound(entries, new, fsize),
        groups_complete(entries, new),
        groups_disjoint(new),
        0 <= i < entries.len(),
    ensures
        (exists|k: int| 0 <= k < new.len() && group_has_path(#[trigger] new[k], entries[i].0))
            <==> (exists|j: int|
            0 <= j < entries.len() && j != i && (#[trigger] entries[j]).1 == entries[i].1),
{
    reveal(groups_sound);
    reveal(groups_complete);
    reveal(groups_disjoint);
    if exists|k: int| 0 <= k < new.len() && group_has_path(#[trigger] new[k], entries[i].0) {
        let k = choose|k: int|
            0 <= k < new.len() && group_has_path(#[trigger] new[k], entries[i].0);
        let g = new[k];
        assert(group_sound_one(entries, g, fsize));
        assert(group_paths_distinct(g));
        let a = choose|a: int| 0 <= a < g.paths@.len() && (#[trigger] g.paths@[a])@ == entries[i].0;
        let b: int = if a == 0 {
            1
        } else {
            0
        };
        assert(g.paths@[a]@ != g.paths@[b]@);
        assert(path_in_entries(entries, g.paths@[b]@));
        let j = choose|j: int| 0 <= j < entries.len() && (#[trigger] entries[j]).0 == g.paths@[b]@;
        assert(content_of(entries, g.paths@[a]@) == content_of(entries, g.paths@[b]@));
        lemma_content_at(entries, i);
        lemma_content_at(entries, j);
        assert(j != i);
        assert(entries[j].1 == entries[i].1);
    }
    if exists|j: int| 0 <= j < entries.len() && j != i && (#[trigger] entries[j]).1
        == entries[i].1 {
        let j = choose|j: int|
            0 <= j < entries.len() && j != i && (#[trigger] entries[j]).1 == entries[i].1;
        assert(exists|k: int|
            0 <= k < new.len() && group_has_path(#[trigger] new[k], entries[i].0)
                && group_has_path(new[k], entries[j].0));
    }
}

/// Two runs over one unchanged set of files report the same groups:
/// a pair of paths shares a reported group in one run exactly when it
/// does in the other, whatever order either run worked in.
pub proof fn lemma_runs_agree(
    entries: Seq<(Seq<char>, Seq<u8>)>,
    new1: Seq<DuplicateGroup>,
    new2: Seq<DuplicateGroup>,
    fsize: u64,
    i: int,
    j: int,
)
    requires
        distinct_paths(entries),
        groups_sound(entries, new1, fsize),
        groups_complete(entries, new1),
        groups_sound(entries, new2, fsize),
        groups_complete(entries, new2),
        0 <= i < entries.len(),
        0 <= j < entries.len(),
        i != j,
    ensures
        (exists|k: int|
            0 <= k < new1.len() && group_has_path(#[trigger] new1[k], entries[i].0)
                && group_has_path(new1[k], entries[j].0)) <==> (exists|k: int|
            0 <= k < new2.len() && group_has_path(#[trigger] new2[k], entries[i].0)
                && group_has_path(new2[k], entries[j].0)),
{
    lemma_pair_shares_content(entries, new1, fsize, i, j);
    lemma_pair_shares_content(entries, new2, fsize, i, j);
    reveal(groups_complete);
}

/// A pair of paths listed in one group bears one content.
proof fn lemma_pair_shares_content(
    entries: Seq<(Seq<char>, Seq<u8>)>,
    new: Seq<DuplicateGroup>,
    fsize: u64,
    i: int,
    j: int,
)
    requires
        distinct_paths(entries),
        groups_sound(entries, new, fsize),
        0 <= i < entries.len(),
        0 <= j < entries.len(),
    ensures
        (exists|k: int|
            0 <= k < new.len() && group_has_path(#[trigger] new[k], entries[i].0)
                && group_has_path(new[k], entries[j].0)) ==> entries[i].1 == entries[j].1,
{
    reveal(groups_sound);
    if exists|k: int|
        0 <= k < new.len() && group_has_path(#[trigger] new[k], entries[i].0) && group_has_path(
            new[k],
            entries[j].0,
        ) {
        let k = choose|k: int|
            0 <= k < new.len() && group_has_path(#[trigger] new[k], entries[i].0)
                && group_has_path(new[k], entries[j].0);
        let g = new[k];
        assert(group_sound_one(entries, g, fsize));
        let a = choose|a: int| 0 <= a < g.paths@.len() && (#[trigger] g.paths@[a])@ == entries[i].0;
        let b = choose|b: int| 0 <= b < g.paths@.len() && (#[trigger] g.paths@[b])@ == entries[j].0;
        assert(content_of(entries, g.paths@[a]@) == content_of(entries, g.paths@[b]@));
        lemma_content_at(entries, i);
        lemma_content_at(entries, j);
    }
}

/// Byte-for-byte equality of two buffers.
pub(crate) fn bytes_equal(a: &Vec<u8>, b: &Vec<u8>) -> (r: bool)
    ensures
        r <==> a@ == b@,
{
    if a.len() != b.len() {
        return false;
    }
    let mut i: usize = 0;
    while i < a.len()
        invariant
            i <= a.len(),
            a@.len() == b@.len(),
            forall|j: int| 0 <= j < i ==> a@[j] == b@[j],
        decreases a@.len() - i,
    {
        if a[i] != b[i] {
            return false;
        }
        i = i + 1;
    }
    proof {
        assert(a@ =~= b@);
    }
    true
}

} // verus!
