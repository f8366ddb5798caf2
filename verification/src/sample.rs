//! Sparse sampling of file contents and the digest that filters candidate
//! duplicates.
//!
//! A file is not hashed whole: a block of `BLOCK` bytes is fed to the
//! digest, then `GAP` bytes are skipped, repeated to the end of the file.
//! Two files with equal size and equal sparse digest are probable
//! duplicates only; an exact byte comparison follows.

use vstd::prelude::*;

verus! {

/// Number of bytes fed to the digest from each sampled stretch.
pub const BLOCK: usize = 4096;

/// Number of bytes skipped between sampled stretches.
pub const GAP: usize = 102400;

/// The bytes of `data` that the strided sampling visits from position
/// `pos` on: up to `BLOCK` bytes, then a jump of `GAP` bytes, repeated
/// until the end of the data.
pub open spec fn sample_from(data: Seq<u8>, pos: int) -> Seq<u8>
    decreases data.len() - pos
    when 0 <= pos <= data.len()
{
    if pos >= data.len() {
        Seq::empty()
    } else {
        let end = if pos + BLOCK <= data.len() {
            pos + BLOCK
        } else {
            data.len() as int
        };
        let next = if end + GAP <= data.len() {
            end + GAP
        } else {
            data.len() as int
        };
        data.subrange(pos, end) + sample_from(data, next)
    }
}

/// The full strided sample of `data`.
pub open spec fn sample_of(data: Seq<u8>) -> Seq<u8> {
    sample_from(data, 0)
}

/// Data no longer than one block is sampled whole: the sparse digest of
/// such a file covers every byte.
pub proof fn lemma_short_data_sampled_whole(data: Seq<u8>)
    requires
        data.len() <= BLOCK,
    ensures
        sample_of(data) == data,
{
    if data.len() == 0 {
        assert(sample_of(data) =~= data);
    } else {
        assert(sample_from(data, data.len() as int) =~= Seq::<u8>::empty());
        assert(sample_of(data) =~= data.subrange(0, data.len() as int));
        assert(sample_of(data) =~= data);
    }
}

/// Collects the strided sample of `data` into one contiguous buffer.
pub fn sparse_sample(data: &Vec<u8>) -> (out: Vec<u8>)
    ensures
        out@ == sample_of(data@),
{
    let mut out: Vec<u8> = Vec::new();
    let mut pos: usize = 0;
    while pos < data.len()
        invariant
            pos <= data.len(),
            sample_of(data@) == out@ + sample_from(data@, pos as int),
        decreases data.len() - pos,
    {
        let end = if data.len() - pos >= BLOCK {
            pos + BLOCK
        } else {
            data.len()
        };
        out.extend_from_slice(&data.as_slice()[pos..end]);
        if data.len() - end >= GAP {
            pos = end + GAP;
        } else {
            pos = data.len();
        }
    }
    proof {
        assert(sample_from(data@, pos as int) =~= Seq::<u8>::empty());
        assert(out@ =~= out@ + Seq::<u8>::empty());
    }
    out
}

/// The digest of a byte sequence. The value is fixed by the bytes
/// alone; nothing more is stated of it.
pub uninterp spec fn digest_of(bytes: Seq<u8>) -> Seq<u8>;

/// Relies on blake3::hash: a 32-byte digest that depends on the input
/// bytes alone.
#[verifier::external_body]
fn blake3_digest(bytes: &Vec<u8>) -> (r: Vec<u8>)
    ensures
        r@ == digest_of(bytes@),
        r@.len() == 32,
{
    blake3::hash(bytes.as_slice()).as_bytes().to_vec()
}

/// The sparse digest of a file's contents: the digest of its strided
/// sample.
pub fn sparse_digest(data: &Vec<u8>) -> (r: Vec<u8>)
    ensures
        r@ == digest_of(sample_of(data@)),
        r@.len() == 32,
{
    let sampled = sparse_sample(data);
    blake3_digest(&sampled)
}

} // verus!
