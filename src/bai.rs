//! The persisted form of an index: the `BAI` layout, little-endian, with
//! per reference sequence its bins and their chunks, then its linear index,
//! and at the end the number of records placed on no reference sequence.

use vstd::prelude::*;

use crate::block::{le32_bytes, le64_bytes, push_le32, push_le64};
use crate::chunk::Chunk;
use crate::index::{Bin, Index, ReferenceIndex};
use crate::virtual_position::VirtualPosition;

verus! {

/// Largest count the format's signed 32-bit count fields hold.
pub const MAX_COUNT: usize = 0x7fff_ffff;

/// The bytes that open an index file: `BAI` and 1.
pub open spec fn magic() -> Seq<u8> {
    seq![0x42u8, 0x41u8, 0x49u8, 0x01u8]
}

/// The encoding of a list of chunks: each its start and end.
pub open spec fn chunks_bytes(cs: Seq<Chunk>) -> Seq<u8>
    decreases cs.len(),
{
    if cs.len() == 0 {
        Seq::empty()
    } else {
        chunks_bytes(cs.drop_last()) + le64_bytes(cs.last().start@ as nat) + le64_bytes(
            cs.last().end@ as nat,
        )
    }
}

/// The encoding of a bin: its id, its chunk count and its chunks.
pub open spec fn bin_bytes(b: Bin) -> Seq<u8> {
    le32_bytes(b.id as nat) + le32_bytes(b.chunks@.len()) + chunks_bytes(b.chunks@)
}

/// The encoding of a list of bins.
pub open spec fn bins_bytes(bs: Seq<Bin>) -> Seq<u8>
    decreases bs.len(),
{
    if bs.len() == 0 {
        Seq::empty()
    } else {
        bins_bytes(bs.drop_last()) + bin_bytes(bs.last())
    }
}

/// The encoding of a linear index: each tile's position.
pub open spec fn linear_bytes(l: Seq<VirtualPosition>) -> Seq<u8>
    decreases l.len(),
{
    if l.len() == 0 {
        Seq::empty()
    } else {
        linear_bytes(l.drop_last()) + le64_bytes(l.last()@ as nat)
    }
}

/// The encoding of one reference sequence's index.
pub open spec fn reference_bytes(r: ReferenceIndex) -> Seq<u8> {
    le32_bytes(r.bins_view().len()) + bins_bytes(r.bins_view()) + le32_bytes(r.linear_view().len())
        + linear_bytes(r.linear_view())
}

/// The encoding of a list of reference sequence indices.
pub open spec fn references_bytes(rs: Seq<ReferenceIndex>) -> Seq<u8>
    decreases rs.len(),
{
    if rs.len() == 0 {
        Seq::empty()
    } else {
        references_bytes(rs.drop_last()) + reference_bytes(rs.last())
    }
}

/// The encoding of an index.
pub open spec fn index_bytes(ix: Index) -> Seq<u8> {
    magic() + le32_bytes(ix.references_view().len()) + references_bytes(ix.references_view())
        + le64_bytes(ix.unplaced_view() as nat)
}

/// Whether every count of reference index `r` fits its field.
pub open spec fn reference_fits(r: ReferenceIndex) -> bool {
    &&& r.bins_view().len() <= MAX_COUNT
    &&& r.linear_view().len() <= MAX_COUNT
    &&& forall|k: int| 0 <= k < r.bins_view().len() ==> #[trigger] r.bins_view()[k].chunks@.len() <= MAX_COUNT
}

/// Whether every count of index `ix` fits its field.
pub open spec fn index_fits(ix: Index) -> bool {
    &&& ix.references_view().len() <= MAX_COUNT
    &&& forall|i: int| 0 <= i < ix.references_view().len() ==> #[trigger] reference_fits(ix.references_view()[i])
}

/// Why an index could not be written.
#[derive(Clone, Copy, Debug, PartialEq, Eq, Structural)]
pub enum WriteIndexError {
    /// A count does not fit in its signed 32-bit field.
    TooLarge,
}

fn write_chunks(out: &mut Vec<u8>, cs: &Vec<Chunk>)
    ensures
        final(out)@ == old(out)@ + chunks_bytes(cs@),
{
    let mut i: usize = 0;
    proof {
        assert(cs@.take(0) =~= Seq::<Chunk>::empty());
        assert(out@ =~= old(out)@ + chunks_bytes(cs@.take(0)));
    }
    while i < cs.len()
        invariant
            i <= cs@.len(),
            out@ == old(out)@ + chunks_bytes(cs@.take(i as int)),
        decreases cs@.len() - i,
    {
        push_le64(out, cs[i].start.0);
        push_le64(out, cs[i].end.0);
        proof {
            assert(cs@.take(i + 1).drop_last() =~= cs@.take(i as int));
            assert(out@ =~= old(out)@ + chunks_bytes(cs@.take(i + 1)));
        }
        i = i + 1;
    }
    proof {
        assert(cs@.take(i as int) =~= cs@);
    }
}

fn write_reference(out: &mut Vec<u8>, r: &ReferenceIndex) -> (res: Result<(), WriteIndexError>)
    ensures
        res is Ok <==> reference_fits(*r),
        res is Ok ==> final(out)@ == old(out)@ + reference_bytes(*r),
{
    let bins = r.bins();
    let linear = r.linear_index();
    if bins.len() > MAX_COUNT || linear.len() > MAX_COUNT {
        return Err(WriteIndexError::TooLarge);
    }
    push_le32(out, bins.len() as u32);
    let ghost mid = out@;
    let mut k: usize = 0;
    proof {
        assert(bins@.take(0) =~= Seq::<Bin>::empty());
        assert(out@ =~= mid + bins_bytes(bins@.take(0)));
    }
    while k < bins.len()
        invariant
            bins@ == r.bins_view(),
            k <= bins@.len(),
            out@ == mid + bins_bytes(bins@.take(k as int)),
            forall|j: int| 0 <= j < k ==> #[trigger] bins@[j].chunks@.len() <= MAX_COUNT,
        decreases bins@.len() - k,
    {
        let b = &bins[k];
        if b.chunks.len() > MAX_COUNT {
            return Err(WriteIndexError::TooLarge);
        }
        push_le32(out, b.id);
        push_le32(out, b.chunks.len() as u32);
        write_chunks(out, &b.chunks);
        proof {
            assert(bins@.take(k + 1).drop_last() =~= bins@.take(k as int));
            assert(out@ =~= mid + bins_bytes(bins@.take(k + 1)));
        }
        k = k + 1;
    }
    proof {
        assert(bins@.take(k as int) =~= bins@);
    }
    push_le32(out, linear.len() as u32);
    let ghost mid2 = out@;
    let mut t: usize = 0;
    proof {
        assert(linear@.take(0) =~= Seq::<VirtualPosition>::empty());
        assert(out@ =~= mid2 + linear_bytes(linear@.take(0)));
    }
    while t < linear.len()
        invariant
            t <= linear@.len(),
            out@ == mid2 + linear_bytes(linear@.take(t as int)),
        decreases linear@.len() - t,
    {
        push_le64(out, linear[t].0);
        proof {
            assert(linear@.take(t + 1).drop_last() =~= linear@.take(t as int));
            assert(out@ =~= mid2 + linear_bytes(linear@.take(t + 1)));
        }
        t = t + 1;
    }
    proof {
        assert(linear@.take(t as int) =~= linear@);
        assert(out@ =~= old(out)@ + reference_bytes(*r));
    }
    Ok(())
}

/// Encodes an index in the `BAI` layout.
///
/// Fails when a count (reference sequences, bins, chunks of a bin, tiles)
/// does not fit in its signed 32-bit field.
pub fn write_index(ix: &Index) -> (r: Result<Vec<u8>, WriteIndexError>)
    ensures
        r is Ok <==> index_fits(*ix),
        r matches Ok(v) ==> v@ == index_bytes(*ix),
{
    let n = ix.reference_count();
    if n > MAX_COUNT {
        return Err(WriteIndexError::TooLarge);
    }
    let mut out: Vec<u8> = Vec::new();
    out.push(0x42);
    out.push(0x41);
    out.push(0x49);
    out.push(0x01);
    push_le32(&mut out, n as u32);
    let ghost mid = out@;
    let ghost refs = ix.references_view();
    let mut i: usize = 0;
    proof {
        assert(refs.take(0) =~= Seq::<ReferenceIndex>::empty());
        assert(out@ =~= mid + references_bytes(refs.take(0)));
    }
    while i < n
        invariant
            n == refs.len(),
            refs == ix.references_view(),
            mid == magic() + le32_bytes(n as nat),
            i <= n,
            out@ == mid + references_bytes(refs.take(i as int)),
            forall|j: int| 0 <= j < i ==> #[trigger] reference_fits(refs[j]),
        decreases n - i,
    {
        let reference = ix.reference(i).unwrap();
        if write_reference(&mut out, reference).is_err() {
            return Err(WriteIndexError::TooLarge);
        }
        proof {
            assert(refs.take(i + 1).drop_last() =~= refs.take(i as int));
            assert(out@ =~= mid + references_bytes(refs.take(i + 1)));
        }
        i = i + 1;
    }
    push_le64(&mut out, ix.unplaced_unmapped_record_count());
    proof {
        assert(refs.take(i as int) =~= refs);
        assert(out@ =~= index_bytes(*ix));
    }
    Ok(out)
}

} // verus!
