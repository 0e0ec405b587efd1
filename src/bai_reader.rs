//! Reading an index file in the `BAI` layout back into an index.

use vstd::prelude::*;

use crate::bai::{
    bin_bytes, bins_bytes, chunks_bytes, index_bytes, index_fits, linear_bytes, magic, reference_bytes,
    reference_fits, references_bytes, MAX_COUNT,
};
use crate::block::{le32_bytes, le64_bytes};
use crate::chunk::Chunk;
use crate::index::{bins_valid, Bin, Index, ReferenceIndex};
use crate::virtual_position::VirtualPosition;

verus! {

/// The 32-bit little-endian value at `p` of `b`.
pub open spec fn u32_at(b: Seq<u8>, p: int) -> nat {
    (b[p] + 256 * b[p + 1] + 65536 * b[p + 2] + 16777216 * b[p + 3]) as nat
}

/// The 64-bit little-endian value at `p` of `b`.
pub open spec fn u64_at(b: Seq<u8>, p: int) -> nat {
    u32_at(b, p) + 0x1_0000_0000 * u32_at(b, p + 4)
}

/// A bin as read: its id and its chunks.
pub type BinParts = (u32, Seq<Chunk>);

/// A reference sequence's index as read: its bins and its linear index.
pub type ReferenceParts = (Seq<BinParts>, Seq<VirtualPosition>);

/// Reading `n` chunks at `p`: the chunks and where they end.
pub open spec fn parse_chunks(b: Seq<u8>, p: int, n: nat) -> Option<(Seq<Chunk>, int)>
    decreases n,
{
    if n == 0 {
        Some((Seq::empty(), p))
    } else if p < 0 || p + 16 > b.len() {
        None
    } else {
        let c = Chunk {
            start: VirtualPosition(u64_at(b, p) as u64),
            end: VirtualPosition(u64_at(b, p + 8) as u64),
        };
        match parse_chunks(b, p + 16, (n - 1) as nat) {
            None => None,
            Some((rest, q)) => Some((seq![c] + rest, q)),
        }
    }
}

/// Reading `n` bins at `p`: each an id, a chunk count and the chunks.
pub open spec fn parse_bins(b: Seq<u8>, p: int, n: nat) -> Option<(Seq<BinParts>, int)>
    decreases n,
{
    if n == 0 {
        Some((Seq::empty(), p))
    } else if p < 0 || p + 8 > b.len() || u32_at(b, p + 4) > MAX_COUNT {
        None
    } else {
        match parse_chunks(b, p + 8, u32_at(b, p + 4)) {
            None => None,
            Some((cs, q)) => match parse_bins(b, q, (n - 1) as nat) {
                None => None,
                Some((rest, r)) => Some((seq![(u32_at(b, p) as u32, cs)] + rest, r)),
            },
        }
    }
}

/// Reading a linear index of `n` tiles at `p`.
pub open spec fn parse_linear(b: Seq<u8>, p: int, n: nat) -> Option<(Seq<VirtualPosition>, int)>
    decreases n,
{
    if n == 0 {
        Some((Seq::empty(), p))
    } else if p < 0 || p + 8 > b.len() {
        None
    } else {
        match parse_linear(b, p + 8, (n - 1) as nat) {
            None => None,
            Some((rest, q)) => Some((seq![VirtualPosition(u64_at(b, p) as u64)] + rest, q)),
        }
    }
}

/// Reading one reference sequence's index at `p`: a bin count, the bins, a
/// tile count and the linear index.
pub open spec fn parse_reference(b: Seq<u8>, p: int) -> Option<(ReferenceParts, int)> {
    if p < 0 || p + 4 > b.len() || u32_at(b, p) > MAX_COUNT {
        None
    } else {
        match parse_bins(b, p + 4, u32_at(b, p)) {
            None => None,
            Some((bins, q)) => if q + 4 > b.len() || u32_at(b, q) > MAX_COUNT {
                None
            } else {
                match parse_linear(b, q + 4, u32_at(b, q)) {
                    None => None,
                    Some((lin, r)) => Some(((bins, lin), r)),
                }
            },
        }
    }
}

/// Reading `n` reference sequence indices at `p`.
pub open spec fn parse_references(b: Seq<u8>, p: int, n: nat) -> Option<(Seq<ReferenceParts>, int)>
    decreases n,
{
    if n == 0 {
        Some((Seq::empty(), p))
    } else {
        match parse_reference(b, p) {
            None => None,
            Some((x, q)) => match parse_references(b, q, (n - 1) as nat) {
                None => None,
                Some((rest, r)) => Some((seq![x] + rest, r)),
            },
        }
    }
}

/// Reading an index file: the magic number, a reference count, the
/// reference indices, and optionally the number of records placed on no
/// reference sequence (0 when absent); nothing may follow.
pub open spec fn parse_index(b: Seq<u8>) -> Option<(Seq<ReferenceParts>, u64)> {
    if b.len() < 8 || b.subrange(0, 4) != magic() || u32_at(b, 4) > MAX_COUNT {
        None
    } else {
        match parse_references(b, 8, u32_at(b, 4)) {
            None => None,
            Some((refs, q)) => if q == b.len() {
                Some((refs, 0))
            } else if q + 8 == b.len() {
                Some((refs, u64_at(b, q) as u64))
            } else {
                None
            },
        }
    }
}

/// The parts of a list of bins.
pub open spec fn bin_parts(bins: Seq<Bin>) -> Seq<BinParts> {
    bins.map_values(|x: Bin| (x.id, x.chunks@))
}

/// Whether the bins of a reference sequence's parts have distinct ids and
/// the bins of the scheme hold non-empty chunks only.
pub open spec fn parts_valid(x: ReferenceParts) -> bool {
    &&& forall|a: int, b: int| 0 <= a < b < x.0.len() ==> #[trigger] x.0[a].0 != #[trigger] x.0[b].0
    &&& forall|k: int, m: int|
        0 <= k < x.0.len() && x.0[k].0 < 37449 && 0 <= m < x.0[k].1.len() ==> #[trigger] x.0[k].1[m].valid()
}

proof fn lemma_parts_valid(bins: Seq<Bin>, l: Seq<VirtualPosition>)
    ensures
        bins_valid(bins) <==> parts_valid((bin_parts(bins), l)),
{
    let x = (bin_parts(bins), l);
    assert forall|k: int| 0 <= k < bins.len() implies #[trigger] x.0[k] == (bins[k].id, bins[k].chunks@) by {}
    if bins_valid(bins) {
        assert forall|a: int, b: int| 0 <= a < b < x.0.len() implies #[trigger] x.0[a].0 != #[trigger] x.0[b].0 by {
            assert(bins[a].id != bins[b].id);
        }
        assert forall|k: int, m: int|
            0 <= k < x.0.len() && x.0[k].0 < 37449 && 0 <= m < x.0[k].1.len() implies #[trigger] x.0[k].1[m].valid() by {
            assert(bins[k].chunks@[m].valid());
        }
    }
    if parts_valid(x) {
        assert forall|a: int, b: int| 0 <= a < b < bins.len() implies #[trigger] bins[a].id != #[trigger] bins[b].id by {
            assert(x.0[a].0 != x.0[b].0);
        }
        assert forall|k: int, m: int|
            0 <= k < bins.len() && bins[k].id < 37449 && 0 <= m < bins[k].chunks@.len() implies #[trigger] bins[k].chunks@[m].valid() by {
            assert(x.0[k].1[m].valid());
        }
    }
}


proof fn lemma_u32_at(b: Seq<u8>, p: int, x: nat)
    requires
        0 <= p,
        p + 4 <= b.len(),
        x < 0x1_0000_0000,
        b.subrange(p, p + 4) == le32_bytes(x),
    ensures
        u32_at(b, p) == x,
{
    crate::block::lemma_le32_roundtrip(x);
    let s = b.subrange(p, p + 4);
    assert(s[0] == b[p] && s[1] == b[p + 1] && s[2] == b[p + 2] && s[3] == b[p + 3]);
}

proof fn lemma_u64_at(b: Seq<u8>, p: int, x: nat)
    requires
        0 <= p,
        p + 8 <= b.len(),
        x < 0x1_0000_0000_0000_0000,
        b.subrange(p, p + 8) == le64_bytes(x),
    ensures
        u64_at(b, p) == x,
{
    let lo = x % 0x1_0000_0000;
    let hi = x / 0x1_0000_0000;
    assert(hi < 0x1_0000_0000) by (nonlinear_arith)
        requires
            x < 0x1_0000_0000_0000_0000,
            hi == x / 0x1_0000_0000,
    ;
    assert(b.subrange(p, p + 4) =~= b.subrange(p, p + 8).subrange(0, 4));
    assert(b.subrange(p + 4, p + 8) =~= b.subrange(p, p + 8).subrange(4, 8));
    assert(le64_bytes(x).subrange(0, 4) =~= le32_bytes(lo));
    assert(le64_bytes(x).subrange(4, 8) =~= le32_bytes(hi));
    lemma_u32_at(b, p, lo);
    lemma_u32_at(b, p + 4, hi);
    assert(lo + 0x1_0000_0000 * hi == x) by (nonlinear_arith)
        requires
            lo == x % 0x1_0000_0000,
            hi == x / 0x1_0000_0000,
    ;
}

proof fn lemma_chunks_bytes_front(cs: Seq<Chunk>)
    requires
        cs.len() > 0,
    ensures
        chunks_bytes(cs) == le64_bytes(cs[0].start@ as nat) + le64_bytes(cs[0].end@ as nat)
            + chunks_bytes(cs.drop_first()),
    decreases cs.len(),
{
    if cs.len() == 1 {
        assert(cs.drop_last() =~= Seq::<Chunk>::empty());
        assert(cs.drop_first() =~= Seq::<Chunk>::empty());
        assert(chunks_bytes(cs) =~= le64_bytes(cs[0].start@ as nat) + le64_bytes(cs[0].end@ as nat)
            + chunks_bytes(cs.drop_first()));
    } else {
        lemma_chunks_bytes_front(cs.drop_last());
        assert(cs.drop_last().drop_first() =~= cs.drop_first().drop_last());
        assert(cs.drop_first().last() == cs.last());
        assert(cs.drop_last()[0] == cs[0]);
        assert(chunks_bytes(cs) =~= le64_bytes(cs[0].start@ as nat) + le64_bytes(cs[0].end@ as nat)
            + chunks_bytes(cs.drop_first()));
    }
}

proof fn lemma_chunks_bytes_len(cs: Seq<Chunk>)
    ensures
        chunks_bytes(cs).len() == 16 * cs.len(),
    decreases cs.len(),
{
    if cs.len() > 0 {
        lemma_chunks_bytes_len(cs.drop_last());
    }
}

proof fn lemma_split3(b: Seq<u8>, p: int, x: Seq<u8>, y: Seq<u8>, z: Seq<u8>)
    requires
        0 <= p,
        p + x.len() + y.len() + z.len() <= b.len(),
        b.subrange(p, p + x.len() + y.len() + z.len()) == x + y + z,
    ensures
        b.subrange(p, p + x.len()) == x,
        b.subrange(p + x.len(), p + x.len() + y.len()) == y,
        b.subrange(p + x.len() + y.len(), p + x.len() + y.len() + z.len()) == z,
{
    let w = x + y + z;
    let i: int = x.len() as int;
    let j: int = i + y.len();
    let k: int = j + z.len();
    assert(b.subrange(p, p + i) =~= w.subrange(0, i));
    assert(w.subrange(0, i) =~= x);
    assert(b.subrange(p + i, p + j) =~= w.subrange(i, j));
    assert(w.subrange(i, j) =~= y);
    assert(b.subrange(p + j, p + k) =~= w.subrange(j, k));
    assert(w.subrange(j, k) =~= z);
}

proof fn lemma_le64_len(x: nat)
    ensures
        le64_bytes(x).len() == 8,
{
}

proof fn lemma_chunk_head(b: Seq<u8>, p: int, cs: Seq<Chunk>)
    requires
        0 <= p,
        cs.len() > 0,
        p + chunks_bytes(cs).len() <= b.len(),
        b.subrange(p, p + chunks_bytes(cs).len()) == chunks_bytes(cs),
    ensures
        chunks_bytes(cs).len() == 16 + chunks_bytes(cs.drop_first()).len(),
        u64_at(b, p) == cs[0].start@,
        u64_at(b, p + 8) == cs[0].end@,
        b.subrange(p + 16, p + 16 + chunks_bytes(cs.drop_first()).len()) == chunks_bytes(cs.drop_first()),
{
    lemma_chunks_bytes_front(cs);
    let x = le64_bytes(cs[0].start@ as nat);
    let y = le64_bytes(cs[0].end@ as nat);
    let z = chunks_bytes(cs.drop_first());
    lemma_le64_len(cs[0].start@ as nat);
    lemma_le64_len(cs[0].end@ as nat);
    lemma_split3(b, p, x, y, z);
    lemma_u64_at(b, p, cs[0].start@ as nat);
    lemma_u64_at(b, p + 8, cs[0].end@ as nat);
}

proof fn lemma_parse_chunks(b: Seq<u8>, p: int, cs: Seq<Chunk>)
    requires
        0 <= p,
        p + chunks_bytes(cs).len() <= b.len(),
        b.subrange(p, p + chunks_bytes(cs).len()) == chunks_bytes(cs),
    ensures
        parse_chunks(b, p, cs.len()) == Some((cs, p + chunks_bytes(cs).len())),
    decreases cs.len(),
{
    if cs.len() == 0 {
        assert(cs =~= Seq::<Chunk>::empty());
    } else {
        let rest = cs.drop_first();
        lemma_chunk_head(b, p, cs);
        lemma_parse_chunks(b, p + 16, rest);
        let c = Chunk {
            start: VirtualPosition(u64_at(b, p) as u64),
            end: VirtualPosition(u64_at(b, p + 8) as u64),
        };
        assert(c == cs[0]);
        assert(seq![c] + rest =~= cs);
    }
}

proof fn lemma_split2(b: Seq<u8>, p: int, x: Seq<u8>, y: Seq<u8>)
    requires
        0 <= p,
        p + x.len() + y.len() <= b.len(),
        b.subrange(p, p + x.len() + y.len()) == x + y,
    ensures
        b.subrange(p, p + x.len()) == x,
        b.subrange(p + x.len(), p + x.len() + y.len()) == y,
{
    let w = x + y;
    let i: int = x.len() as int;
    let j: int = i + y.len();
    assert(b.subrange(p, p + i) =~= w.subrange(0, i));
    assert(w.subrange(0, i) =~= x);
    assert(b.subrange(p + i, p + j) =~= w.subrange(i, j));
    assert(w.subrange(i, j) =~= y);
}

proof fn lemma_bins_bytes_front(bs: Seq<Bin>)
    requires
        bs.len() > 0,
    ensures
        bins_bytes(bs) == bin_bytes(bs[0]) + bins_bytes(bs.drop_first()),
    decreases bs.len(),
{
    if bs.len() == 1 {
        assert(bs.drop_last() =~= Seq::<Bin>::empty());
        assert(bs.drop_first() =~= Seq::<Bin>::empty());
        assert(bins_bytes(bs) =~= bin_bytes(bs[0]) + bins_bytes(bs.drop_first()));
    } else {
        lemma_bins_bytes_front(bs.drop_last());
        assert(bs.drop_last().drop_first() =~= bs.drop_first().drop_last());
        assert(bs.drop_first().last() == bs.last());
        assert(bs.drop_last()[0] == bs[0]);
        assert(bins_bytes(bs) =~= bin_bytes(bs[0]) + bins_bytes(bs.drop_first()));
    }
}

proof fn lemma_parse_bins(b: Seq<u8>, p: int, bs: Seq<Bin>)
    requires
        0 <= p,
        p + bins_bytes(bs).len() <= b.len(),
        b.subrange(p, p + bins_bytes(bs).len()) == bins_bytes(bs),
        forall|k: int| 0 <= k < bs.len() ==> #[trigger] bs[k].chunks@.len() <= MAX_COUNT,
    ensures
        parse_bins(b, p, bs.len()) == Some((bin_parts(bs), p + bins_bytes(bs).len())),
    decreases bs.len(),
{
    if bs.len() == 0 {
        assert(bin_parts(bs) =~= Seq::<BinParts>::empty());
    } else {
        let rest = bs.drop_first();
        let x = bs[0];
        lemma_bins_bytes_front(bs);
        lemma_split2(b, p, bin_bytes(x), bins_bytes(rest));
        let n = x.chunks@.len();
        assert(bs[0].chunks@.len() <= MAX_COUNT);
        crate::block::lemma_le32_roundtrip(x.id as nat);
        lemma_split3(b, p, le32_bytes(x.id as nat), le32_bytes(n), chunks_bytes(x.chunks@));
        lemma_u32_at(b, p, x.id as nat);
        lemma_u32_at(b, p + 4, n);
        lemma_parse_chunks(b, p + 8, x.chunks@);
        assert forall|k: int| 0 <= k < rest.len() implies #[trigger] rest[k].chunks@.len() <= MAX_COUNT by {
            assert(rest[k] == bs[k + 1]);
        }
        lemma_parse_bins(b, p + bin_bytes(x).len(), rest);
        assert(bin_parts(bs) =~= seq![(x.id, x.chunks@)] + bin_parts(rest));
    }
}

proof fn lemma_linear_bytes_front(l: Seq<VirtualPosition>)
    requires
        l.len() > 0,
    ensures
        linear_bytes(l) == le64_bytes(l[0]@ as nat) + linear_bytes(l.drop_first()),
    decreases l.len(),
{
    if l.len() == 1 {
        assert(l.drop_last() =~= Seq::<VirtualPosition>::empty());
        assert(l.drop_first() =~= Seq::<VirtualPosition>::empty());
        assert(linear_bytes(l) =~= le64_bytes(l[0]@ as nat) + linear_bytes(l.drop_first()));
    } else {
        lemma_linear_bytes_front(l.drop_last());
        assert(l.drop_last().drop_first() =~= l.drop_first().drop_last());
        assert(l.drop_first().last() == l.last());
        assert(l.drop_last()[0] == l[0]);
        assert(linear_bytes(l) =~= le64_bytes(l[0]@ as nat) + linear_bytes(l.drop_first()));
    }
}

proof fn lemma_parse_linear(b: Seq<u8>, p: int, l: Seq<VirtualPosition>)
    requires
        0 <= p,
        p + linear_bytes(l).len() <= b.len(),
        b.subrange(p, p + linear_bytes(l).len()) == linear_bytes(l),
    ensures
        parse_linear(b, p, l.len()) == Some((l, p + linear_bytes(l).len())),
    decreases l.len(),
{
    if l.len() == 0 {
        assert(l =~= Seq::<VirtualPosition>::empty());
    } else {
        let rest = l.drop_first();
        lemma_linear_bytes_front(l);
        lemma_le64_len(l[0]@ as nat);
        lemma_split2(b, p, le64_bytes(l[0]@ as nat), linear_bytes(rest));
        lemma_u64_at(b, p, l[0]@ as nat);
        lemma_parse_linear(b, p + 8, rest);
        assert(VirtualPosition(u64_at(b, p) as u64) == l[0]);
        assert(seq![l[0]] + rest =~= l);
    }
}

/// The parts of a reference sequence's index.
pub open spec fn reference_parts(r: ReferenceIndex) -> ReferenceParts {
    (bin_parts(r.bins_view()), r.linear_view())
}

proof fn lemma_parse_reference(b: Seq<u8>, p: int, r: ReferenceIndex)
    requires
        0 <= p,
        reference_fits(r),
        p + reference_bytes(r).len() <= b.len(),
        b.subrange(p, p + reference_bytes(r).len()) == reference_bytes(r),
    ensures
        parse_reference(b, p) == Some((reference_parts(r), p + reference_bytes(r).len())),
{
    let nb = r.bins_view().len();
    let nl = r.linear_view().len();
    let x = le32_bytes(nb) + bins_bytes(r.bins_view());
    let y = le32_bytes(nl) + linear_bytes(r.linear_view());
    assert(reference_bytes(r) =~= x + y);
    lemma_split2(b, p, x, y);
    lemma_split2(b, p, le32_bytes(nb), bins_bytes(r.bins_view()));
    lemma_split2(b, p + x.len(), le32_bytes(nl), linear_bytes(r.linear_view()));
    lemma_u32_at(b, p, nb);
    lemma_u32_at(b, p + x.len(), nl);
    lemma_parse_bins(b, p + 4, r.bins_view());
    lemma_parse_linear(b, p + x.len() + 4, r.linear_view());
}

proof fn lemma_references_bytes_front(rs: Seq<ReferenceIndex>)
    requires
        rs.len() > 0,
    ensures
        references_bytes(rs) == reference_bytes(rs[0]) + references_bytes(rs.drop_first()),
    decreases rs.len(),
{
    if rs.len() == 1 {
        assert(rs.drop_last() =~= Seq::<ReferenceIndex>::empty());
        assert(rs.drop_first() =~= Seq::<ReferenceIndex>::empty());
        assert(references_bytes(rs) =~= reference_bytes(rs[0]) + references_bytes(rs.drop_first()));
    } else {
        lemma_references_bytes_front(rs.drop_last());
        assert(rs.drop_last().drop_first() =~= rs.drop_first().drop_last());
        assert(rs.drop_first().last() == rs.last());
        assert(rs.drop_last()[0] == rs[0]);
        assert(references_bytes(rs) =~= reference_bytes(rs[0]) + references_bytes(rs.drop_first()));
    }
}

proof fn lemma_parse_references(b: Seq<u8>, p: int, rs: Seq<ReferenceIndex>)
    requires
        0 <= p,
        p + references_bytes(rs).len() <= b.len(),
        b.subrange(p, p + references_bytes(rs).len()) == references_bytes(rs),
        forall|i: int| 0 <= i < rs.len() ==> #[trigger] reference_fits(rs[i]),
    ensures
        parse_references(b, p, rs.len()) == Some((rs.map_values(|r: ReferenceIndex| reference_parts(r)), p + references_bytes(rs).len())),
    decreases rs.len(),
{
    if rs.len() == 0 {
        assert(rs.map_values(|r: ReferenceIndex| reference_parts(r)) =~= Seq::<ReferenceParts>::empty());
    } else {
        let rest = rs.drop_first();
        lemma_references_bytes_front(rs);
        lemma_split2(b, p, reference_bytes(rs[0]), references_bytes(rest));
        assert(reference_fits(rs[0]));
        lemma_parse_reference(b, p, rs[0]);
        assert forall|i: int| 0 <= i < rest.len() implies #[trigger] reference_fits(rest[i]) by {
            assert(rest[i] == rs[i + 1]);
        }
        lemma_parse_references(b, p + reference_bytes(rs[0]).len(), rest);
        assert(rs.map_values(|r: ReferenceIndex| reference_parts(r)) =~= seq![reference_parts(rs[0])]
            + rest.map_values(|r: ReferenceIndex| reference_parts(r)));
    }
}

/// Reading the encoding of an index whose counts fit their fields gives back
/// its reference sequences' bins and linear indices and its count of records
/// placed on no reference sequence.
pub proof fn lemma_read_written(ix: Index)
    requires
        index_fits(ix),
    ensures
        parse_index(index_bytes(ix)) == Some((
            ix.references_view().map_values(|r: ReferenceIndex| reference_parts(r)),
            ix.unplaced_view(),
        )),
{
    let b = index_bytes(ix);
    let rs = ix.references_view();
    let n = rs.len();
    let body = references_bytes(rs);
    let tail = le64_bytes(ix.unplaced_view() as nat);
    lemma_le64_len(ix.unplaced_view() as nat);
    assert(b =~= magic() + le32_bytes(n) + body + tail);
    assert(b.subrange(0, b.len() as int) =~= b);
    lemma_split3(b, 0, magic() + le32_bytes(n), body, tail);
    lemma_split2(b, 0, magic(), le32_bytes(n));
    lemma_u32_at(b, 4, n);
    lemma_parse_references(b, 8, rs);
    lemma_u64_at(b, 8 + body.len() as int, ix.unplaced_view() as nat);
}

/// Why an index file could not be read.
#[derive(Clone, Copy, Debug, PartialEq, Eq, Structural)]
pub enum ReadIndexError {
    /// The bytes do not follow the layout.
    Malformed,
    /// A reference sequence's bins repeat an id or hold an empty chunk.
    InvalidBins,
}

fn read_u32(b: &[u8], p: usize) -> (r: Option<u32>)
    ensures
        p + 4 <= b@.len() ==> r == Some(u32_at(b@, p as int) as u32) && u32_at(b@, p as int) <= u32::MAX,
        p + 4 > b@.len() ==> r is None,
{
    if p > b.len() || b.len() - p < 4 {
        return None;
    }
    Some(b[p] as u32 + 256 * (b[p + 1] as u32) + 65536 * (b[p + 2] as u32) + 16777216 * (b[p + 3] as u32))
}

fn read_u64(b: &[u8], p: usize) -> (r: Option<u64>)
    ensures
        p + 8 <= b@.len() ==> r == Some(u64_at(b@, p as int) as u64) && u64_at(b@, p as int) <= u64::MAX,
        p + 8 > b@.len() ==> r is None,
{
    if p > b.len() || b.len() - p < 8 {
        return None;
    }
    let lo = read_u32(b, p).unwrap() as u64;
    let hi = read_u32(b, p + 4).unwrap() as u64;
    Some(lo + 0x1_0000_0000 * hi)
}

fn read_chunks(b: &[u8], p: usize, n: u32) -> (r: Option<(Vec<Chunk>, usize)>)
    ensures
        match parse_chunks(b@, p as int, n as nat) {
            None => r is None,
            Some((cs, q)) => r matches Some((v, q2)) && v@ == cs && q2 == q,
        },
{
    let mut out: Vec<Chunk> = Vec::new();
    let mut pos = p;
    let mut i: u32 = 0;
    proof {
        match parse_chunks(b@, p as int, n as nat) {
            Some((cs, q)) => assert(Seq::<Chunk>::empty() + cs =~= cs),
            None => {},
        }
    }
    while i < n
        invariant
            i <= n,
            parse_chunks(b@, p as int, n as nat) == (match parse_chunks(b@, pos as int, (n - i) as nat) {
                None => None,
                Some((rest, q)) => Some((out@ + rest, q)),
            }),
        decreases n - i,
    {
        let len = b.len();
        let s = match read_u64(b, pos) {
            Some(x) => x,
            None => return None,
        };
        let e = match read_u64(b, pos + 8) {
            Some(x) => x,
            None => return None,
        };
        let c = Chunk { start: VirtualPosition(s), end: VirtualPosition(e) };
        let ghost prev = out@;
        out.push(c);
        proof {
            match parse_chunks(b@, pos + 16, (n - i - 1) as nat) {
                Some((rest, q)) => assert(prev + (seq![c] + rest) =~= out@ + rest),
                None => {},
            }
        }
        pos = pos + 16;
        i = i + 1;
    }
    proof {
        assert(out@ + Seq::<Chunk>::empty() =~= out@);
    }
    Some((out, pos))
}

fn read_bins(b: &[u8], p: usize, n: u32) -> (r: Option<(Vec<Bin>, usize)>)
    ensures
        match parse_bins(b@, p as int, n as nat) {
            None => r is None,
            Some((bs, q)) => r matches Some((v, q2)) && bin_parts(v@) == bs && q2 == q,
        },
{
    let mut out: Vec<Bin> = Vec::new();
    let mut pos = p;
    let mut i: u32 = 0;
    proof {
        match parse_bins(b@, p as int, n as nat) {
            Some((bs, q)) => {
                assert(bin_parts(out@) =~= Seq::<BinParts>::empty());
                assert(Seq::<BinParts>::empty() + bs =~= bs);
            },
            None => {},
        }
    }
    while i < n
        invariant
            i <= n,
            parse_bins(b@, p as int, n as nat) == (match parse_bins(b@, pos as int, (n - i) as nat) {
                None => None,
                Some((rest, q)) => Some((bin_parts(out@) + rest, q)),
            }),
        decreases n - i,
    {
        let len = b.len();
        let id = match read_u32(b, pos) {
            Some(x) => x,
            None => return None,
        };
        let k = match read_u32(b, pos + 4) {
            Some(x) => x,
            None => return None,
        };
        if k as usize > MAX_COUNT {
            return None;
        }
        let (chunks, q) = match read_chunks(b, pos + 8, k) {
            Some(x) => x,
            None => return None,
        };
        let ghost prev = bin_parts(out@);
        let ghost cs = chunks@;
        out.push(Bin { id, chunks });
        proof {
            assert(bin_parts(out@) =~= prev.push((id, cs)));
            match parse_bins(b@, q as int, (n - i - 1) as nat) {
                Some((rest, r)) => assert(prev + (seq![(id, cs)] + rest) =~= prev.push((id, cs)) + rest),
                None => {},
            }
        }
        pos = q;
        i = i + 1;
    }
    proof {
        assert(bin_parts(out@) + Seq::<BinParts>::empty() =~= bin_parts(out@));
    }
    Some((out, pos))
}

fn read_linear(b: &[u8], p: usize, n: u32) -> (r: Option<(Vec<VirtualPosition>, usize)>)
    ensures
        match parse_linear(b@, p as int, n as nat) {
            None => r is None,
            Some((l, q)) => r matches Some((v, q2)) && v@ == l && q2 == q,
        },
{
    let mut out: Vec<VirtualPosition> = Vec::new();
    let mut pos = p;
    let mut i: u32 = 0;
    proof {
        match parse_linear(b@, p as int, n as nat) {
            Some((l, q)) => assert(Seq::<VirtualPosition>::empty() + l =~= l),
            None => {},
        }
    }
    while i < n
        invariant
            i <= n,
            parse_linear(b@, p as int, n as nat) == (match parse_linear(b@, pos as int, (n - i) as nat) {
                None => None,
                Some((rest, q)) => Some((out@ + rest, q)),
            }),
        decreases n - i,
    {
        let len = b.len();
        let v = match read_u64(b, pos) {
            Some(x) => x,
            None => return None,
        };
        let ghost prev = out@;
        out.push(VirtualPosition(v));
        proof {
            match parse_linear(b@, pos + 8, (n - i - 1) as nat) {
                Some((rest, q)) => assert(prev + (seq![VirtualPosition(v)] + rest) =~= out@ + rest),
                None => {},
            }
        }
        pos = pos + 8;
        i = i + 1;
    }
    proof {
        assert(out@ + Seq::<VirtualPosition>::empty() =~= out@);
    }
    Some((out, pos))
}

fn read_reference(b: &[u8], p: usize) -> (r: Option<((Vec<Bin>, Vec<VirtualPosition>), usize)>)
    ensures
        match parse_reference(b@, p as int) {
            None => r is None,
            Some(((bs, l), q)) => r matches Some(((vb, vl), q2)) && bin_parts(vb@) == bs && vl@ == l
                && q2 == q,
        },
{
    let len = b.len();
    let nb = match read_u32(b, p) {
        Some(x) => x,
        None => return None,
    };
    if nb as usize > MAX_COUNT {
        return None;
    }
    let (bins, q) = match read_bins(b, p + 4, nb) {
        Some(x) => x,
        None => return None,
    };
    let nl = match read_u32(b, q) {
        Some(x) => x,
        None => return None,
    };
    if nl as usize > MAX_COUNT {
        return None;
    }
    let (linear, r) = match read_linear(b, q + 4, nl) {
        Some(x) => x,
        None => return None,
    };
    Some(((bins, linear), r))
}

/// Reads an index file in the `BAI` layout.
///
/// Fails with `Malformed` where the bytes do not follow the layout, and with
/// `InvalidBins` where a reference sequence's bins repeat an id or a bin of
/// the scheme holds an empty chunk. The index read encodes back to the same
/// bytes, but for an absent count of records placed on no reference
/// sequence, which reads as 0.
pub fn read_index(b: &[u8]) -> (r: Result<Index, ReadIndexError>)
    ensures
        match parse_index(b@) {
            None => r == Err::<Index, ReadIndexError>(ReadIndexError::Malformed),
            Some((refs, unplaced)) => if forall|i: int|
                0 <= i < refs.len() ==> #[trigger] parts_valid(refs[i]) {
                r matches Ok(ix) && ix.wf() && ix.unplaced_view() == unplaced
                    && ix.references_view().len() == refs.len() && forall|i: int|
                    0 <= i < refs.len() ==> {
                        let x = #[trigger] ix.references_view()[i];
                        &&& bin_parts(x.bins_view()) == refs[i].0
                        &&& x.linear_view() == refs[i].1
                        &&& !x.is_built()
                    }
            } else {
                r == Err::<Index, ReadIndexError>(ReadIndexError::InvalidBins)
            },
        },
{
    let len = b.len();
    if len < 8 || !(b[0] == 0x42 && b[1] == 0x41 && b[2] == 0x49 && b[3] == 0x01) {
        proof {
            if len >= 8 {
                assert(b@.subrange(0, 4) != magic()) by {
                    if b@.subrange(0, 4) == magic() {
                        assert(b@.subrange(0, 4)[0] == b@[0]);
                        assert(b@.subrange(0, 4)[1] == b@[1]);
                        assert(b@.subrange(0, 4)[2] == b@[2]);
                        assert(b@.subrange(0, 4)[3] == b@[3]);
                    }
                }
            }
        }
        return Err(ReadIndexError::Malformed);
    }
    proof {
        assert(b@.subrange(0, 4) =~= magic());
    }
    let n = read_u32(b, 4).unwrap();
    if n as usize > MAX_COUNT {
        return Err(ReadIndexError::Malformed);
    }
    let mut parts: Vec<(Vec<Bin>, Vec<VirtualPosition>)> = Vec::new();
    let mut pos: usize = 8;
    let mut i: u32 = 0;
    let ghost view = |x: (Vec<Bin>, Vec<VirtualPosition>)| (bin_parts(x.0@), x.1@);
    proof {
        match parse_references(b@, 8, n as nat) {
            Some((rs, q)) => {
                assert(parts@.map_values(view) =~= Seq::<ReferenceParts>::empty());
                assert(Seq::<ReferenceParts>::empty() + rs =~= rs);
            },
            None => {},
        }
    }
    while i < n
        invariant
            i <= n,
            parts@.len() == i,
            n == u32_at(b@, 4),
            view == (|x: (Vec<Bin>, Vec<VirtualPosition>)| (bin_parts(x.0@), x.1@)),
            parse_references(b@, 8, n as nat) == (match parse_references(b@, pos as int, (n - i) as nat) {
                None => None,
                Some((rest, q)) => Some((parts@.map_values(view) + rest, q)),
            }),
        decreases n - i,
    {
        let (x, q) = match read_reference(b, pos) {
            Some(y) => y,
            None => return Err(ReadIndexError::Malformed),
        };
        let ghost prev = parts@.map_values(view);
        let ghost xv = view(x);
        parts.push(x);
        proof {
            assert(parts@.map_values(view) =~= prev.push(xv));
            match parse_references(b@, q as int, (n - i - 1) as nat) {
                Some((rest, r)) => assert(prev + (seq![xv] + rest) =~= prev.push(xv) + rest),
                None => {},
            }
        }
        pos = q;
        i = i + 1;
    }
    proof {
        assert(parts@.map_values(view) + Seq::<ReferenceParts>::empty() =~= parts@.map_values(view));
        assert(parse_references(b@, 8, n as nat) == Some((parts@.map_values(view), pos as int)));
    }
    let unplaced = if pos == len {
        0
    } else if pos <= len && len - pos == 8 {
        read_u64(b, pos).unwrap()
    } else {
        return Err(ReadIndexError::Malformed);
    };
    let ghost refs = parts@.map_values(view);
    proof {
        assert(parse_index(b@) == Some((refs, unplaced)));
    }
    let mut references: Vec<ReferenceIndex> = Vec::new();
    let mut k: usize = 0;
    let ghost all_parts = parts@;
    while parts.len() > 0
        invariant
            k + parts@.len() == all_parts.len(),
            all_parts.len() == n,
            parse_index(b@) == Some((refs, unplaced)),
            refs == all_parts.map_values(view),
            view == (|x: (Vec<Bin>, Vec<VirtualPosition>)| (bin_parts(x.0@), x.1@)),
            parts@ == all_parts.subrange(k as int, all_parts.len() as int),
            references@.len() == k,
            forall|j: int| 0 <= j < k ==> #[trigger] parts_valid(refs[j]),
            forall|j: int| 0 <= j < k ==> #[trigger] references@[j].wf(),
            forall|j: int|
                0 <= j < k ==> {
                    let x = #[trigger] references@[j];
                    &&& bin_parts(x.bins_view()) == refs[j].0
                    &&& x.linear_view() == refs[j].1
                    &&& !x.is_built()
                },
        decreases parts@.len(),
    {
        let (bins, linear) = parts.remove(0);
        proof {
            assert(all_parts[k as int] == (bins, linear));
            assert(refs[k as int] == (bin_parts(bins@), linear@));
            lemma_parts_valid(bins@, linear@);
        }
        match ReferenceIndex::from_parts(bins, linear) {
            Ok(x) => {
                references.push(x);
                proof {
                    assert(parts_valid(refs[k as int]));
                    assert(parts@ =~= all_parts.subrange(k + 1, all_parts.len() as int));
                }
            },
            Err(_) => {
                proof {
                    assert(!parts_valid(refs[k as int]));
                    assert(k < refs.len());
                    assert(!(forall|j: int| 0 <= j < refs.len() ==> #[trigger] parts_valid(refs[j])));
                    assert(parse_index(b@)->Some_0.0 == refs);
                }
                return Err(ReadIndexError::InvalidBins);
            },
        }
        k = k + 1;
    }
    Ok(Index::from_parts(references, unplaced))
}

} // verus!
