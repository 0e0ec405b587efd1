//! Virtual positions: a compressed block offset and an offset into that block's
//! decompressed content, packed into one 64-bit value.

use vstd::prelude::*;

verus! {

/// Number of low bits that hold the offset within a decompressed block.
pub const UNCOMPRESSED_BITS: u64 = 16;

/// Largest compressed block offset a virtual position can hold (48 bits).
pub const MAX_COMPRESSED: u64 = 0xffff_ffff_ffff;

/// Largest offset within a decompressed block (16 bits).
pub const MAX_UNCOMPRESSED: u64 = 0xffff;

/// The compressed part of a packed position: its upper 48 bits.
pub open spec fn compressed_of(v: u64) -> u64 {
    v / 0x1_0000
}

/// The uncompressed part of a packed position: its lower 16 bits.
pub open spec fn uncompressed_of(v: u64) -> u64 {
    v % 0x1_0000
}

/// The packed value of a (compressed, uncompressed) pair.
pub open spec fn compose(compressed: u64, uncompressed: u64) -> int {
    compressed * 0x1_0000 + uncompressed
}

/// A position in a block-compressed stream.
///
/// Positions compare as plain 64-bit integers, which orders them by block
/// first and by offset within the block second.
#[derive(Clone, Copy, Debug, PartialEq, Eq, Structural, PartialOrd, Ord, Hash)]
pub struct VirtualPosition(pub u64);

impl View for VirtualPosition {
    type V = u64;

    open spec fn view(&self) -> u64 {
        self.0
    }
}

impl VirtualPosition {
    /// The offset of the block's first byte in the compressed stream.
    pub fn compressed(&self) -> (r: u64)
        ensures
            r == compressed_of(self@),
            r <= MAX_COMPRESSED,
    {
        let v = self.0;
        let r = v >> 16u64;
        assert(v >> 16u64 == v / 0x1_0000) by (bit_vector);
        assert(v >> 16u64 <= 0xffff_ffff_ffffu64) by (bit_vector);
        r
    }

    /// The offset within the block's decompressed content.
    pub fn uncompressed(&self) -> (r: u64)
        ensures
            r == uncompressed_of(self@),
            r <= MAX_UNCOMPRESSED,
    {
        let v = self.0;
        let r = v & 0xffffu64;
        assert(v & 0xffffu64 == v % 0x1_0000) by (bit_vector);
        r
    }

    /// Packs a compressed block offset and an in-block offset.
    ///
    /// Returns `None` when either part does not fit its field.
    pub fn new(compressed: u64, uncompressed: u64) -> (r: Option<VirtualPosition>)
        ensures
            r is Some <==> compressed <= MAX_COMPRESSED && uncompressed <= MAX_UNCOMPRESSED,
            r matches Some(p) ==> p@ == compose(compressed, uncompressed)
                && compressed_of(p@) == compressed && uncompressed_of(p@) == uncompressed,
    {
        if compressed <= MAX_COMPRESSED && uncompressed <= MAX_UNCOMPRESSED {
            let v = (compressed << 16u64) | uncompressed;
            assert((compressed << 16u64) | uncompressed == compressed * 0x1_0000 + uncompressed)
                by (bit_vector)
                requires
                    compressed <= 0xffff_ffff_ffffu64,
                    uncompressed <= 0xffffu64,
            ;
            proof {
                lemma_decompose_compose(compressed, uncompressed);
            }
            Some(VirtualPosition(v))
        } else {
            None
        }
    }

    /// The packed 64-bit value.
    pub fn get(&self) -> (r: u64)
        ensures
            r == self@,
    {
        self.0
    }
}

impl From<u64> for VirtualPosition {
    fn from(pos: u64) -> (r: VirtualPosition)
        ensures
            r@ == pos,
    {
        VirtualPosition(pos)
    }
}

impl vstd::std_specs::convert::FromSpecImpl<u64> for VirtualPosition {
    open spec fn obeys_from_spec() -> bool {
        true
    }

    open spec fn from_spec(v: u64) -> VirtualPosition {
        VirtualPosition(v)
    }
}

impl From<VirtualPosition> for u64 {
    fn from(pos: VirtualPosition) -> (r: u64)
        ensures
            r == pos@,
    {
        pos.0
    }
}

impl vstd::std_specs::convert::FromSpecImpl<VirtualPosition> for u64 {
    open spec fn obeys_from_spec() -> bool {
        true
    }

    open spec fn from_spec(v: VirtualPosition) -> u64 {
        v.0
    }
}

/// Splitting a packed value into its two parts and packing them again gives
/// back the same value, for every 64-bit value.
pub proof fn lemma_compose_decompose(v: u64)
    ensures
        compose(compressed_of(v), uncompressed_of(v)) == v,
        compressed_of(v) <= MAX_COMPRESSED,
        uncompressed_of(v) <= MAX_UNCOMPRESSED,
{
    assert(v / 0x1_0000 * 0x1_0000 + v % 0x1_0000 == v) by (nonlinear_arith);
    assert(v / 0x1_0000 <= 0xffff_ffff_ffff) by (nonlinear_arith);
}

/// Packing two parts that fit their fields and splitting the result gives
/// back the same parts.
pub proof fn lemma_decompose_compose(compressed: u64, uncompressed: u64)
    requires
        compressed <= MAX_COMPRESSED,
        uncompressed <= MAX_UNCOMPRESSED,
    ensures
        compose(compressed, uncompressed) <= u64::MAX,
        compressed_of(compose(compressed, uncompressed) as u64) == compressed,
        uncompressed_of(compose(compressed, uncompressed) as u64) == uncompressed,
{
    let v = compressed * 0x1_0000 + uncompressed;
    assert(v <= u64::MAX) by (nonlinear_arith)
        requires
            compressed <= 0xffff_ffff_ffffu64,
            uncompressed <= 0xffffu64,
            v == compressed * 0x1_0000 + uncompressed,
    ;
    vstd::arithmetic::div_mod::lemma_fundamental_div_mod_converse(
        v,
        0x1_0000,
        compressed as int,
        uncompressed as int,
    );
}

} // verus!
