//! The hierarchical binning scheme: six levels of bins, each level eight times
//! finer than the one above it, from one bin for a whole reference sequence
//! down to bins of 16384 positions.

use vstd::prelude::*;

verus! {

/// Positions are 0-based and lie below this bound.
pub const MAX_POSITION: u64 = 536870912;

/// Width of a linear-index tile, the width of the finest bins.
pub const TILE_WIDTH: u64 = 16384;

/// Number of bin levels.
pub const LEVELS: usize = 6;

/// Width of the bins at level `l`.
pub open spec fn level_width(l: int) -> nat {
    if l == 0 {
        536870912
    } else if l == 1 {
        67108864
    } else if l == 2 {
        8388608
    } else if l == 3 {
        1048576
    } else if l == 4 {
        131072
    } else {
        16384
    }
}

/// Id of the first bin at level `l`.
pub open spec fn level_offset(l: int) -> nat {
    if l == 0 {
        0
    } else if l == 1 {
        1
    } else if l == 2 {
        9
    } else if l == 3 {
        73
    } else if l == 4 {
        585
    } else {
        4681
    }
}

/// Whether `[beg, end)` lies within one bin of level `l`.
pub open spec fn fits_level(beg: nat, end: nat, l: int) -> bool {
    beg / level_width(l) == (end - 1) as nat / level_width(l)
}

/// The finest level with a bin that holds all of `[beg, end)`.
pub open spec fn bin_level(beg: nat, end: nat) -> int {
    if fits_level(beg, end, 5) {
        5
    } else if fits_level(beg, end, 4) {
        4
    } else if fits_level(beg, end, 3) {
        3
    } else if fits_level(beg, end, 2) {
        2
    } else if fits_level(beg, end, 1) {
        1
    } else {
        0
    }
}

/// The smallest bin that holds all of `[beg, end)`.
pub open spec fn bin_for(beg: nat, end: nat) -> nat {
    level_offset(bin_level(beg, end)) + beg / level_width(bin_level(beg, end))
}

/// Whether bin `id` is one of the level-`l` bins that overlap `[a, b)`.
pub open spec fn candidate_at(id: nat, a: nat, b: nat, l: int) -> bool {
    level_offset(l) + a / level_width(l) <= id <= level_offset(l) + (b - 1) as nat / level_width(
        l,
    )
}

/// Whether bin `id` overlaps `[a, b)`, at any level.
pub open spec fn is_candidate(id: nat, a: nat, b: nat) -> bool {
    ||| candidate_at(id, a, b, 0)
    ||| candidate_at(id, a, b, 1)
    ||| candidate_at(id, a, b, 2)
    ||| candidate_at(id, a, b, 3)
    ||| candidate_at(id, a, b, 4)
    ||| candidate_at(id, a, b, 5)
}

/// Whether the intervals `[beg, end)` and `[a, b)` share a position.
pub open spec fn intersects(beg: nat, end: nat, a: nat, b: nat) -> bool {
    beg < end && a < b && beg < b && a < end
}

/// The smallest bin holding an interval is a candidate bin of every region
/// the interval intersects.
pub proof fn lemma_bin_is_candidate(beg: nat, end: nat, a: nat, b: nat)
    requires
        beg < end <= MAX_POSITION,
        a < b,
        intersects(beg, end, a, b),
    ensures
        is_candidate(bin_for(beg, end), a, b),
{
    let l = bin_level(beg, end);
    let w = level_width(l) as int;
    vstd::arithmetic::div_mod::lemma_div_is_ordered(a as int, end - 1, w);
    vstd::arithmetic::div_mod::lemma_div_is_ordered(beg as int, b - 1, w);
    if l == 0 {
        vstd::arithmetic::div_mod::lemma_div_is_ordered(beg as int, end - 1, w);
        vstd::arithmetic::div_mod::lemma_basic_div(end - 1, w);
        vstd::arithmetic::div_mod::lemma_basic_div(beg as int, w);
    }
    assert(candidate_at(bin_for(beg, end), a, b, l));
}

/// Every bin that overlaps a region is a bin of the scheme.
pub proof fn lemma_candidate_below(id: nat, a: nat, b: nat)
    requires
        a < b <= MAX_POSITION,
        is_candidate(id, a, b),
    ensures
        id < 37449,
{
    lemma_ids_bounded((b - 1) as nat, 0);
    lemma_ids_bounded((b - 1) as nat, 1);
    lemma_ids_bounded((b - 1) as nat, 2);
    lemma_ids_bounded((b - 1) as nat, 3);
    lemma_ids_bounded((b - 1) as nat, 4);
    lemma_ids_bounded((b - 1) as nat, 5);
}

/// The width and first bin id of level `l`.
fn level(l: usize) -> (r: (u64, u64))
    requires
        l < LEVELS,
    ensures
        r.0 == level_width(l as int),
        r.1 == level_offset(l as int),
{
    if l == 0 {
        (536870912, 0)
    } else if l == 1 {
        (67108864, 1)
    } else if l == 2 {
        (8388608, 9)
    } else if l == 3 {
        (1048576, 73)
    } else if l == 4 {
        (131072, 585)
    } else {
        (16384, 4681)
    }
}

proof fn lemma_ids_bounded(x: nat, l: int)
    requires
        0 <= l < 6,
        x < MAX_POSITION,
    ensures
        level_offset(l) + x / level_width(l) < 37449,
{
    vstd::arithmetic::div_mod::lemma_div_is_ordered(x as int, MAX_POSITION - 1, level_width(l) as int);
}

/// Pushing onto a sequence keeps what it contained and adds the new value.
pub(crate) proof fn lemma_push_keeps<T>(s: Seq<T>, v: T)
    ensures
        forall|x: T| s.contains(x) ==> s.push(v).contains(x),
        s.push(v).contains(v),
{
    assert forall|x: T| s.contains(x) implies s.push(v).contains(x) by {
        let j = choose|j: int| 0 <= j < s.len() && s[j] == x;
        assert(s.push(v)[j] == x);
    }
    assert(s.push(v)[s.len() as int] == v);
}

/// The id of the smallest bin that holds all of `[beg, end)`.
pub fn region_to_bin(beg: u64, end: u64) -> (r: u32)
    requires
        beg < end <= MAX_POSITION,
    ensures
        r == bin_for(beg as nat, end as nat),
        r < 37449,
{
    let mut l: usize = 5;
    loop
        invariant
            l < LEVELS,
            beg < end <= MAX_POSITION,
            forall|k: int| l < k < 6 ==> !fits_level(beg as nat, end as nat, k),
        decreases l,
    {
        let (w, off) = level(l);
        if l == 0 || beg / w == (end - 1) / w {
            proof {
                lemma_ids_bounded(beg as nat, l as int);
                if l == 0 {
                    vstd::arithmetic::div_mod::lemma_div_is_ordered(
                        beg as int,
                        end - 1,
                        536870912,
                    );
                    vstd::arithmetic::div_mod::lemma_basic_div(end - 1, 536870912);
                    vstd::arithmetic::div_mod::lemma_basic_div(beg as int, 536870912);
                }
            }
            return (off + beg / w) as u32;
        }
        l = l - 1;
    }
}

/// The ids of all bins that overlap `[a, b)`, level by level from the
/// coarsest; each id occurs once.
pub fn region_to_bins(a: u64, b: u64) -> (r: Vec<u32>)
    requires
        a < b <= MAX_POSITION,
    ensures
        forall|i: int| 0 <= i < r@.len() ==> is_candidate(r@[i] as nat, a as nat, b as nat),
        forall|id: nat| is_candidate(id, a as nat, b as nat) ==> r@.contains(id as u32),
{
    let mut r: Vec<u32> = Vec::new();
    let mut l: usize = 0;
    while l < LEVELS
        invariant
            l <= LEVELS,
            a < b <= MAX_POSITION,
            forall|i: int| 0 <= i < r@.len() ==> is_candidate(r@[i] as nat, a as nat, b as nat),
            forall|id: nat, k: int|
                0 <= k < l && candidate_at(id, a as nat, b as nat, k) ==> r@.contains(id as u32),
        decreases LEVELS - l,
    {
        let (w, off) = level(l);
        proof {
            lemma_ids_bounded(a as nat, l as int);
            lemma_ids_bounded((b - 1) as nat, l as int);
            vstd::arithmetic::div_mod::lemma_div_is_ordered(a as int, b - 1, w as int);
        }
        let lo = off + a / w;
        let hi = off + (b - 1) / w;
        let mut id = lo;
        let ghost start_len = r@.len();
        while id <= hi
            invariant
                l < LEVELS,
                a < b <= MAX_POSITION,
                w == level_width(l as int),
                off == level_offset(l as int),
                lo == off + a / w,
                hi == off + (b - 1) as u64 / w,
                hi < 37449,
                lo <= id <= hi + 1,
                forall|i: int|
                    0 <= i < r@.len() ==> is_candidate(r@[i] as nat, a as nat, b as nat),
                forall|x: nat, k: int|
                    0 <= k < l && candidate_at(x, a as nat, b as nat, k) ==> r@.contains(
                        x as u32,
                    ),
                forall|x: u32| lo <= x < id ==> r@.contains(x),
            decreases hi + 1 - id,
        {
            let ghost prev = r@;
            r.push(id as u32);
            proof {
                assert(candidate_at(id as nat, a as nat, b as nat, l as int));
                lemma_push_keeps(prev, id as u32);
                assert forall|x: u32| lo <= x < id + 1 implies r@.contains(x) by {
                    if x < id {
                        assert(prev.contains(x));
                    } else {
                        assert(x == id as u32);
                    }
                }
            }
            id = id + 1;
        }
        assert forall|x: nat, k: int|
            0 <= k < l + 1 && candidate_at(x, a as nat, b as nat, k) implies r@.contains(
            x as u32,
        ) by {
            if k == l {
                assert(lo <= x <= hi);
                assert(r@.contains(x as u32));
            }
        }
        l = l + 1;
    }
    r
}

} // verus!
