//! Chunks: ranges of virtual positions to scan, and the ordering and merging
//! of chunk lists.

use vstd::prelude::*;

use crate::virtual_position::VirtualPosition;

verus! {

/// A contiguous range `[start, end)` of virtual positions.
#[derive(Clone, Copy, Debug, PartialEq, Eq, Structural)]
pub struct Chunk {
    pub start: VirtualPosition,
    pub end: VirtualPosition,
}

impl Chunk {
    /// Creates a chunk from its two ends.
    pub fn new(start: VirtualPosition, end: VirtualPosition) -> (r: Chunk)
        ensures
            r.start == start,
            r.end == end,
    {
        Chunk { start, end }
    }

    /// The first position of the range.
    pub fn start(&self) -> (r: VirtualPosition)
        ensures
            r == self.start,
    {
        self.start
    }

    /// The position just past the range.
    pub fn end(&self) -> (r: VirtualPosition)
        ensures
            r == self.end,
    {
        self.end
    }

    /// Whether the range is not empty.
    pub open spec fn valid(self) -> bool {
        self.start@ < self.end@
    }
}

/// Whether `outer` holds all of `inner`.
pub open spec fn covers(outer: Chunk, inner: Chunk) -> bool {
    outer.start@ <= inner.start@ && inner.end@ <= outer.end@
}

/// Whether some chunk of `s` holds all of `c`.
pub open spec fn covered(c: Chunk, s: Seq<Chunk>) -> bool {
    exists|j: int| 0 <= j < s.len() && #[trigger] covers(s[j], c)
}

/// Whether every chunk of `s` is a non-empty range.
pub open spec fn all_valid(s: Seq<Chunk>) -> bool {
    forall|i: int| 0 <= i < s.len() ==> #[trigger] s[i].valid()
}

/// Whether the chunks of `s` are ordered by their start.
pub open spec fn sorted_by_start(s: Seq<Chunk>) -> bool {
    forall|i: int, j: int| 0 <= i < j < s.len() ==> s[i].start@ <= s[j].start@
}

/// Whether each chunk of `s` ends strictly before any later one starts: the
/// chunks are in stream order and neither overlap nor touch.
pub open spec fn separated(s: Seq<Chunk>) -> bool {
    forall|i: int, j: int| 0 <= i < j < s.len() ==> #[trigger] s[i].end@ < #[trigger] s[j].start@
}

/// Whether one of the first `n` chunks of `s` starts where `c` starts.
pub open spec fn has_start(s: Seq<Chunk>, n: int, c: Chunk) -> bool {
    exists|k: int| 0 <= k < n && s[k].start == c.start
}

/// Whether one of the first `n` chunks of `s` ends where `c` ends.
pub open spec fn has_end(s: Seq<Chunk>, n: int, c: Chunk) -> bool {
    exists|k: int| 0 <= k < n && s[k].end == c.end
}

/// Orders chunks by their start, keeping chunks with equal starts in their
/// given order.
pub fn sort_chunks(v: &Vec<Chunk>) -> (r: Vec<Chunk>)
    ensures
        sorted_by_start(r@),
        r@.len() == v@.len(),
        r@.to_multiset() == v@.to_multiset(),
        forall|c: Chunk| v@.contains(c) <==> r@.contains(c),
{
    let mut r: Vec<Chunk> = Vec::new();
    let mut i: usize = 0;
    proof {
        broadcast use vstd::multiset::group_multiset_axioms;
        assert(v@.subrange(0, 0) =~= Seq::<Chunk>::empty());
        assert(r@ =~= Seq::<Chunk>::empty());
        assert(r@.to_multiset() =~= v@.subrange(0, 0).to_multiset());
    }
    while i < v.len()
        invariant
            i <= v@.len(),
            sorted_by_start(r@),
            r@.to_multiset() == v@.subrange(0, i as int).to_multiset(),
        decreases v@.len() - i,
    {
        let c = v[i];
        let mut p: usize = r.len();
        while p > 0 && r[p - 1].start.0 > c.start.0
            invariant
                p <= r@.len(),
                sorted_by_start(r@),
                forall|k: int| p <= k < r@.len() ==> r@[k].start@ > c.start@,
            decreases p,
        {
            p = p - 1;
        }
        let ghost prev = r@;
        r.insert(p, c);
        proof {
            broadcast use vstd::multiset::group_multiset_axioms;
            prev.insert_ensures(p as int, c);
            assert(v@.subrange(0, i + 1) =~= v@.subrange(0, i as int).push(c));
            v@.subrange(0, i as int).to_multiset_ensures();
            r@.to_multiset_ensures();
            assert(r@.remove(p as int) =~= prev);
            assert(r@.contains(c)) by {
                assert(r@[p as int] == c);
            }
            assert(r@.to_multiset() =~= prev.to_multiset().insert(c));
            assert forall|a: int, b: int| 0 <= a < b < r@.len() implies r@[a].start@
                <= r@[b].start@ by {
                if b < p {
                    assert(prev[a].start@ <= prev[b].start@);
                } else if b == p {
                    assert(r@[a] == prev[a]);
                    if a < p - 1 {
                        assert(prev[a].start@ <= prev[p - 1].start@);
                    }
                } else if a < p {
                    assert(r@[b] == prev[b - 1]);
                    assert(prev[a].start@ <= prev[b - 1].start@);
                } else if a == p {
                    assert(r@[b] == prev[b - 1]);
                } else {
                    assert(prev[a - 1].start@ <= prev[b - 1].start@);
                }
            }
        }
        i = i + 1;
    }
    proof {
        assert(v@.subrange(0, i as int) =~= v@);
        assert forall|c: Chunk| v@.contains(c) <==> r@.contains(c) by {
            vstd::seq_lib::to_multiset_contains(v@, c);
            vstd::seq_lib::to_multiset_contains(r@, c);
        }
        vstd::seq_lib::to_multiset_len(v@);
        vstd::seq_lib::to_multiset_len(r@);
    }
    r
}

/// What merging the first `i` chunks of `v` into `r` has established.
pub open spec fn merged_prefix(v: Seq<Chunk>, i: int, r: Seq<Chunk>) -> bool {
    &&& separated(r)
    &&& all_valid(r)
    &&& (i == 0 <==> r.len() == 0)
    &&& forall|k: int| 0 <= k < i ==> #[trigger] covered(v[k], r)
    &&& forall|j: int| 0 <= j < r.len() ==> #[trigger] has_start(v, i, r[j])
    &&& forall|j: int| 0 <= j < r.len() ==> #[trigger] has_end(v, i, r[j])
}

proof fn lemma_merge_extend(v: Seq<Chunk>, i: int, prev: Seq<Chunk>, r: Seq<Chunk>)
    requires
        0 <= i < v.len(),
        sorted_by_start(v),
        all_valid(v),
        merged_prefix(v, i, prev),
        prev.len() > 0,
        v[i].start@ <= prev[prev.len() - 1].end@,
        r == prev.update(
            prev.len() - 1,
            Chunk {
                start: prev[prev.len() - 1].start,
                end: if v[i].end@ > prev[prev.len() - 1].end@ {
                    v[i].end
                } else {
                    prev[prev.len() - 1].end
                },
            },
        ),
    ensures
        merged_prefix(v, i + 1, r),
{
    let n = prev.len() - 1;
    let c = v[i];
    assert(has_start(v, i, prev[n]));
    let k0 = choose|k: int| 0 <= k < i && v[k].start == prev[n].start;
    assert(v[k0].start@ <= c.start@);
    assert(v[k0].valid());
    assert forall|k: int| 0 <= k < i + 1 implies #[trigger] covered(v[k], r) by {
        if k == i {
            assert(covers(r[n], v[k]));
        } else {
            assert(covered(v[k], prev));
            let j = choose|j: int| 0 <= j < prev.len() && #[trigger] covers(prev[j], v[k]);
            assert(covers(r[j], v[k]));
        }
    }
    assert forall|j: int| 0 <= j < r.len() implies #[trigger] has_start(v, i + 1, r[j]) by {
        assert(has_start(v, i, prev[j]));
        let k = choose|k: int| 0 <= k < i && v[k].start == prev[j].start;
        assert(v[k].start == r[j].start);
    }
    assert forall|j: int| 0 <= j < r.len() implies #[trigger] has_end(v, i + 1, r[j]) by {
        if j == n && c.end@ > prev[n].end@ {
            assert(v[i].end == r[j].end);
        } else {
            assert(has_end(v, i, prev[j]));
            let k = choose|k: int| 0 <= k < i && v[k].end == prev[j].end;
            assert(v[k].end == r[j].end);
        }
    }
    assert forall|a: int, b: int| 0 <= a < b < r.len() implies #[trigger] r[a].end@
        < #[trigger] r[b].start@ by {
        assert(prev[a].end@ < prev[b].start@);
    }
    assert(prev[n].valid());
    assert forall|j: int| 0 <= j < r.len() implies #[trigger] r[j].valid() by {
        assert(prev[j].valid());
    }
}

proof fn lemma_merge_push(v: Seq<Chunk>, i: int, prev: Seq<Chunk>)
    requires
        0 <= i < v.len(),
        all_valid(v),
        merged_prefix(v, i, prev),
        prev.len() == 0 || prev[prev.len() - 1].end@ < v[i].start@,
    ensures
        merged_prefix(v, i + 1, prev.push(v[i])),
{
    let r = prev.push(v[i]);
    let n = prev.len() as int;
    assert(v[i].valid());
    assert forall|k: int| 0 <= k < i + 1 implies #[trigger] covered(v[k], r) by {
        if k == i {
            assert(covers(r[n], v[k]));
        } else {
            assert(covered(v[k], prev));
            let j = choose|j: int| 0 <= j < prev.len() && #[trigger] covers(prev[j], v[k]);
            assert(covers(r[j], v[k]));
        }
    }
    assert forall|j: int| 0 <= j < r.len() implies #[trigger] has_start(v, i + 1, r[j]) by {
        if j == n {
            assert(v[i].start == r[j].start);
        } else {
            assert(has_start(v, i, prev[j]));
            let k = choose|k: int| 0 <= k < i && v[k].start == prev[j].start;
            assert(v[k].start == r[j].start);
        }
    }
    assert forall|j: int| 0 <= j < r.len() implies #[trigger] has_end(v, i + 1, r[j]) by {
        if j == n {
            assert(v[i].end == r[j].end);
        } else {
            assert(has_end(v, i, prev[j]));
            let k = choose|k: int| 0 <= k < i && v[k].end == prev[j].end;
            assert(v[k].end == r[j].end);
        }
    }
    assert forall|a: int, b: int| 0 <= a < b < r.len() implies #[trigger] r[a].end@
        < #[trigger] r[b].start@ by {
        if b < n {
            assert(prev[a].end@ < prev[b].start@);
        } else if a < n - 1 {
            assert(prev[a].end@ < prev[n - 1].start@);
            assert(prev[n - 1].valid());
        }
    }
    assert forall|j: int| 0 <= j < r.len() implies #[trigger] r[j].valid() by {
        if j < n {
            assert(prev[j].valid());
        }
    }
}

/// Merges chunks, ordered by start, whose ranges overlap or touch.
///
/// The result is in stream order with gaps between its chunks; it holds
/// every given chunk, and each of its chunks starts where a given chunk
/// starts and ends where a given chunk ends.
pub fn merge_chunks(v: &Vec<Chunk>) -> (r: Vec<Chunk>)
    requires
        sorted_by_start(v@),
        all_valid(v@),
    ensures
        merged_prefix(v@, v@.len() as int, r@),
{
    let mut r: Vec<Chunk> = Vec::new();
    let mut i: usize = 0;
    while i < v.len()
        invariant
            i <= v@.len(),
            sorted_by_start(v@),
            all_valid(v@),
            merged_prefix(v@, i as int, r@),
        decreases v@.len() - i,
    {
        let c = v[i];
        let n = r.len();
        if n > 0 && c.start.0 <= r[n - 1].end.0 {
            let last = r[n - 1];
            let end = if c.end.0 > last.end.0 {
                c.end
            } else {
                last.end
            };
            let ghost prev = r@;
            r.set(n - 1, Chunk { start: last.start, end });
            proof {
                lemma_merge_extend(v@, i as int, prev, r@);
            }
        } else {
            proof {
                lemma_merge_push(v@, i as int, r@);
            }
            r.push(c);
        }
        i = i + 1;
    }
    r
}

} // verus!
