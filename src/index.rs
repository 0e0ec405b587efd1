//! The interval index: per reference sequence, a map from bin to the chunks
//! of the records that bin holds, and a linear index of the smallest record
//! start in each tile; and the region query over it.

use vstd::prelude::*;

use crate::binning::{
    bin_for, intersects, is_candidate, lemma_bin_is_candidate, lemma_push_keeps, region_to_bin,
    region_to_bins, MAX_POSITION, TILE_WIDTH,
};
use crate::chunk::{all_valid, covered, merge_chunks, separated, sort_chunks, Chunk};
use crate::virtual_position::VirtualPosition;

verus! {

/// A record as the index sees it: its interval `[start, end)` on its
/// reference sequence and the chunk of the stream that holds it.
#[derive(Clone, Copy, Debug, PartialEq, Eq, Structural)]
pub struct IndexedRecord {
    pub start: u64,
    pub end: u64,
    pub chunk: Chunk,
}

impl IndexedRecord {
    /// Whether the interval and the chunk are non-empty and the interval lies
    /// within the indexable positions.
    pub open spec fn valid(self) -> bool {
        self.start < self.end <= MAX_POSITION && self.chunk.valid()
    }

    /// Whether the record lies (in part) in linear-index tile `t`.
    pub open spec fn in_tile(self, t: int) -> bool {
        (self.start as int) / (TILE_WIDTH as int) <= t <= (self.end - 1) / (TILE_WIDTH as int)
    }
}

/// A bin: its id and the chunks of the records it holds, in write order.
#[derive(Debug)]
pub struct Bin {
    pub id: u32,
    pub chunks: Vec<Chunk>,
}

/// Why a record could not be added or a query not answered.
#[derive(Clone, Copy, Debug, PartialEq, Eq, Structural)]
pub enum IndexError {
    /// The interval is empty or reaches past the indexable positions.
    InvalidInterval,
    /// The chunk is empty.
    InvalidChunk,
    /// No reference sequence has this id.
    InvalidReferenceSequenceId,
    /// Two bins have one id, or a bin of the scheme holds an empty chunk.
    InvalidBins,
}

/// Whether bins have distinct ids and the bins of the scheme hold non-empty
/// chunks only.
pub open spec fn bins_valid(bins: Seq<Bin>) -> bool {
    &&& forall|a: int, b: int| 0 <= a < b < bins.len() ==> #[trigger] bins[a].id != #[trigger] bins[b].id
    &&& forall|k: int, m: int|
        0 <= k < bins.len() && bins[k].id < 37449 && 0 <= m < bins[k].chunks@.len()
            ==> #[trigger] bins[k].chunks@[m].valid()
}

/// Whether records are in coordinate order as a sorted write produces them:
/// their starts do not decrease and each chunk ends at or before the next
/// one starts.
pub open spec fn coordinate_sorted(recs: Seq<IndexedRecord>) -> bool {
    forall|i: int, j: int|
        0 <= i < j < recs.len() ==> #[trigger] recs[i].start <= #[trigger] recs[j].start
            && recs[i].chunk.end@ <= recs[j].chunk.start@
}

/// Whether one of `bins` has id `id` and holds chunk `c`.
pub open spec fn in_bins(bins: Seq<Bin>, id: nat, c: Chunk) -> bool {
    exists|k: int| 0 <= k < bins.len() && bins[k].id == id && #[trigger] bins[k].chunks@.contains(c)
}

/// Whether the linear-index value of tile `t` is the start of a record in it.
pub open spec fn tile_witnessed(records: Seq<IndexedRecord>, t: int, v: u64) -> bool {
    exists|i: int| 0 <= i < records.len() && #[trigger] records[i].in_tile(t) && records[i].chunk.start@ == v
}

/// The records, in order, that intersect `[a, b)`.
pub open spec fn intersecting(recs: Seq<IndexedRecord>, a: u64, b: u64) -> Seq<IndexedRecord> {
    recs.filter(|r: IndexedRecord| intersects(r.start as nat, r.end as nat, a as nat, b as nat))
}

/// The records, in order, that a scan of `chunks` reaches and that pass the
/// intersection filter for `[a, b)`.
pub open spec fn scanned(recs: Seq<IndexedRecord>, chunks: Seq<Chunk>, a: u64, b: u64) -> Seq<IndexedRecord> {
    recs.filter(
        |r: IndexedRecord|
            covered(r.chunk, chunks) && intersects(r.start as nat, r.end as nat, a as nat, b as nat),
    )
}

/// Filtering by two predicates that agree on every element gives the same
/// sequence.
proof fn lemma_filter_agree(s: Seq<IndexedRecord>, p: spec_fn(IndexedRecord) -> bool, q: spec_fn(IndexedRecord) -> bool)
    requires
        forall|i: int| 0 <= i < s.len() ==> p(#[trigger] s[i]) == q(s[i]),
    ensures
        s.filter(p) == s.filter(q),
    decreases s.len(),
{
    reveal(Seq::filter);
    if s.len() > 0 {
        let t = s.drop_last();
        assert forall|i: int| 0 <= i < t.len() implies p(#[trigger] t[i]) == q(t[i]) by {
            assert(t[i] == s[i]);
        }
        lemma_filter_agree(t, p, q);
        assert(p(s[s.len() - 1]) == q(s[s.len() - 1]));
        assert(s.last() == s[s.len() - 1]);
        assert(s.filter(p) == (if p(s.last()) {
            t.filter(p).push(s.last())
        } else {
            t.filter(p)
        }));
        assert(s.filter(q) == (if q(s.last()) {
            t.filter(q).push(s.last())
        } else {
            t.filter(q)
        }));
    }
}

/// A scan of chunks that hold every record intersecting `[a, b)` yields,
/// after the intersection filter, exactly the records that intersect
/// `[a, b)`, in the order they were added.
pub proof fn lemma_scan_exact(recs: Seq<IndexedRecord>, chunks: Seq<Chunk>, a: u64, b: u64)
    requires
        forall|i: int|
            0 <= i < recs.len() && intersects(
                #[trigger] recs[i].start as nat,
                recs[i].end as nat,
                a as nat,
                b as nat,
            ) ==> covered(recs[i].chunk, chunks),
    ensures
        scanned(recs, chunks, a, b) == intersecting(recs, a, b),
{
    let p = |r: IndexedRecord|
        covered(r.chunk, chunks) && intersects(r.start as nat, r.end as nat, a as nat, b as nat);
    let q = |r: IndexedRecord| intersects(r.start as nat, r.end as nat, a as nat, b as nat);
    assert forall|i: int| 0 <= i < recs.len() implies p(#[trigger] recs[i]) == q(recs[i]) by {
        if intersects(recs[i].start as nat, recs[i].end as nat, a as nat, b as nat) {
            assert(covered(recs[i].chunk, chunks));
        }
    }
    lemma_filter_agree(recs, p, q);
}

/// The linear-index floor of a query starting at `a`: the value of the tile
/// that holds `a`, or 0 where the linear index does not reach that tile.
pub open spec fn min_offset(lin: Seq<VirtualPosition>, a: u64) -> u64 {
    if (a / TILE_WIDTH) < lin.len() {
        lin[(a / TILE_WIDTH) as int]@
    } else {
        0
    }
}

/// Whether chunk `c` survives the first steps of a query for `[a, b)`: it is
/// in a bin that overlaps `[a, b)` and ends after the linear-index floor.
pub open spec fn kept(bins: Seq<Bin>, lin: Seq<VirtualPosition>, a: u64, b: u64, c: Chunk) -> bool {
    exists|k: int|
        0 <= k < bins.len() && is_candidate(bins[k].id as nat, a as nat, b as nat)
            && #[trigger] bins[k].chunks@.contains(c) && c.end@ > min_offset(lin, a)
}

/// Whether `x` starts where a chunk kept by a query for `[a, b)` starts.
pub open spec fn start_kept(bins: Seq<Bin>, lin: Seq<VirtualPosition>, a: u64, b: u64, x: Chunk) -> bool {
    exists|c: Chunk| kept(bins, lin, a, b, c) && c.start == x.start
}

/// Whether `x` ends where a chunk kept by a query for `[a, b)` ends.
pub open spec fn end_kept(bins: Seq<Bin>, lin: Seq<VirtualPosition>, a: u64, b: u64, x: Chunk) -> bool {
    exists|c: Chunk| kept(bins, lin, a, b, c) && c.end == x.end
}

/// The end of a query interval, limited to the indexable positions.
pub open spec fn clamp_end(b: u64) -> u64 {
    if b > MAX_POSITION {
        MAX_POSITION
    } else {
        b
    }
}

/// Whether `x` occurs in `v`.
fn contains_id(v: &Vec<u32>, x: u32) -> (r: bool)
    ensures
        r == v@.contains(x),
{
    let mut i: usize = 0;
    while i < v.len()
        invariant
            i <= v@.len(),
            forall|j: int| 0 <= j < i ==> v@[j] != x,
        decreases v@.len() - i,
    {
        if v[i] == x {
            return true;
        }
        i = i + 1;
    }
    false
}

/// The index of one reference sequence.
pub struct ReferenceIndex {
    bins: Vec<Bin>,
    linear: Vec<VirtualPosition>,
    records: Ghost<Seq<IndexedRecord>>,
    built: Ghost<bool>,
}

impl ReferenceIndex {
    /// Whether the index was built by adding records to an empty one, rather
    /// than loaded with bins and a linear index of unknown records.
    pub closed spec fn is_built(&self) -> bool {
        self.built@
    }

    /// The records added so far, in order.
    pub closed spec fn records(&self) -> Seq<IndexedRecord> {
        self.records@
    }

    /// The bins.
    pub closed spec fn bins_view(&self) -> Seq<Bin> {
        self.bins@
    }

    /// The linear index: per tile, the smallest start of a record chunk in
    /// that tile, or 0.
    pub closed spec fn linear_view(&self) -> Seq<VirtualPosition> {
        self.linear@
    }

    /// The index invariant: bin ids are unique and the chunks of the bins of
    /// the scheme are non-empty; records are valid, each record's chunk is in
    /// the bin for its interval, and the linear index bounds the starts of
    /// the records in each tile from below, by one of those starts where the
    /// index was built from its records.
    pub closed spec fn wf(&self) -> bool {
        let recs = self.records@;
        let bins = self.bins@;
        let lin = self.linear@;
        &&& forall|i: int| 0 <= i < recs.len() ==> #[trigger] recs[i].valid()
        &&& forall|a: int, b: int| 0 <= a < b < bins.len() ==> #[trigger] bins[a].id != #[trigger] bins[b].id
        &&& forall|k: int, m: int|
            0 <= k < bins.len() && bins[k].id < 37449 && 0 <= m < bins[k].chunks@.len()
                ==> #[trigger] bins[k].chunks@[m].valid()
        &&& forall|i: int|
            0 <= i < recs.len() ==> #[trigger] in_bins(
                bins,
                bin_for(recs[i].start as nat, recs[i].end as nat),
                recs[i].chunk,
            )
        &&& forall|i: int, t: int|
            0 <= i < recs.len() && #[trigger] recs[i].in_tile(t) ==> 0 <= t < lin.len() && lin[t]@
                <= recs[i].chunk.start@
        &&& self.built@ ==> forall|t: int|
            0 <= t < lin.len() ==> #[trigger] lin[t]@ == 0 || tile_witnessed(recs, t, lin[t]@)
    }

    /// The position in `bins` of the bin with id `id`, if there is one.
    fn find_bin(&self, id: u32) -> (r: Option<usize>)
        ensures
            r matches Some(k) ==> k < self.bins@.len() && self.bins@[k as int].id == id,
            r is None ==> forall|k: int| 0 <= k < self.bins@.len() ==> self.bins@[k].id != id,
    {
        let mut k: usize = 0;
        while k < self.bins.len()
            invariant
                k <= self.bins@.len(),
                forall|j: int| 0 <= j < k ==> self.bins@[j].id != id,
            decreases self.bins@.len() - k,
        {
            if self.bins[k].id == id {
                return Some(k);
            }
            k = k + 1;
        }
        None
    }

    /// Lowers the linear index to `chunk.start` over the tiles that
    /// `[start, end)` lies in, growing it with zeros as needed.
    fn update_linear(&mut self, start: u64, end: u64, chunk: Chunk, recs: Ghost<Seq<IndexedRecord>>)
        requires
            old(self).built@ ==> forall|t: int|
                0 <= t < old(self).linear@.len() ==> #[trigger] old(self).linear@[t]@ == 0
                    || tile_witnessed(recs@, t, old(self).linear@[t]@),
            start < end <= MAX_POSITION,
            recs@.len() > 0,
            recs@[recs@.len() - 1] == (IndexedRecord { start, end, chunk }),
            forall|i: int, t: int|
                0 <= i < recs@.len() - 1 && #[trigger] recs@[i].in_tile(t) ==> 0 <= t
                    < old(self).linear@.len() && old(self).linear@[t]@ <= recs@[i].chunk.start@,
        ensures
            final(self).bins == old(self).bins,
            final(self).records == old(self).records,
            final(self).built == old(self).built,
            forall|i: int, t: int|
                0 <= i < recs@.len() && #[trigger] recs@[i].in_tile(t) ==> 0 <= t
                    < final(self).linear@.len() && final(self).linear@[t]@ <= recs@[i].chunk.start@,
            final(self).built@ ==> forall|t: int|
                0 <= t < final(self).linear@.len() ==> #[trigger] final(self).linear@[t]@ == 0
                    || tile_witnessed(recs@, t, final(self).linear@[t]@),
    {
        let ghost n = recs@.len() - 1;
        let first = start / TILE_WIDTH;
        let last = (end - 1) / TILE_WIDTH;
        let mut t = first;
        while t <= last
            invariant
                start < end <= MAX_POSITION,
                first == start / TILE_WIDTH,
                last == (end - 1) as u64 / TILE_WIDTH,
                first <= t <= last + 1,
                last < 32768,
                n >= 0,
                recs@.len() == n + 1,
                recs@[n] == (IndexedRecord { start, end, chunk }),
                self.bins == old(self).bins,
                self.records == old(self).records,
                self.built == old(self).built,
                forall|i: int, u: int|
                    0 <= i < n && #[trigger] recs@[i].in_tile(u) ==> 0 <= u < self.linear@.len()
                        && self.linear@[u]@ <= recs@[i].chunk.start@,
                first < t ==> t <= self.linear@.len(),
                forall|u: int| first <= u < t ==> #[trigger] self.linear@[u]@ <= chunk.start@,
                self.built@ ==> forall|u: int|
                    0 <= u < self.linear@.len() ==> #[trigger] self.linear@[u]@ == 0
                        || tile_witnessed(recs@, u, self.linear@[u]@),
            decreases last + 1 - t,
        {
            let tu = t as usize;
            proof {
                assert(recs@[n].in_tile(t as int));
                assert(tile_witnessed(recs@, t as int, chunk.start@));
            }
            if tu < self.linear.len() {
                if chunk.start.0 < self.linear[tu].0 {
                    let ghost prev = self.linear@;
                    self.linear.set(tu, chunk.start);
                    assert forall|u: int|
                        self.built@ &&
                        0 <= u < self.linear@.len() implies #[trigger] self.linear@[u]@ == 0
                            || tile_witnessed(recs@, u, self.linear@[u]@) by {
                        if u != t {
                            assert(prev[u] == self.linear@[u]);
                        }
                    }
                }
            } else {
                while self.linear.len() < tu
                    invariant
                        tu <= 32768,
                        tu == t,
                        first <= t,
                        self.linear@.len() <= tu,
                        recs@.len() == n + 1,
                        self.bins == old(self).bins,
                                self.records == old(self).records,
                        self.built == old(self).built,
                        forall|i: int, u: int|
                            0 <= i < n && #[trigger] recs@[i].in_tile(u) ==> 0 <= u
                                < self.linear@.len() && self.linear@[u]@ <= recs@[i].chunk.start@,
                        first < t ==> t <= self.linear@.len(),
                        forall|u: int| first <= u < t ==> #[trigger] self.linear@[u]@ <= chunk.start@,
                        self.built@ ==> forall|u: int|
                            0 <= u < self.linear@.len() ==> #[trigger] self.linear@[u]@ == 0
                                || tile_witnessed(recs@, u, self.linear@[u]@),
                    decreases tu - self.linear@.len(),
                {
                    self.linear.push(VirtualPosition(0));
                }
                let ghost prev = self.linear@;
                self.linear.push(chunk.start);
                assert forall|u: int|
                    self.built@ &&
                    0 <= u < self.linear@.len() implies #[trigger] self.linear@[u]@ == 0
                        || tile_witnessed(recs@, u, self.linear@[u]@) by {
                    if u < prev.len() {
                        assert(prev[u] == self.linear@[u]);
                    }
                }
            }
            t = t + 1;
        }
    }

    /// Adds a record: its interval `[start, end)` and the chunk that holds it.
    ///
    /// The chunk goes to the bin for the interval, and the linear index is
    /// lowered to the chunk's start over the tiles the interval lies in.
    /// Records are taken in the order given: the index does not check that
    /// they come in coordinate order, and queries promise their results only
    /// for records that do.
    pub fn add_record(&mut self, start: u64, end: u64, chunk: Chunk) -> (r: Result<(), IndexError>)
        requires
            old(self).wf(),
        ensures
            final(self).wf(),
            r is Ok ==> final(self).records() == old(self).records().push(
                IndexedRecord { start, end, chunk },
            ),
            r is Err ==> final(self).records() == old(self).records(),
            !(start < end <= MAX_POSITION) ==> r == Err::<(), IndexError>(IndexError::InvalidInterval),
            start < end <= MAX_POSITION && !chunk.valid() ==> r == Err::<(), IndexError>(
                IndexError::InvalidChunk,
            ),
            start < end <= MAX_POSITION && chunk.valid() ==> r is Ok,
    {
        if !(start < end && end <= MAX_POSITION) {
            return Err(IndexError::InvalidInterval);
        }
        if !(chunk.start.0 < chunk.end.0) {
            return Err(IndexError::InvalidChunk);
        }
        let rec = IndexedRecord { start, end, chunk };
        let ghost old_recs = self.records@;
        let ghost recs = old_recs.push(rec);
        let ghost old_bins = self.bins@;
        let id = region_to_bin(start, end);
        match self.find_bin(id) {
            Some(k) => {
                self.bins[k].chunks.push(chunk);
                proof {
                    assert forall|j: int| 0 <= j < old_bins.len() && j != k implies self.bins@[j]
                        == old_bins[j] by {}
                    lemma_push_keeps(old_bins[k as int].chunks@, chunk);
                }
            },
            None => {
                let mut chunks: Vec<Chunk> = Vec::new();
                chunks.push(chunk);
                self.bins.push(Bin { id, chunks });
                proof {
                    assert(self.bins@[old_bins.len() as int].chunks@[0] == chunk);
                }
            },
        }
        proof {
            assert forall|i: int| 0 <= i < recs.len() implies #[trigger] in_bins(
                self.bins@,
                bin_for(recs[i].start as nat, recs[i].end as nat),
                recs[i].chunk,
            ) by {
                if i < old_recs.len() {
                    assert(in_bins(
                        old_bins,
                        bin_for(old_recs[i].start as nat, old_recs[i].end as nat),
                        old_recs[i].chunk,
                    ));
                    let kk = choose|kk: int|
                        0 <= kk < old_bins.len() && old_bins[kk].id == bin_for(
                            old_recs[i].start as nat,
                            old_recs[i].end as nat,
                        ) && #[trigger] old_bins[kk].chunks@.contains(old_recs[i].chunk);
                    assert(self.bins@[kk].chunks@.contains(recs[i].chunk));
                } else {
                    let kk: int = choose|kk: int| 0 <= kk < self.bins@.len() && self.bins@[kk].id == id;
                    assert(self.bins@[kk].chunks@.contains(chunk));
                }
            }
        }
        proof {
            assert forall|t: int| self.built@ && 0 <= t < self.linear@.len() implies #[trigger] self.linear@[t]@
                == 0 || tile_witnessed(recs, t, self.linear@[t]@) by {
                if self.linear@[t]@ != 0 {
                    assert(tile_witnessed(old_recs, t, self.linear@[t]@));
                    let i = choose|i: int|
                        0 <= i < old_recs.len() && #[trigger] old_recs[i].in_tile(t)
                            && old_recs[i].chunk.start@ == self.linear@[t]@;
                    assert(recs[i].in_tile(t));
                }
            }
            assert forall|i: int, tt: int|
                0 <= i < recs.len() - 1 && #[trigger] recs[i].in_tile(tt) implies 0 <= tt
                < self.linear@.len() && self.linear@[tt]@ <= recs[i].chunk.start@ by {
                assert(old_recs[i].in_tile(tt));
            }
        }
        self.update_linear(start, end, chunk, Ghost(recs));
        self.records = Ghost(recs);
        proof {
            let n = old_recs.len() as int;
            assert forall|i: int| 0 <= i < recs.len() implies #[trigger] recs[i].valid() by {
                if i < n {
                    assert(old_recs[i].valid());
                }
            }
            assert forall|a: int, b: int| 0 <= a < b < self.bins@.len() implies #[trigger] self.bins@[a].id
                != #[trigger] self.bins@[b].id by {
                if b < old_bins.len() {
                    assert(old_bins[a].id != old_bins[b].id);
                }
            }
            assert forall|k: int, m: int|
                0 <= k < self.bins@.len() && self.bins@[k].id < 37449 && 0 <= m < self.bins@[k].chunks@.len() implies #[trigger] self.bins@[k].chunks@[m].valid() by {
                if k < old_bins.len() && m < old_bins[k].chunks@.len() {
                    assert(old_bins[k].chunks@[m].valid());
                }
            }
            assert(self.records@ == recs);
        }
        Ok(())
    }

    /// A record's chunk ends after the linear-index floor of every query
    /// whose interval the record intersects.
    proof fn lemma_floor_below(&self, i: int, a: u64, b: u64)
        requires
            self.wf(),
            self.is_built(),
            coordinate_sorted(self.records()),
            0 <= i < self.records().len(),
            intersects(self.records()[i].start as nat, self.records()[i].end as nat, a as nat, b as nat),
        ensures
            self.records()[i].chunk.end@ > min_offset(self.linear@, a),
    {
        let recs = self.records@;
        let lin = self.linear@;
        let t = (a / TILE_WIDTH) as int;
        let r = recs[i];
        assert(r.valid());
        if t < lin.len() && lin[t]@ != 0 {
            assert(tile_witnessed(recs, t, lin[t]@));
            let j = choose|j: int|
                0 <= j < recs.len() && #[trigger] recs[j].in_tile(t) && recs[j].chunk.start@ == lin[t]@;
            vstd::arithmetic::div_mod::lemma_div_is_ordered(a as int, r.end - 1, TILE_WIDTH as int);
            if r.in_tile(t) {
                assert(lin[t]@ <= r.chunk.start@);
            } else {
                assert(recs[j].start < r.start) by {
                    if recs[j].start >= r.start {
                        vstd::arithmetic::div_mod::lemma_div_is_ordered(
                            r.start as int,
                            recs[j].start as int,
                            TILE_WIDTH as int,
                        );
                    }
                }
                if j > i {
                    assert(recs[i].start <= recs[j].start);
                }
                assert(j < i);
                assert(recs[j].start <= recs[i].start && recs[j].chunk.end@ <= recs[i].chunk.start@);
                assert(recs[j].valid());
            }
        }
    }

    /// The chunks to scan for records that intersect `[a, b)`.
    ///
    /// Collects the chunks of the bins that overlap the interval, drops those
    /// that end at or before the linear-index floor of the tile holding `a`,
    /// then orders the rest by start and merges those that overlap or touch.
    /// An empty interval gives no chunks. When the records were added in
    /// coordinate order, every record that intersects `[a, b)` lies within one
    /// of the returned chunks, so that scanning them and keeping the records
    /// that intersect `[a, b)` gives exactly those records, in order.
    pub fn query(&self, a: u64, b: u64) -> (r: Vec<Chunk>)
        requires
            self.wf(),
        ensures
            separated(r@),
            all_valid(r@),
            b <= a || a >= MAX_POSITION ==> r@.len() == 0,
            a < b && a < MAX_POSITION ==> forall|c: Chunk|
                #[trigger] kept(self.bins_view(), self.linear_view(), a, clamp_end(b), c) ==> covered(
                    c,
                    r@,
                ),
            forall|j: int|
                0 <= j < r@.len() ==> #[trigger] start_kept(
                    self.bins_view(),
                    self.linear_view(),
                    a,
                    clamp_end(b),
                    r@[j],
                ),
            forall|j: int|
                0 <= j < r@.len() ==> #[trigger] end_kept(
                    self.bins_view(),
                    self.linear_view(),
                    a,
                    clamp_end(b),
                    r@[j],
                ),
            self.is_built() && coordinate_sorted(self.records()) ==> forall|i: int|
                0 <= i < self.records().len() && intersects(
                    #[trigger] self.records()[i].start as nat,
                    self.records()[i].end as nat,
                    a as nat,
                    b as nat,
                ) ==> covered(self.records()[i].chunk, r@),
            self.is_built() && coordinate_sorted(self.records()) ==> scanned(self.records(), r@, a, b) == intersecting(
                self.records(),
                a,
                b,
            ),
    {
        if b <= a || a >= MAX_POSITION {
            let r: Vec<Chunk> = Vec::new();
            proof {
                assert forall|i: int|
                    0 <= i < self.records().len() && intersects(
                        #[trigger] self.records()[i].start as nat,
                        self.records()[i].end as nat,
                        a as nat,
                        b as nat,
                    ) implies covered(self.records()[i].chunk, r@) by {
                    assert(self.records@[i].valid());
                }
                lemma_scan_exact(self.records(), r@, a, b);
            }
            return r;
        }
        let bb = if b > MAX_POSITION {
            MAX_POSITION
        } else {
            b
        };
        let candidates = region_to_bins(a, bb);
        let ti = (a / TILE_WIDTH) as usize;
        let floor = if ti < self.linear.len() {
            self.linear[ti].0
        } else {
            0
        };
        let mut collected: Vec<Chunk> = Vec::new();
        let mut k: usize = 0;
        while k < self.bins.len()
            invariant
                self.wf(),
                a < bb,
                bb == clamp_end(b),
                floor == min_offset(self.linear@, a),
                k <= self.bins@.len(),
                forall|x: int| 0 <= x < candidates@.len() ==> is_candidate(candidates@[x] as nat, a as nat, bb as nat),
                forall|id: nat| is_candidate(id, a as nat, bb as nat) ==> candidates@.contains(id as u32),
                forall|x: int| 0 <= x < collected@.len() ==> #[trigger] kept(self.bins@, self.linear@, a, bb, collected@[x]) && collected@[x].valid(),
                forall|kk: int, m: int|
                    0 <= kk < k && 0 <= m < self.bins@[kk].chunks@.len() && is_candidate(self.bins@[kk].id as nat, a as nat, bb as nat)
                        && self.bins@[kk].chunks@[m].end@ > floor ==> collected@.contains(#[trigger] self.bins@[kk].chunks@[m]),
            decreases self.bins@.len() - k,
        {
            if contains_id(&candidates, self.bins[k].id) {
                let chunks = &self.bins[k].chunks;
                let mut m: usize = 0;
                while m < chunks.len()
                    invariant
                        self.wf(),
                        k < self.bins@.len(),
                        *chunks == self.bins@[k as int].chunks,
                        is_candidate(self.bins@[k as int].id as nat, a as nat, bb as nat),
                        a < bb <= MAX_POSITION,
                        m <= chunks@.len(),
                        floor == min_offset(self.linear@, a),
                        forall|x: int| 0 <= x < collected@.len() ==> #[trigger] kept(self.bins@, self.linear@, a, bb, collected@[x]) && collected@[x].valid(),
                        forall|kk: int, mm: int|
                            0 <= kk < k && 0 <= mm < self.bins@[kk].chunks@.len() && is_candidate(self.bins@[kk].id as nat, a as nat, bb as nat)
                                && self.bins@[kk].chunks@[mm].end@ > floor ==> collected@.contains(#[trigger] self.bins@[kk].chunks@[mm]),
                        forall|mm: int|
                            0 <= mm < m && chunks@[mm].end@ > floor ==> collected@.contains(#[trigger] chunks@[mm]),
                    decreases chunks@.len() - m,
                {
                    let c = chunks[m];
                    if c.end.0 > floor {
                        let ghost prev = collected@;
                        collected.push(c);
                        proof {
                            lemma_push_keeps(prev, c);
                            assert(chunks@.contains(c)) by {
                                assert(chunks@[m as int] == c);
                            }
                            assert(kept(self.bins@, self.linear@, a, bb, c));
                            crate::binning::lemma_candidate_below(self.bins@[k as int].id as nat, a as nat, bb as nat);
                            assert(self.bins@[k as int].chunks@[m as int].valid());
                            assert forall|x: int| 0 <= x < collected@.len() implies #[trigger] kept(self.bins@, self.linear@, a, bb, collected@[x]) && collected@[x].valid() by {
                                if x < prev.len() {
                                    assert(collected@[x] == prev[x]);
                                }
                            }
                        }
                    }
                    m = m + 1;
                }
            } else {
                proof {
                    if is_candidate(self.bins@[k as int].id as nat, a as nat, bb as nat) {
                        assert(candidates@.contains(self.bins@[k as int].id as nat as u32));
                    }
                }
            }
            k = k + 1;
        }
        let sorted = sort_chunks(&collected);
        proof {
            assert forall|i: int| 0 <= i < sorted@.len() implies #[trigger] sorted@[i].valid() by {
                assert(sorted@.contains(sorted@[i]));
                assert(collected@.contains(sorted@[i]));
                let x = choose|x: int| 0 <= x < collected@.len() && collected@[x] == sorted@[i];
                assert(kept(self.bins@, self.linear@, a, bb, collected@[x]) && collected@[x].valid());
            }
        }
        let r = merge_chunks(&sorted);
        proof {
            assert forall|c: Chunk| #[trigger] kept(self.bins@, self.linear@, a, bb, c) implies covered(c, r@) by {
                let kk = choose|kk: int|
                    0 <= kk < self.bins@.len() && is_candidate(self.bins@[kk].id as nat, a as nat, bb as nat)
                        && #[trigger] self.bins@[kk].chunks@.contains(c) && c.end@ > min_offset(self.linear@, a);
                let mm = choose|mm: int| 0 <= mm < self.bins@[kk].chunks@.len() && self.bins@[kk].chunks@[mm] == c;
                assert(collected@.contains(self.bins@[kk].chunks@[mm]));
                assert(sorted@.contains(c));
                let i = choose|i: int| 0 <= i < sorted@.len() && sorted@[i] == c;
                assert(covered(sorted@[i], r@));
            }
            assert forall|j: int| 0 <= j < r@.len() implies #[trigger] start_kept(self.bins@, self.linear@, a, bb, r@[j]) by {
                assert(crate::chunk::has_start(sorted@, sorted@.len() as int, r@[j]));
                let i = choose|i: int| 0 <= i < sorted@.len() && sorted@[i].start == r@[j].start;
                assert(sorted@.contains(sorted@[i]));
                assert(collected@.contains(sorted@[i]));
                let x = choose|x: int| 0 <= x < collected@.len() && collected@[x] == sorted@[i];
                assert(kept(self.bins@, self.linear@, a, bb, collected@[x]));
            }
            assert forall|j: int| 0 <= j < r@.len() implies #[trigger] end_kept(self.bins@, self.linear@, a, bb, r@[j]) by {
                assert(crate::chunk::has_end(sorted@, sorted@.len() as int, r@[j]));
                let i = choose|i: int| 0 <= i < sorted@.len() && sorted@[i].end == r@[j].end;
                assert(sorted@.contains(sorted@[i]));
                assert(collected@.contains(sorted@[i]));
                let x = choose|x: int| 0 <= x < collected@.len() && collected@[x] == sorted@[i];
                assert(kept(self.bins@, self.linear@, a, bb, collected@[x]));
            }
            if self.is_built() && coordinate_sorted(self.records()) {
            assert forall|i: int|
                0 <= i < self.records().len() && intersects(
                    #[trigger] self.records()[i].start as nat,
                    self.records()[i].end as nat,
                    a as nat,
                    b as nat,
                ) implies covered(self.records()[i].chunk, r@) by {
                let rec = self.records@[i];
                assert(rec.valid());
                lemma_bin_is_candidate(rec.start as nat, rec.end as nat, a as nat, bb as nat);
                assert(in_bins(self.bins@, bin_for(rec.start as nat, rec.end as nat), rec.chunk));
                self.lemma_floor_below(i, a, b);
                let kk = choose|kk: int|
                    0 <= kk < self.bins@.len() && self.bins@[kk].id == bin_for(rec.start as nat, rec.end as nat)
                        && #[trigger] self.bins@[kk].chunks@.contains(rec.chunk);
                assert(kept(self.bins@, self.linear@, a, bb, rec.chunk));
            }
            lemma_scan_exact(self.records(), r@, a, b);
            }
        }
        r
    }

    /// An index loaded from its bins and linear index, with no known records.
    ///
    /// Fails when two bins have one id or a bin of the scheme holds an empty
    /// chunk.
    pub fn from_parts(bins: Vec<Bin>, linear: Vec<VirtualPosition>) -> (r: Result<ReferenceIndex, IndexError>)
        ensures
            r is Ok <==> bins_valid(bins@),
            r is Err ==> r == Err::<ReferenceIndex, IndexError>(IndexError::InvalidBins),
            r matches Ok(x) ==> x.wf() && !x.is_built() && x.bins_view() == bins@ && x.linear_view()
                == linear@ && x.records() == Seq::<IndexedRecord>::empty(),
    {
        let mut k: usize = 0;
        while k < bins.len()
            invariant
                k <= bins@.len(),
                forall|a: int, b: int| 0 <= a < b < k ==> #[trigger] bins@[a].id != #[trigger] bins@[b].id,
                forall|kk: int, m: int|
                    0 <= kk < k && bins@[kk].id < 37449 && 0 <= m < bins@[kk].chunks@.len()
                        ==> #[trigger] bins@[kk].chunks@[m].valid(),
            decreases bins@.len() - k,
        {
            let b = &bins[k];
            let mut j: usize = 0;
            while j < k
                invariant
                    k < bins@.len(),
                    *b == bins@[k as int],
                    j <= k,
                    forall|a: int| 0 <= a < j ==> bins@[a].id != b.id,
                decreases k - j,
            {
                if bins[j].id == b.id {
                    return Err(IndexError::InvalidBins);
                }
                j = j + 1;
            }
            if b.id < 37449 {
                let mut m: usize = 0;
                while m < b.chunks.len()
                    invariant
                        k < bins@.len(),
                        *b == bins@[k as int],
                        b.id < 37449,
                        m <= b.chunks@.len(),
                        forall|mm: int| 0 <= mm < m ==> #[trigger] b.chunks@[mm].valid(),
                    decreases b.chunks@.len() - m,
                {
                    if !(b.chunks[m].start.0 < b.chunks[m].end.0) {
                        proof {
                            assert(!bins@[k as int].chunks@[m as int].valid());
                            assert(bins@[k as int].id < 37449);
                        }
                        return Err(IndexError::InvalidBins);
                    }
                    m = m + 1;
                }
            }
            k = k + 1;
        }
        Ok(ReferenceIndex { bins, linear, records: Ghost(Seq::empty()), built: Ghost(false) })
    }

    /// An index with no records.
    pub fn new() -> (r: ReferenceIndex)
        ensures
            r.wf(),
            r.is_built(),
            r.records() == Seq::<IndexedRecord>::empty(),
    {
        ReferenceIndex {
            bins: Vec::new(),
            linear: Vec::new(),
            records: Ghost(Seq::empty()),
            built: Ghost(true),
        }
    }

    /// The bins, in the order they were created.
    pub fn bins(&self) -> (r: &[Bin])
        ensures
            r@ == self.bins_view(),
    {
        self.bins.as_slice()
    }

    /// The linear index.
    pub fn linear_index(&self) -> (r: &[VirtualPosition])
        ensures
            r@ == self.linear_view(),
    {
        self.linear.as_slice()
    }
}

/// The index of a file: one reference index per reference sequence, in the
/// order the header declares them, and the number of records placed on no
/// reference sequence.
pub struct Index {
    references: Vec<ReferenceIndex>,
    unplaced_count: u64,
}

impl Index {
    /// The reference indices.
    pub closed spec fn references_view(&self) -> Seq<ReferenceIndex> {
        self.references@
    }

    /// The number of records placed on no reference sequence.
    pub closed spec fn unplaced_view(&self) -> u64 {
        self.unplaced_count
    }

    /// Every reference index keeps its invariant.
    pub closed spec fn wf(&self) -> bool {
        forall|i: int| 0 <= i < self.references@.len() ==> #[trigger] self.references@[i].wf()
    }

    /// An index with no records for `reference_count` reference sequences.
    pub fn new(reference_count: usize) -> (r: Index)
        ensures
            r.wf(),
            r.references_view().len() == reference_count,
            forall|i: int|
                0 <= i < reference_count ==> #[trigger] r.references_view()[i].records().len() == 0,
            r.unplaced_view() == 0,
    {
        let mut references: Vec<ReferenceIndex> = Vec::new();
        let mut i: usize = 0;
        while i < reference_count
            invariant
                i <= reference_count,
                references@.len() == i,
                forall|j: int| 0 <= j < i ==> #[trigger] references@[j].wf(),
                forall|j: int| 0 <= j < i ==> #[trigger] references@[j].records().len() == 0,
            decreases reference_count - i,
        {
            references.push(ReferenceIndex::new());
            i = i + 1;
        }
        Index { references, unplaced_count: 0 }
    }

    /// An index of the given reference indices and number of records placed
    /// on no reference sequence.
    pub fn from_parts(references: Vec<ReferenceIndex>, unplaced_count: u64) -> (r: Index)
        requires
            forall|i: int| 0 <= i < references@.len() ==> #[trigger] references@[i].wf(),
        ensures
            r.wf(),
            r.references_view() == references@,
            r.unplaced_view() == unplaced_count,
    {
        Index { references, unplaced_count }
    }

    /// The number of reference sequences.
    pub fn reference_count(&self) -> (r: usize)
        ensures
            r == self.references_view().len(),
    {
        self.references.len()
    }

    /// The number of records placed on no reference sequence.
    pub fn unplaced_unmapped_record_count(&self) -> (r: u64)
        ensures
            r == self.unplaced_view(),
    {
        self.unplaced_count
    }

    /// The index of reference sequence `id`.
    pub fn reference(&self, id: usize) -> (r: Option<&ReferenceIndex>)
        ensures
            id < self.references_view().len() <==> r is Some,
            r matches Some(x) ==> *x == self.references_view()[id as int],
    {
        if id < self.references.len() {
            Some(&self.references[id])
        } else {
            None
        }
    }

    /// Counts one more record placed on no reference sequence; the count
    /// stays at its maximum once it reaches it.
    pub fn add_unplaced_record(&mut self)
        ensures
            final(self).references_view() == old(self).references_view(),
            final(self).unplaced_view() == if old(self).unplaced_view() == u64::MAX {
                u64::MAX
            } else {
                (old(self).unplaced_view() + 1) as u64
            },
            old(self).wf() ==> final(self).wf(),
    {
        self.unplaced_count = self.unplaced_count.saturating_add(1);
    }

    /// Adds a record on reference sequence `reference_id`; see
    /// [`ReferenceIndex::add_record`].
    pub fn add_record(&mut self, reference_id: usize, start: u64, end: u64, chunk: Chunk) -> (r: Result<(), IndexError>)
        requires
            old(self).wf(),
        ensures
            final(self).wf(),
            final(self).unplaced_view() == old(self).unplaced_view(),
            final(self).references_view().len() == old(self).references_view().len(),
            reference_id >= old(self).references_view().len() ==> r == Err::<(), IndexError>(
                IndexError::InvalidReferenceSequenceId,
            ) && final(self).references_view() == old(self).references_view(),
            forall|i: int| 0 <= i < old(self).references_view().len() && i != reference_id ==> #[trigger] final(self).references_view()[i] == old(self).references_view()[i],
            reference_id < old(self).references_view().len() ==> {
                let before = old(self).references_view()[reference_id as int].records();
                let after = final(self).references_view()[reference_id as int].records();
                &&& !(start < end <= MAX_POSITION) ==> r == Err::<(), IndexError>(IndexError::InvalidInterval)
                &&& start < end <= MAX_POSITION && !chunk.valid() ==> r == Err::<(), IndexError>(IndexError::InvalidChunk)
                &&& start < end <= MAX_POSITION && chunk.valid() ==> r is Ok
                &&& r is Ok ==> after == before.push(IndexedRecord { start, end, chunk })
                &&& r is Err ==> after == before
            },
    {
        if reference_id >= self.references.len() {
            return Err(IndexError::InvalidReferenceSequenceId);
        }
        proof {
            assert(self.references@[reference_id as int].wf());
        }
        let r = self.references[reference_id].add_record(start, end, chunk);
        proof {
            assert forall|i: int| 0 <= i < self.references@.len() implies #[trigger] self.references@[i].wf() by {
                if i != reference_id {
                    assert(old(self).references@[i].wf());
                }
            }
        }
        r
    }

    /// The chunks to scan for records on reference sequence `reference_id`
    /// that intersect `[a, b)`; see [`ReferenceIndex::query`].
    ///
    /// Fails when no reference sequence has that id. An empty interval gives
    /// no chunks.
    pub fn query(&self, reference_id: usize, a: u64, b: u64) -> (r: Result<Vec<Chunk>, IndexError>)
        requires
            self.wf(),
        ensures
            r is Err <==> reference_id >= self.references_view().len(),
            r is Err ==> r == Err::<Vec<Chunk>, IndexError>(IndexError::InvalidReferenceSequenceId),
            r matches Ok(chunks) ==> {
                let reference = self.references_view()[reference_id as int];
                &&& separated(chunks@)
                &&& all_valid(chunks@)
                &&& (b <= a ==> chunks@.len() == 0)
                &&& (a < b && a < MAX_POSITION ==> forall|c: Chunk|
                    #[trigger] kept(reference.bins_view(), reference.linear_view(), a, clamp_end(b), c)
                        ==> covered(c, chunks@))
                &&& forall|j: int|
                    0 <= j < chunks@.len() ==> #[trigger] start_kept(
                        reference.bins_view(),
                        reference.linear_view(),
                        a,
                        clamp_end(b),
                        chunks@[j],
                    )
                &&& forall|j: int|
                    0 <= j < chunks@.len() ==> #[trigger] end_kept(
                        reference.bins_view(),
                        reference.linear_view(),
                        a,
                        clamp_end(b),
                        chunks@[j],
                    )
                &&& reference.is_built() && coordinate_sorted(reference.records()) ==> forall|i: int|
                    0 <= i < reference.records().len() && intersects(
                        #[trigger] reference.records()[i].start as nat,
                        reference.records()[i].end as nat,
                        a as nat,
                        b as nat,
                    ) ==> covered(reference.records()[i].chunk, chunks@)
                &&& reference.is_built() && coordinate_sorted(reference.records()) ==> scanned(reference.records(), chunks@, a, b) == intersecting(
                    reference.records(),
                    a,
                    b,
                )
            },
    {
        if reference_id >= self.references.len() {
            return Err(IndexError::InvalidReferenceSequenceId);
        }
        proof {
            assert(self.references@[reference_id as int].wf());
        }
        Ok(self.references[reference_id].query(a, b))
    }
}

} // verus!
