//! A reader of indexed variant files, VCF or BCF, over a block-compressed
//! stream and its index: it reads the header and the bytes of the chunks
//! that a region query selects, for the format's record decoder.

use vstd::prelude::*;
use vstd::string::StrSliceExecFns;

use crate::bcf::file_format_spec;
use crate::binning::intersects;
use crate::binning::MAX_POSITION;
use crate::chunk::{all_valid, covered, separated, Chunk};
use crate::index::{clamp_end, coordinate_sorted, end_kept, kept, start_kept, Index, IndexError};
use crate::stream::{content_at, problem_before, seekable, stands_before, Reader, StreamError};

verus! {

/// A stream and the index of its records.
pub struct IndexedStream {
    reader: Reader,
    index: Index,
}

impl IndexedStream {
    /// The stream reader.
    pub closed spec fn reader_view(&self) -> Reader {
        self.reader
    }

    /// The index.
    pub closed spec fn index_view(&self) -> Index {
        self.index
    }

    /// Both parts keep their invariants.
    pub closed spec fn wf(&self) -> bool {
        self.reader.wf() && self.index.wf()
    }

    /// Pairs a reader with the index of its stream.
    pub fn new(reader: Reader, index: Index) -> (r: IndexedStream)
        requires
            reader.wf(),
            index.wf(),
        ensures
            r.wf(),
            r.reader_view() == reader,
            r.index_view() == index,
    {
        IndexedStream { reader, index }
    }
}

/// An indexed reader, one variant per file format.
pub enum IndexedReader {
    /// VCF: block-compressed text.
    Vcf(IndexedStream),
    /// BCF: block-compressed binary records.
    Bcf(IndexedStream),
}

/// Why a header or a query could not be read.
#[derive(Clone, Copy, Debug, PartialEq, Eq, Structural)]
pub enum ReadError {
    /// The stream does not start with a header of the format.
    InvalidHeader,
    /// No reference sequence has this id.
    InvalidReferenceSequenceId,
    /// The stream ends inside a record.
    InvalidRecord,
    /// The header declares no reference sequence of the region's name.
    InvalidRegion,
    /// The stream could not be read.
    Stream(StreamError),
}

/// The 32-bit little-endian value of the four bytes `b`.
pub open spec fn le32(b: Seq<u8>) -> nat {
    (b[0] + 256 * b[1] + 65536 * b[2] + 16777216 * b[3]) as nat
}

/// The error for a stream that ends, cleanly or not, before a header does.
pub open spec fn short(e: Option<StreamError>) -> ReadError {
    match e {
        None => ReadError::InvalidHeader,
        Some(x) => ReadError::Stream(x),
    }
}

/// The header text of a BCF stream whose content is `p` up to the problem
/// `e`: the magic number and version, a 32-bit length, then that many bytes.
pub open spec fn bcf_header_spec(p: Seq<u8>, e: Option<StreamError>) -> Result<Seq<u8>, ReadError> {
    if p.len() < 5 {
        Err(short(e))
    } else if p.subrange(0, 5) != file_format_spec() {
        Err(ReadError::InvalidHeader)
    } else if p.len() < 9 {
        Err(short(e))
    } else if p.len() < 9 + le32(p.subrange(5, 9)) {
        Err(short(e))
    } else {
        Ok(p.subrange(9, 9 + le32(p.subrange(5, 9)) as int))
    }
}

/// Where the line holding position `i` of `p` starts.
#[verifier::opaque]
pub open spec fn line_start(p: Seq<u8>, i: int) -> int
    decreases i,
{
    if i <= 0 {
        0
    } else if p[i - 1] == 0x0a {
        i
    } else {
        line_start(p, i - 1)
    }
}

/// The bytes `#CHROM` that start the last line of a VCF header.
pub open spec fn chrom_prefix() -> Seq<u8> {
    seq![0x23u8, 0x43u8, 0x48u8, 0x52u8, 0x4fu8, 0x4du8]
}

/// Whether the first `k` bytes of `p` end with a complete line that starts
/// with `#CHROM`.
#[verifier::opaque]
pub open spec fn ends_header(p: Seq<u8>, k: int) -> bool {
    let ls = line_start(p, k - 1);
    &&& 1 <= k <= p.len()
    &&& p[k - 1] == 0x0a
    &&& ls + 6 <= k
    &&& p.subrange(ls, ls + 6) == chrom_prefix()
}

/// The header text of a VCF stream whose content is `p` up to the problem
/// `e`: every line up to and including the first that starts with `#CHROM`.
pub open spec fn vcf_header_spec(p: Seq<u8>, e: Option<StreamError>) -> Result<Seq<u8>, ReadError> {
    if exists|k: int| #[trigger] ends_header(p, k) {
        let k = choose|k: int| #[trigger] ends_header(p, k) && forall|j: int| 0 <= j < k ==> !ends_header(p, j);
        Ok(p.subrange(0, k))
    } else {
        Err(short(e))
    }
}

/// The text of `p` cut at each newline, newlines dropped.
pub open spec fn segments(p: Seq<u8>) -> Seq<Seq<u8>>
    decreases p.len(),
{
    if p.len() == 0 {
        seq![Seq::empty()]
    } else {
        let t = segments(p.drop_last());
        if p.last() == 0x0a {
            t.push(Seq::empty())
        } else {
            t.update(t.len() - 1, t.last().push(p.last()))
        }
    }
}

proof fn lemma_segments_len(p: Seq<u8>)
    ensures
        segments(p).len() >= 1,
    decreases p.len(),
{
    if p.len() > 0 {
        lemma_segments_len(p.drop_last());
    }
}

/// The lines of VCF text `p`: its segments, less the empty one after a final
/// newline.
pub open spec fn vcf_records_spec(p: Seq<u8>) -> Seq<Seq<u8>> {
    let s = segments(p);
    if s.last().len() == 0 {
        s.drop_last()
    } else {
        s
    }
}

/// The records of BCF content `p`: each two 32-bit lengths, then that many
/// bytes of shared and of per-sample data; `None` where `p` ends inside a
/// record.
pub open spec fn bcf_records_spec(p: Seq<u8>) -> Option<Seq<Seq<u8>>>
    decreases p.len(),
{
    if p.len() == 0 {
        Some(Seq::empty())
    } else if p.len() < 8 {
        None
    } else {
        let n = 8 + le32(p.subrange(0, 4)) + le32(p.subrange(4, 8));
        if p.len() < n {
            None
        } else {
            match bcf_records_spec(p.subrange(n as int, p.len() as int)) {
                None => None,
                Some(rest) => Some(seq![p.subrange(0, n as int)] + rest),
            }
        }
    }
}

/// The raw records of content `p`, BCF or VCF, with the stream's problem
/// `e`: the stream's error where there is one, else the records, or
/// `InvalidRecord` where the content ends inside one.
pub open spec fn records_spec(bcf: bool, p: Seq<u8>, e: Option<StreamError>) -> Result<Seq<Seq<u8>>, ReadError> {
    match e {
        Some(x) => Err(ReadError::Stream(x)),
        None => if bcf {
            match bcf_records_spec(p) {
                Some(recs) => Ok(recs),
                None => Err(ReadError::InvalidRecord),
            }
        } else {
            Ok(vcf_records_spec(p))
        },
    }
}

/// Cuts VCF text into its lines.
pub fn split_lines(p: &Vec<u8>) -> (r: Vec<Vec<u8>>)
    ensures
        r@.len() == vcf_records_spec(p@).len(),
        forall|k: int| 0 <= k < r@.len() ==> #[trigger] r@[k]@ == vcf_records_spec(p@)[k],
{
    let mut segs: Vec<Vec<u8>> = Vec::new();
    segs.push(Vec::new());
    let mut i: usize = 0;
    proof {
        assert(p@.take(0) =~= Seq::<u8>::empty());
        assert(segs@[0]@ =~= Seq::<u8>::empty());
    }
    while i < p.len()
        invariant
            i <= p@.len(),
            segs@.len() == segments(p@.take(i as int)).len(),
            segs@.len() >= 1,
            forall|k: int| 0 <= k < segs@.len() ==> #[trigger] segs@[k]@ == segments(p@.take(i as int))[k],
        decreases p@.len() - i,
    {
        let c = p[i];
        proof {
            assert(p@.take(i + 1).drop_last() =~= p@.take(i as int));
            assert(p@.take(i + 1).last() == c);
        }
        if c == 0x0a {
            segs.push(Vec::new());
            proof {
                assert forall|k: int| 0 <= k < segs@.len() implies #[trigger] segs@[k]@ == segments(p@.take(i + 1))[k] by {
                    if k == segs@.len() - 1 {
                        assert(segs@[k]@ =~= Seq::<u8>::empty());
                    }
                }
            }
        } else {
            let last = segs.len() - 1;
            let ghost prev = segs@;
            segs[last].push(c);
            proof {
                assert forall|k: int| 0 <= k < segs@.len() implies #[trigger] segs@[k]@ == segments(p@.take(i + 1))[k] by {
                    if k != last {
                        assert(segs@[k] == prev[k]);
                    }
                }
            }
        }
        i = i + 1;
    }
    proof {
        assert(p@.take(i as int) =~= p@);
    }
    let n = segs.len();
    if segs[n - 1].len() == 0 {
        let ghost prev = segs@;
        segs.pop();
        proof {
            assert forall|k: int| 0 <= k < segs@.len() implies #[trigger] segs@[k]@ == vcf_records_spec(p@)[k] by {
                assert(segs@[k] == prev[k]);
            }
        }
    }
    segs
}

/// Cuts BCF content into its records; `None` where it ends inside one.
pub fn split_bcf_records(p: &Vec<u8>) -> (r: Option<Vec<Vec<u8>>>)
    ensures
        match bcf_records_spec(p@) {
            None => r is None,
            Some(recs) => r matches Some(v) && v@.len() == recs.len() && forall|k: int|
                0 <= k < v@.len() ==> #[trigger] v@[k]@ == recs[k],
        },
{
    let mut out: Vec<Vec<u8>> = Vec::new();
    let mut i: usize = 0;
    proof {
        assert(p@.subrange(0, p@.len() as int) =~= p@);
        match bcf_records_spec(p@) {
            Some(recs) => assert(Seq::<Seq<u8>>::empty() + recs =~= recs),
            None => {},
        }
    }
    while i < p.len()
        invariant
            i <= p@.len(),
            bcf_records_spec(p@) == (match bcf_records_spec(p@.subrange(i as int, p@.len() as int)) {
                None => None,
                Some(rest) => Some(out@.map_values(|v: Vec<u8>| v@) + rest),
            }),
        decreases p@.len() - i,
    {
        let ghost q = p@.subrange(i as int, p@.len() as int);
        if p.len() - i < 8 {
            return None;
        }
        let a = p[i] as u64 + 256 * (p[i + 1] as u64) + 65536 * (p[i + 2] as u64) + 16777216 * (p[i + 3] as u64);
        let b = p[i + 4] as u64 + 256 * (p[i + 5] as u64) + 65536 * (p[i + 6] as u64) + 16777216 * (
        p[i + 7] as u64);
        proof {
            assert(q.subrange(0, 4) =~= p@.subrange(i as int, i + 4));
            assert(q.subrange(4, 8) =~= p@.subrange(i + 4, i + 8));
        }
        let n = 8 + a + b;
        if ((p.len() - i) as u64) < n {
            return None;
        }
        let n = n as usize;
        let mut rec: Vec<u8> = Vec::new();
        crate::block::push_all(&mut rec, vstd::slice::slice_subrange(p.as_slice(), i, i + n));
        let ghost prev = out@.map_values(|v: Vec<u8>| v@);
        out.push(rec);
        proof {
            assert(rec@ =~= q.subrange(0, n as int));
            assert(q.subrange(n as int, q.len() as int) =~= p@.subrange(i + n, p@.len() as int));
            assert(out@.map_values(|v: Vec<u8>| v@) =~= prev.push(q.subrange(0, n as int)));
            match bcf_records_spec(p@.subrange(i + n, p@.len() as int)) {
                Some(rest) => assert(prev + (seq![q.subrange(0, n as int)] + rest) =~= prev.push(q.subrange(0, n as int)) + rest),
                None => {},
            }
        }
        i = i + n;
    }
    proof {
        assert(p@.subrange(i as int, p@.len() as int) =~= Seq::<u8>::empty());
        assert(out@.map_values(|v: Vec<u8>| v@) + Seq::<Seq<u8>>::empty() =~= out@.map_values(|v: Vec<u8>| v@));
    }
    Some(out)
}

proof fn lemma_no_header_end(p: Seq<u8>, e: Option<StreamError>)
    requires
        forall|j: int| 0 <= j <= p.len() ==> !#[trigger] ends_header(p, j),
    ensures
        vcf_header_spec(p, e) == Err::<Seq<u8>, ReadError>(short(e)),
{
    assert forall|k: int| !#[trigger] ends_header(p, k) by {
        reveal(ends_header);
        if 0 <= k <= p.len() {
            assert(!ends_header(p, k));
        }
    }
}

proof fn lemma_line_start_step(p: Seq<u8>, n: int)
    requires
        1 <= n,
    ensures
        line_start(p, n) == (if p[n - 1] == 0x0a {
            n
        } else {
            line_start(p, n - 1)
        }),
        line_start(p, n - 1) <= n - 1,
    decreases n,
{
    reveal(line_start);
    if n - 1 >= 1 {
        lemma_line_start_step(p, n - 1);
    }
}

proof fn lemma_first_header_end(p: Seq<u8>, e: Option<StreamError>, n: int)
    requires
        ends_header(p, n),
        forall|j: int| 0 <= j < n ==> !#[trigger] ends_header(p, j),
    ensures
        vcf_header_spec(p, e) == Ok::<Seq<u8>, ReadError>(p.subrange(0, n)),
{
    let k = choose|k: int| #[trigger] ends_header(p, k) && forall|j: int| 0 <= j < k ==> !ends_header(p, j);
    assert(ends_header(p, k) && forall|j: int| 0 <= j < k ==> !ends_header(p, j));
    reveal(ends_header);
    if k < n {
        assert(ends_header(p, k));
        assert(k >= 1);
    } else if k > n {
        assert(n >= 1);
        assert(!ends_header(p, n));
    }
}

proof fn lemma_header_end_check(p: Seq<u8>, n: int, ls: int, found: bool)
    requires
        1 <= n <= p.len(),
        ls == line_start(p, n - 1),
        0 <= ls <= n - 1,
        found == (p[n - 1] == 0x0a && ls + 6 <= n && p[ls] == 0x23 && p[ls + 1] == 0x43 && p[ls + 2]
            == 0x48 && p[ls + 3] == 0x52 && p[ls + 4] == 0x4f && p[ls + 5] == 0x4d),
    ensures
        found == ends_header(p, n),
{
    reveal(ends_header);
    if found {
        assert(p.subrange(ls, ls + 6) =~= chrom_prefix());
    } else if ends_header(p, n) {
        let q = p.subrange(ls, ls + 6);
        assert(q == chrom_prefix());
        assert(q[0] == p[ls] && q[1] == p[ls + 1] && q[2] == p[ls + 2] && q[3] == p[ls + 3] && q[4]
            == p[ls + 4] && q[5] == p[ls + 5]);
    }
}

/// Whether `i` is the first position in `names` that holds `name`.
pub open spec fn first_named(names: Seq<Seq<char>>, name: Seq<char>, i: int) -> bool {
    &&& 0 <= i < names.len()
    &&& names[i] == name
    &&& forall|j: int| 0 <= j < i ==> names[j] != name
}

/// The names of a header's reference sequences, as text.
pub open spec fn name_views(names: Seq<String>) -> Seq<Seq<char>> {
    names.map_values(|n: String| n@)
}

/// Whether two strings hold the same characters.
fn same_text(a: &str, b: &str) -> (r: bool)
    ensures
        r == (a@ == b@),
{
    let n = a.unicode_len();
    if n != b.unicode_len() {
        return false;
    }
    let mut i: usize = 0;
    while i < n
        invariant
            n == a@.len(),
            n == b@.len(),
            i <= n,
            forall|j: int| 0 <= j < i ==> a@[j] == b@[j],
        decreases n - i,
    {
        if a.get_char(i) != b.get_char(i) {
            return false;
        }
        i = i + 1;
    }
    proof {
        assert(a@ =~= b@);
    }
    true
}

/// The id of the reference sequence named `name` among a header's reference
/// sequence names, in the order the header declares them.
///
/// Fails with `InvalidRegion` when no reference sequence has that name.
pub fn reference_sequence_id(names: &Vec<String>, name: &str) -> (r: Result<usize, ReadError>)
    ensures
        r matches Ok(i) ==> first_named(name_views(names@), name@, i as int),
        r is Err <==> forall|j: int| 0 <= j < names@.len() ==> names@[j]@ != name@,
        r is Err ==> r == Err::<usize, ReadError>(ReadError::InvalidRegion),
{
    let mut i: usize = 0;
    while i < names.len()
        invariant
            i <= names@.len(),
            forall|j: int| 0 <= j < i ==> names@[j]@ != name@,
        decreases names@.len() - i,
    {
        if same_text(names[i].as_str(), name) {
            return Ok(i);
        }
        i = i + 1;
    }
    Err(ReadError::InvalidRegion)
}

impl IndexedReader {
    /// The stream and index, whatever the format.
    pub open spec fn parts(&self) -> IndexedStream {
        match self {
            IndexedReader::Vcf(s) => *s,
            IndexedReader::Bcf(s) => *s,
        }
    }

    /// Whether this reads a BCF file.
    pub open spec fn is_bcf(&self) -> bool {
        self matches IndexedReader::Bcf(_)
    }

    /// Reads the header: for VCF, the lines up to and including the one
    /// that starts with `#CHROM`; for BCF, the header text after the magic
    /// number, version and length.
    pub fn read_header(&mut self) -> (r: Result<Vec<u8>, ReadError>)
        requires
            old(self).parts().wf(),
        ensures
            final(self).parts().wf(),
            final(self).is_bcf() == old(self).is_bcf(),
            final(self).parts().index_view() == old(self).parts().index_view(),
            ({
                let (p, e) = old(self).parts().reader_view().remaining();
                match (if old(self).is_bcf() {
                    bcf_header_spec(p, e)
                } else {
                    vcf_header_spec(p, e)
                }) {
                    Ok(t) => r matches Ok(v) && v@ == t,
                    Err(x) => r == Err::<Vec<u8>, ReadError>(x),
                }
            }),
    {
        match self {
            IndexedReader::Vcf(s) => s.read_vcf_header(),
            IndexedReader::Bcf(s) => s.read_bcf_header(),
        }
    }

    /// Reads the raw records from the current position to the end of the
    /// stream; see [`IndexedStream::read_records`].
    pub fn records(&mut self) -> (r: Result<Vec<Vec<u8>>, ReadError>)
        requires
            old(self).parts().wf(),
        ensures
            final(self).parts().wf(),
            final(self).is_bcf() == old(self).is_bcf(),
            final(self).parts().index_view() == old(self).parts().index_view(),
            ({
                let (p, e) = old(self).parts().reader_view().remaining();
                match records_spec(old(self).is_bcf(), p, e) {
                    Ok(recs) => r matches Ok(v) && v@.len() == recs.len() && forall|k: int|
                        0 <= k < v@.len() ==> #[trigger] v@[k]@ == recs[k],
                    Err(x) => r == Err::<Vec<Vec<u8>>, ReadError>(x),
                }
            }),
    {
        match self {
            IndexedReader::Vcf(s) => s.read_records(false),
            IndexedReader::Bcf(s) => s.read_records(true),
        }
    }

    /// Reads the chunks of the records that intersect `[start, end)` on the
    /// reference sequence named `name` among the header's reference
    /// sequence `names`.
    ///
    /// Fails with `InvalidRegion` when the header declares no reference
    /// sequence of that name; otherwise see [`IndexedStream::query`], with the
    /// id of the first reference sequence of that name.
    pub fn query_region(&mut self, names: &Vec<String>, name: &str, start: u64, end: u64) -> (r:
        Result<Vec<(Chunk, Vec<u8>)>, ReadError>)
        requires
            old(self).parts().wf(),
        ensures
            final(self).parts().wf(),
            final(self).is_bcf() == old(self).is_bcf(),
            final(self).parts().index_view() == old(self).parts().index_view(),
            (forall|j: int| 0 <= j < names@.len() ==> names@[j]@ != name@) <==> r == Err::<
                Vec<(Chunk, Vec<u8>)>,
                ReadError,
            >(ReadError::InvalidRegion),
            forall|i: int|
                #[trigger] first_named(name_views(names@), name@, i) ==> query_result(
                    old(self).parts(),
                    i as usize,
                    start,
                    end,
                    r,
                ),
    {
        let id = match reference_sequence_id(names, name) {
            Ok(i) => i,
            Err(e) => return Err(e),
        };
        proof {
            assert forall|i: int| #[trigger] first_named(name_views(names@), name@, i) implies i == id by {
                if i < id {
                    assert(name_views(names@)[i] == names@[i]@);
                } else if i > id {
                    assert(name_views(names@)[id as int] == names@[id as int]@);
                }
            }
            assert(name_views(names@)[id as int] == names@[id as int]@);
        }
        let r = self.query(id, start, end);
        proof {
            assert(r != Err::<Vec<(Chunk, Vec<u8>)>, ReadError>(ReadError::InvalidRegion));
        }
        r
    }

    /// Reads the chunks of the records of reference sequence `reference_id`
    /// that intersect `[start, end)`; see [`IndexedStream::query`].
    pub fn query(&mut self, reference_id: usize, start: u64, end: u64) -> (r: Result<
        Vec<(Chunk, Vec<u8>)>,
        ReadError,
    >)
        requires
            old(self).parts().wf(),
        ensures
            final(self).parts().wf(),
            final(self).is_bcf() == old(self).is_bcf(),
            final(self).parts().index_view() == old(self).parts().index_view(),
            query_result(old(self).parts(), reference_id, start, end, r),
    {
        match self {
            IndexedReader::Vcf(s) => s.query(reference_id, start, end),
            IndexedReader::Bcf(s) => s.query(reference_id, start, end),
        }
    }
}

/// What a query for `[start, end)` on reference sequence `reference_id`
/// returns from stream `s`. An unknown reference sequence gives
/// `InvalidReferenceSequenceId`. Otherwise the result is the chunks that the
/// index selects (as `Index::query` states them: in stream order, covering
/// every chunk that survives the selection, each starting and ending where a
/// selected chunk does, and covering every intersecting record where the
/// records were added in coordinate order), each with the bytes the stream
/// holds from its start up to its end; an empty interval gives no chunks.
/// A stream error comes only from a selected chunk that cannot be sought to,
/// or whose stream runs into that error before the chunk's end.
pub open spec fn query_result(
    s: IndexedStream,
    reference_id: usize,
    start: u64,
    end: u64,
    r: Result<Vec<(Chunk, Vec<u8>)>, ReadError>,
) -> bool {
    let index = s.index_view();
    let src = s.reader_view().source();
    let reference = index.references_view()[reference_id as int];
    let bins = reference.bins_view();
    let lin = reference.linear_view();
    &&& (reference_id >= index.references_view().len() <==> r == Err::<
        Vec<(Chunk, Vec<u8>)>,
        ReadError,
    >(ReadError::InvalidReferenceSequenceId))
    &&& reference_id < index.references_view().len() && end <= start ==> (r matches Ok(v) && v@.len()
        == 0)
    &&& reference_id < index.references_view().len() ==> (r is Ok || r is Err && r->Err_0 is Stream)
    &&& r matches Err(ReadError::Stream(x)) ==> exists|c: Chunk|
        #[trigger] chunk_fails(src, c, x) && start_kept(bins, lin, start, clamp_end(end), c)
            && end_kept(bins, lin, start, clamp_end(end), c)
    &&& r matches Ok(v) ==> {
        let chunks = v@.map_values(|x: (Chunk, Vec<u8>)| x.0);
        &&& separated(chunks)
        &&& all_valid(chunks)
        &&& (start < end && start < MAX_POSITION ==> forall|c: Chunk|
            #[trigger] kept(bins, lin, start, clamp_end(end), c) ==> covered(c, chunks))
        &&& forall|j: int|
            0 <= j < chunks.len() ==> #[trigger] start_kept(bins, lin, start, clamp_end(end), chunks[j])
        &&& forall|j: int|
            0 <= j < chunks.len() ==> #[trigger] end_kept(bins, lin, start, clamp_end(end), chunks[j])
        &&& reference.is_built() && coordinate_sorted(reference.records()) ==> forall|i: int|
            0 <= i < reference.records().len() && intersects(
                #[trigger] reference.records()[i].start as nat,
                reference.records()[i].end as nat,
                start as nat,
                end as nat,
            ) ==> covered(reference.records()[i].chunk, chunks)
        &&& forall|j: int| 0 <= j < v@.len() ==> #[trigger] read_from(src, v@[j])
    }
}

/// Whether reading chunk `c` of stream `src` fails with `x`: its start
/// cannot be sought to, or the stream runs into `x` before `c`'s end.
pub open spec fn chunk_fails(src: Seq<u8>, c: Chunk, x: StreamError) -> bool {
    ||| !seekable(src, c.start@) && x == StreamError::InvalidSeek
    ||| seekable(src, c.start@) && content_at(src, c.start@).1 == Some(x) && problem_before(
        src,
        Some(x),
        c.end@,
    )
}

/// Whether reading the first `n` bytes from chunk `c`'s start of stream `src`
/// reaches `c`'s end, or the clean end of the stream.
pub open spec fn stops_at_end(src: Seq<u8>, c: Chunk, n: int) -> bool {
    let (p, e) = content_at(src, c.start@);
    ||| n == p.len() && e is None
    ||| exists|st: Reader|
        #[trigger] st.source() == src && st.wf() && st.remaining() == (p.subrange(n, p.len() as int), e)
            && st.position() >= c.end@
}

/// Whether `bytes` is what the stream `src` holds from chunk `c`'s start up
/// to `c`'s end, or up to the clean end of the stream before it: the reading
/// stops at the first point at or past the end, its last byte read from
/// before the end.
pub open spec fn read_from(src: Seq<u8>, x: (Chunk, Vec<u8>)) -> bool {
    let (c, bytes) = x;
    let (p, e) = content_at(src, c.start@);
    &&& seekable(src, c.start@)
    &&& bytes@.len() <= p.len()
    &&& bytes@ == p.subrange(0, bytes@.len() as int)
    &&& stops_at_end(src, c, bytes@.len() as int)
    &&& bytes@.len() > 0 ==> stands_before(src, p.subrange(bytes@.len() - 1, p.len() as int), e, c.end@)
}

impl IndexedStream {
    /// Reads the header of a BCF stream: checks the magic number and
    /// version, then reads the length-prefixed header text.
    pub fn read_bcf_header(&mut self) -> (r: Result<Vec<u8>, ReadError>)
        requires
            old(self).wf(),
        ensures
            final(self).wf(),
            final(self).index_view() == old(self).index_view(),
            ({
                let (p, e) = old(self).reader_view().remaining();
                &&& match bcf_header_spec(p, e) {
                    Ok(t) => r matches Ok(v) && v@ == t,
                    Err(x) => r == Err::<Vec<u8>, ReadError>(x),
                }
                &&& r is Ok ==> final(self).reader_view().remaining() == (p.subrange(
                    9 + r->Ok_0@.len() as int,
                    p.len() as int,
                ), e)
            }),
    {
        let ghost p = self.reader.remaining().0;
        let ghost e = self.reader.remaining().1;
        let magic = match self.reader.read(5) {
            Ok(v) => v,
            Err(x) => return Err(ReadError::Stream(x)),
        };
        if magic.len() < 5 {
            return Err(ReadError::InvalidHeader);
        }
        let expected = crate::bcf::file_format();
        if !(magic[0] == expected[0] && magic[1] == expected[1] && magic[2] == expected[2]
            && magic[3] == expected[3] && magic[4] == expected[4]) {
            proof {
                assert(p.subrange(0, 5) != file_format_spec()) by {
                    if p.subrange(0, 5) == file_format_spec() {
                        assert(magic@ =~= expected@);
                    }
                }
            }
            return Err(ReadError::InvalidHeader);
        }
        proof {
            assert(p.subrange(0, 5) =~= file_format_spec());
        }
        let len_bytes = match self.reader.read(4) {
            Ok(v) => v,
            Err(x) => return Err(ReadError::Stream(x)),
        };
        if len_bytes.len() < 4 {
            return Err(ReadError::InvalidHeader);
        }
        let n = len_bytes[0] as u32 + 256 * (len_bytes[1] as u32) + 65536 * (len_bytes[2] as u32)
            + 16777216 * (len_bytes[3] as u32);
        proof {
            assert(len_bytes@ =~= p.subrange(5, 9));
        }
        let text = match self.reader.read(n as usize) {
            Ok(v) => v,
            Err(x) => return Err(ReadError::Stream(x)),
        };
        if text.len() < n as usize {
            return Err(ReadError::InvalidHeader);
        }
        proof {
            assert(text@ =~= p.subrange(9, 9 + n as int));
            assert(self.reader.remaining().0 =~= p.subrange(9 + n as int, p.len() as int));
        }
        Ok(text)
    }

    /// Reads the header of a VCF stream: every line up to and including the
    /// first one that starts with `#CHROM`.
    pub fn read_vcf_header(&mut self) -> (r: Result<Vec<u8>, ReadError>)
        requires
            old(self).wf(),
        ensures
            final(self).wf(),
            final(self).index_view() == old(self).index_view(),
            ({
                let (p, e) = old(self).reader_view().remaining();
                &&& match vcf_header_spec(p, e) {
                    Ok(t) => r matches Ok(v) && v@ == t,
                    Err(x) => r == Err::<Vec<u8>, ReadError>(x),
                }
                &&& r is Ok ==> final(self).reader_view().remaining() == (p.subrange(
                    r->Ok_0@.len() as int,
                    p.len() as int,
                ), e)
            }),
    {
        let ghost p = self.reader.remaining().0;
        let ghost e = self.reader.remaining().1;
        let mut out: Vec<u8> = Vec::new();
        let mut ls: usize = 0;
        proof {
            assert(p.subrange(0, 0) =~= out@);
            assert(p.subrange(0, p.len() as int) =~= p);
            reveal(line_start);
            reveal(ends_header);
        }
        loop
            invariant
                self.reader.wf(),
                self.index == old(self).index,
                self.index.wf(),
                p == old(self).reader.remaining().0,
                e == old(self).reader.remaining().1,
                out@.len() <= p.len(),
                out@ == p.subrange(0, out@.len() as int),
                self.reader.remaining() == (p.subrange(out@.len() as int, p.len() as int), e),
                ls <= out@.len(),
                ls == line_start(p, out@.len() as int),
                forall|j: int| 0 <= j <= out@.len() ==> !#[trigger] ends_header(p, j),
            decreases p.len() - out@.len(),
        {
            let ghost i = out@.len() as int;
            let v = match self.reader.read(1) {
                Ok(v) => v,
                Err(x) => {
                    proof {
                        lemma_no_header_end(p, e);
                    }
                    return Err(ReadError::Stream(x));
                },
            };
            if v.len() == 0 {
                proof {
                    lemma_no_header_end(p, e);
                }
                return Err(ReadError::InvalidHeader);
            }
            let b = v[0];
            out.push(b);
            proof {
                assert(p[i] == b);
                assert(out@ =~= p.subrange(0, i + 1));
                assert(self.reader.remaining().0 =~= p.subrange(i + 1, p.len() as int));
            }
            let n = out.len();
            let found = b == 0x0a && n - ls >= 6 && out[ls] == 0x23 && out[ls + 1] == 0x43 && out[ls
                + 2] == 0x48 && out[ls + 3] == 0x52 && out[ls + 4] == 0x4f && out[ls + 5] == 0x4d;
            proof {
                lemma_line_start_step(p, n as int);
                lemma_header_end_check(p, n as int, ls as int, found);
            }
            if found {
                proof {
                    lemma_first_header_end(p, e, n as int);
                }
                return Ok(out);
            }
            if b == 0x0a {
                ls = n;
            }
        }
    }

    /// Reads the raw records from the current position to the end of the
    /// stream: the lines of a VCF stream, or the length-framed records of a
    /// BCF stream.
    pub fn read_records(&mut self, bcf: bool) -> (r: Result<Vec<Vec<u8>>, ReadError>)
        requires
            old(self).wf(),
        ensures
            final(self).wf(),
            final(self).index_view() == old(self).index_view(),
            ({
                let (p, e) = old(self).reader_view().remaining();
                match records_spec(bcf, p, e) {
                    Ok(recs) => r matches Ok(v) && v@.len() == recs.len() && forall|k: int|
                        0 <= k < v@.len() ==> #[trigger] v@[k]@ == recs[k],
                    Err(x) => r == Err::<Vec<Vec<u8>>, ReadError>(x),
                }
            }),
    {
        let content = match self.reader.read_to_end() {
            Ok(c) => c,
            Err(x) => return Err(ReadError::Stream(x)),
        };
        if bcf {
            match split_bcf_records(&content) {
                Some(v) => Ok(v),
                None => Err(ReadError::InvalidRecord),
            }
        } else {
            Ok(split_lines(&content))
        }
    }

    /// Reads the chunks of the records of reference sequence `reference_id`
    /// that intersect `[start, end)`.
    ///
    /// Returns each chunk that the index selects, in stream order, with the
    /// bytes read from its start up to its end. Fails when no reference
    /// sequence has that id or when a chunk cannot be read.
    pub fn query(&mut self, reference_id: usize, start: u64, end: u64) -> (r: Result<
        Vec<(Chunk, Vec<u8>)>,
        ReadError,
    >)
        requires
            old(self).wf(),
        ensures
            final(self).wf(),
            final(self).index_view() == old(self).index_view(),
            query_result(*old(self), reference_id, start, end, r),
    {
        let chunks = match self.index.query(reference_id, start, end) {
            Ok(c) => c,
            Err(_) => return Err(ReadError::InvalidReferenceSequenceId),
        };
        let ghost src = self.reader.source();
        let mut out: Vec<(Chunk, Vec<u8>)> = Vec::new();
        let mut i: usize = 0;
        while i < chunks.len()
            invariant
                self.reader.wf(),
                self.index == old(self).index,
                self.index.wf(),
                reference_id < self.index.references_view().len(),
                self.reader.source() == src,
                src == old(self).reader.source(),
                i <= chunks@.len(),
                out@.len() == i,
                forall|j: int| 0 <= j < i ==> #[trigger] out@[j].0 == chunks@[j],
                forall|j: int| 0 <= j < i ==> #[trigger] read_from(src, out@[j]),
                end <= start ==> chunks@.len() == 0,
                forall|j: int|
                    0 <= j < chunks@.len() ==> #[trigger] start_kept(
                        old(self).index.references_view()[reference_id as int].bins_view(),
                        old(self).index.references_view()[reference_id as int].linear_view(),
                        start,
                        clamp_end(end),
                        chunks@[j],
                    ),
                forall|j: int|
                    0 <= j < chunks@.len() ==> #[trigger] end_kept(
                        old(self).index.references_view()[reference_id as int].bins_view(),
                        old(self).index.references_view()[reference_id as int].linear_view(),
                        start,
                        clamp_end(end),
                        chunks@[j],
                    ),
            decreases chunks@.len() - i,
        {
            let c = chunks[i];
            match self.reader.read_chunk(c) {
                Ok(bytes) => {
                    let ghost prev = out@;
                    proof {
                        let st = self.reader;
                        assert(st.source() == src);
                        assert(stops_at_end(src, c, bytes@.len() as int));
                    }
                    out.push((c, bytes));
                    proof {
                        assert(read_from(src, out@[i as int]));
                        assert forall|j: int| 0 <= j < i + 1 implies #[trigger] read_from(src, out@[j]) by {
                            if j < i {
                                assert(out@[j] == prev[j]);
                            }
                        }
                    }
                },
                Err(e) => {
                    proof {
                        assert(c == chunks@[i as int]);
                        assert(chunk_fails(src, c, e));
                        assert(start_kept(
                            old(self).index.references_view()[reference_id as int].bins_view(),
                            old(self).index.references_view()[reference_id as int].linear_view(),
                            start,
                            clamp_end(end),
                            chunks@[i as int],
                        ));
                        assert(end_kept(
                            old(self).index.references_view()[reference_id as int].bins_view(),
                            old(self).index.references_view()[reference_id as int].linear_view(),
                            start,
                            clamp_end(end),
                            chunks@[i as int],
                        ));
                        let rr = Err::<Vec<(Chunk, Vec<u8>)>, ReadError>(ReadError::Stream(e));
                        assert(old(self).index_view() == old(self).index);
                        assert(old(self).reader_view().source() == src);
                        assert(reference_id < old(self).index_view().references_view().len());
                        assert(rr matches Err(ReadError::Stream(x)) ==> exists|cc: Chunk|
                            #[trigger] chunk_fails(src, cc, x) && start_kept(
                                old(self).index.references_view()[reference_id as int].bins_view(),
                                old(self).index.references_view()[reference_id as int].linear_view(),
                                start,
                                clamp_end(end),
                                cc,
                            ) && end_kept(
                                old(self).index.references_view()[reference_id as int].bins_view(),
                                old(self).index.references_view()[reference_id as int].linear_view(),
                                start,
                                clamp_end(end),
                                cc,
                            ));
                    }
                    return Err(ReadError::Stream(e));
                },
            }
            i = i + 1;
        }
        proof {
            assert(out@.map_values(|x: (Chunk, Vec<u8>)| x.0) =~= chunks@);
        }
        Ok(out)
    }
}

} // verus!
