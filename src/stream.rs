//! Block-compressed streams: a reader over the bytes of a stream that tracks
//! its virtual position and can seek to one, and a writer that cuts what it
//! is given into blocks and ends the stream with an end-of-file marker.

use vstd::prelude::*;
use vstd::slice::slice_subrange;

use crate::block::{
    decode_block, decode_spec, deflate_of, encode_block, encoded, push_all, BlockError, HEADER_LEN,
    MAX_BLOCK_LEN, MAX_ENCODE_LEN, TRAILER_LEN,
};
use crate::virtual_position::{compose, VirtualPosition, MAX_COMPRESSED};

verus! {

/// Why a stream could not be read or written.
#[derive(Clone, Copy, Debug, PartialEq, Eq, Structural)]
pub enum StreamError {
    /// A block is malformed.
    Block(BlockError),
    /// The stream ends without an end-of-file marker.
    Truncated,
    /// The position does not name a block and an offset within it.
    InvalidSeek,
    /// The stream has already been finished.
    Finished,
    /// The stream has grown past what a virtual position can address.
    PositionOverflow,
}

/// What reading the stream `s` from its start gives: the decompressed bytes
/// up to the first problem, and that problem, or `None` where the stream ends
/// with an end-of-file marker. Empty blocks before the last one are skipped.
pub open spec fn stream(s: Seq<u8>) -> (Seq<u8>, Option<StreamError>)
    decreases s.len(),
{
    if s.len() == 0 {
        (Seq::empty(), Some(StreamError::Truncated))
    } else {
        match decode_spec(s) {
            Err(e) => (Seq::empty(), Some(StreamError::Block(e))),
            Ok((d, n)) => if d.len() == 0 && n == s.len() {
                (Seq::empty(), None)
            } else if 0 < n <= s.len() {
                let rest = stream(s.subrange(n as int, s.len() as int));
                (d + rest.0, rest.1)
            } else {
                (Seq::empty(), Some(StreamError::Truncated))
            },
        }
    }
}

/// A block that decodes is a prefix of what it was read from.
proof fn lemma_decode_len(b: Seq<u8>)
    requires
        decode_spec(b) is Ok,
    ensures
        26 <= decode_spec(b)->Ok_0.1 <= b.len(),
{
}

/// What follows a block does not change how the block decodes.
proof fn lemma_decode_prefix(b: Seq<u8>, t: Seq<u8>)
    requires
        decode_spec(b) is Ok,
    ensures
        decode_spec(b + t) == decode_spec(b),
{
    let s = b + t;
    let n = crate::block::declared_len(b) as int;
    assert(crate::block::declared_len(s) == n);
    assert(s.subrange(18, n - 8) =~= b.subrange(18, n - 8));
}

/// Reading a stream of whole blocks with no end-of-file marker, followed by
/// more bytes, reads the blocks and then the bytes.
proof fn lemma_stream_append(s: Seq<u8>, t: Seq<u8>)
    requires
        stream(s).1 == Some(StreamError::Truncated),
    ensures
        stream(s + t) == ((stream(s).0 + stream(t).0), stream(t).1),
    decreases s.len(),
{
    if s.len() == 0 {
        assert(s + t =~= t);
        assert(stream(s).0 + stream(t).0 =~= stream(t).0);
    } else if t.len() == 0 {
        assert(s + t =~= s);
        assert(stream(s).0 + stream(t).0 =~= stream(s).0);
    } else {
        lemma_decode_len(s);
        let (d, n) = decode_spec(s)->Ok_0;
        lemma_decode_prefix(s, t);
        let rest = s.subrange(n as int, s.len() as int);
        assert((s + t).subrange(n as int, (s + t).len() as int) =~= rest + t);
        lemma_stream_append(rest, t);
        assert(d + (stream(rest).0 + stream(t).0) =~= (d + stream(rest).0) + stream(t).0);
    }
}

/// A single block read as a stream: an empty one ends the stream cleanly,
/// another one leaves it without an end-of-file marker.
proof fn lemma_stream_one(b: Seq<u8>)
    requires
        decode_spec(b) matches Ok((_, n)) && n == b.len(),
    ensures
        decode_spec(b)->Ok_0.0.len() == 0 ==> stream(b) == (Seq::<u8>::empty(), None::<StreamError>),
        decode_spec(b)->Ok_0.0.len() > 0 ==> stream(b) == (decode_spec(b)->Ok_0.0, Some(StreamError::Truncated)),
{
    let d = decode_spec(b)->Ok_0.0;
    assert(b.subrange(b.len() as int, b.len() as int) =~= Seq::<u8>::empty());
    assert(stream(Seq::<u8>::empty()) == (Seq::<u8>::empty(), Some(StreamError::Truncated)));
    assert(d + Seq::<u8>::empty() =~= d);
}

/// Appending an end-of-file marker to a stream of whole blocks makes it end
/// cleanly: reading past the last data gives end of stream, not an error.
pub proof fn lemma_eof_ends_stream(s: Seq<u8>, eof: Seq<u8>)
    requires
        stream(s).1 == Some(StreamError::Truncated),
        decode_spec(eof) == Ok::<(Seq<u8>, nat), BlockError>((Seq::empty(), eof.len())),
    ensures
        stream(s + eof) == (stream(s).0, None::<StreamError>),
{
    lemma_stream_one(eof);
    lemma_stream_append(s, eof);
    assert(stream(s).0 + Seq::<u8>::empty() =~= stream(s).0);
}

/// A stream that stops after a block that holds data, with no end-of-file
/// marker, reads as truncated.
pub proof fn lemma_truncated_stream(s: Seq<u8>, b: Seq<u8>, d: Seq<u8>)
    requires
        stream(s).1 == Some(StreamError::Truncated),
        decode_spec(b) == Ok::<(Seq<u8>, nat), BlockError>((d, b.len())),
        d.len() > 0,
    ensures
        stream(s + b) == (stream(s).0 + d, Some(StreamError::Truncated)),
{
    lemma_stream_one(b);
    lemma_stream_append(s, b);
}

/// Whether a reader over `src` can seek to virtual position `pos`: a valid
/// block starts at its compressed offset and holds at least its
/// uncompressed offset of bytes.
pub open spec fn seekable(src: Seq<u8>, pos: u64) -> bool {
    let c = crate::virtual_position::compressed_of(pos) as int;
    let u = crate::virtual_position::uncompressed_of(pos) as int;
    c < src.len() && (decode_spec(src.subrange(c, src.len() as int)) matches Ok((d, _)) && u <= d.len())
}

/// What is left to read after seeking to `pos`: the stream from the block at
/// its compressed offset on, less the bytes before its uncompressed offset.
pub open spec fn content_at(src: Seq<u8>, pos: u64) -> (Seq<u8>, Option<StreamError>) {
    let c = crate::virtual_position::compressed_of(pos) as int;
    let u = crate::virtual_position::uncompressed_of(pos) as int;
    let st = stream(src.subrange(c, src.len() as int));
    (st.0.subrange(u, st.0.len() as int), st.1)
}

/// Whether a reader of `src` can stand before virtual position `end` with
/// nothing left to read but the problem `e`: reading from before `end` runs
/// into `e` before reaching `end`.
pub open spec fn problem_before(src: Seq<u8>, e: Option<StreamError>, end: u64) -> bool {
    exists|st: Reader|
        #[trigger] st.source() == src && st.wf() && st.remaining() == (Seq::<u8>::empty(), e)
            && st.position() < end
}

/// Whether a reader of `src` can stand before virtual position `end` with
/// `rest` and then the problem `e` left to read.
pub open spec fn stands_before(src: Seq<u8>, rest: Seq<u8>, e: Option<StreamError>, end: u64) -> bool {
    exists|st: Reader|
        #[trigger] st.source() == src && st.wf() && st.remaining() == (rest, e) && st.position() < end
}

/// A reader of a block-compressed stream held in memory.
pub struct Reader {
    src: Vec<u8>,
    block_start: usize,
    block_len: usize,
    data: Vec<u8>,
    cursor: usize,
    eof: bool,
}

impl Reader {
    /// The bytes of the stream.
    pub closed spec fn source(&self) -> Seq<u8> {
        self.src@
    }

    /// Where the block after the current one starts.
    pub closed spec fn next_block(&self) -> int {
        self.block_start + self.block_len
    }

    /// What is left to read: the decompressed bytes up to the first problem,
    /// and that problem, or `None` where the stream ends cleanly.
    pub closed spec fn remaining(&self) -> (Seq<u8>, Option<StreamError>) {
        if self.eof {
            (Seq::empty(), None)
        } else {
            let rest = stream(self.src@.subrange(self.next_block(), self.src@.len() as int));
            (self.data@.subrange(self.cursor as int, self.data@.len() as int) + rest.0, rest.1)
        }
    }

    /// The position of the next byte to read.
    pub closed spec fn position(&self) -> int {
        if self.cursor < self.data@.len() {
            compose(self.block_start as u64, self.cursor as u64)
        } else {
            compose(self.next_block() as u64, 0)
        }
    }

    /// The reader's invariant.
    pub closed spec fn wf(&self) -> bool {
        &&& self.src@.len() <= MAX_COMPRESSED
        &&& self.block_start + self.block_len <= self.src@.len()
        &&& self.cursor <= self.data@.len() <= 65536
        &&& self.eof ==> self.data@.len() == 0 && self.cursor == 0
    }

    /// A reader at the start of the stream `src`.
    pub fn new(src: Vec<u8>) -> (r: Reader)
        requires
            src@.len() <= MAX_COMPRESSED,
        ensures
            r.wf(),
            r.source() == src@,
            r.remaining() == stream(src@),
            r.position() == 0,
    {
        let r = Reader { src, block_start: 0, block_len: 0, data: Vec::new(), cursor: 0, eof: false };
        proof {
            assert(r.src@.subrange(0, r.src@.len() as int) =~= r.src@);
            assert(r.data@.subrange(0, 0) + stream(r.src@).0 =~= stream(r.src@).0);
        }
        r
    }

    /// The virtual position of the next byte to read: the current block and
    /// the offset in it, or the start of the next block once the current one
    /// has been read through.
    pub fn virtual_position(&self) -> (r: VirtualPosition)
        requires
            self.wf(),
        ensures
            r@ == self.position(),
    {
        let total = self.src.len();
        if self.cursor < self.data.len() {
            VirtualPosition::new(self.block_start as u64, self.cursor as u64).unwrap()
        } else {
            VirtualPosition::new((self.block_start + self.block_len) as u64, 0).unwrap()
        }
    }

    /// Moves to virtual position `pos`.
    ///
    /// Succeeds when a valid block starts at the position's compressed offset
    /// and the uncompressed offset is within that block's payload; what is left
    /// to read is then the stream from that block on, less the first bytes up
    /// to the offset. Fails otherwise and leaves the reader as it was.
    pub fn seek(&mut self, pos: VirtualPosition) -> (r: Result<(), StreamError>)
        requires
            old(self).wf(),
        ensures
            final(self).wf(),
            final(self).source() == old(self).source(),
            ({
                let c = crate::virtual_position::compressed_of(pos@) as int;
                let u = crate::virtual_position::uncompressed_of(pos@) as int;
                let tail = old(self).source().subrange(c, old(self).source().len() as int);
                let ok = c < old(self).source().len() && (decode_spec(tail) matches Ok((d, _)) && u <= d.len());
                &&& r is Ok <==> ok
                &&& r is Err ==> r == Err::<(), StreamError>(StreamError::InvalidSeek) && *final(self) == *old(self)
                &&& r is Ok ==> final(self).remaining() == (stream(tail).0.subrange(u, stream(tail).0.len() as int), stream(tail).1)
            }),
    {
        let c = pos.compressed();
        let u = pos.uncompressed();
        let total = self.src.len();
        if c >= total as u64 {
            return Err(StreamError::InvalidSeek);
        }
        let c = c as usize;
        let slice = slice_subrange(self.src.as_slice(), c, total);
        match decode_block(slice) {
            Err(_) => Err(StreamError::InvalidSeek),
            Ok(blk) => {
                if u > blk.data.len() as u64 {
                    return Err(StreamError::InvalidSeek);
                }
                let ghost tail = self.src@.subrange(c as int, total as int);
                proof {
                    lemma_decode_len(tail);
                    assert(self.src@.subrange(c + blk.len, total as int) =~= tail.subrange(blk.len as int, tail.len() as int));
                }
                let at_end = blk.data.len() == 0 && c + blk.len == total;
                self.block_start = c;
                self.block_len = blk.len;
                self.data = blk.data;
                self.cursor = u as usize;
                self.eof = at_end;
                proof {
                    let st = stream(tail);
                    if !at_end {
                        let rest = stream(tail.subrange(blk.len as int, tail.len() as int));
                        assert(st.0 == self.data@ + rest.0);
                        assert(st.0.subrange(u as int, st.0.len() as int) =~= self.data@.subrange(u as int, self.data@.len() as int) + rest.0);
                    } else {
                        assert(st.0.subrange(u as int, st.0.len() as int) =~= Seq::<u8>::empty());
                    }
                }
                Ok(())
            },
        }
    }

    /// Reads the bytes of a chunk: seeks to its start, then reads until the
    /// virtual position reaches or passes its end, or the stream ends.
    ///
    /// Fails where the start cannot be sought to, or where a problem in the
    /// stream comes before the end of the chunk.
    pub fn read_chunk(&mut self, chunk: crate::chunk::Chunk) -> (r: Result<Vec<u8>, StreamError>)
        requires
            old(self).wf(),
        ensures
            final(self).wf(),
            final(self).source() == old(self).source(),
            !seekable(old(self).source(), chunk.start@) ==> r == Err::<Vec<u8>, StreamError>(
                StreamError::InvalidSeek,
            ),
            seekable(old(self).source(), chunk.start@) ==> {
                let (p, e) = content_at(old(self).source(), chunk.start@);
                &&& r matches Err(x) ==> e == Some(x) && problem_before(
                    old(self).source(),
                    e,
                    chunk.end@,
                )
                &&& r matches Ok(v) ==> {
                    &&& v@.len() <= p.len()
                    &&& v@ == p.subrange(0, v@.len() as int)
                    &&& final(self).remaining() == (p.subrange(v@.len() as int, p.len() as int), e)
                    &&& final(self).position() >= chunk.end@ || (v@.len() == p.len() && e is None)
                    &&& v@.len() > 0 ==> stands_before(
                        old(self).source(),
                        p.subrange(v@.len() - 1, p.len() as int),
                        e,
                        chunk.end@,
                    )
                }
            },
    {
        let sought = self.seek(chunk.start);
        if sought.is_err() {
            return Err(StreamError::InvalidSeek);
        }
        let ghost p = self.remaining().0;
        let ghost e = self.remaining().1;
        let mut out: Vec<u8> = Vec::new();
        proof {
            assert(out@ + p =~= p);
        }
        while self.virtual_position().0 < chunk.end.0
            invariant
                out@.len() > 0 ==> stands_before(
                    old(self).src@,
                    p.subrange(out@.len() - 1, p.len() as int),
                    e,
                    chunk.end@,
                ),
                self.wf(),
                self.src@ == old(self).src@,
                out@ + self.remaining().0 == p,
                self.remaining().1 == e,
                seekable(old(self).src@, chunk.start@),
                p == content_at(old(self).src@, chunk.start@).0,
                e == content_at(old(self).src@, chunk.start@).1,
            ensures
                self.wf(),
                self.src@ == old(self).src@,
                out@ + self.remaining().0 == p,
                self.remaining().1 == e,
                self.position() >= chunk.end@ || (self.remaining().0.len() == 0 && e is None),
                out@.len() > 0 ==> stands_before(
                    old(self).src@,
                    p.subrange(out@.len() - 1, p.len() as int),
                    e,
                    chunk.end@,
                ),
                seekable(old(self).src@, chunk.start@),
                p == content_at(old(self).src@, chunk.start@).0,
                e == content_at(old(self).src@, chunk.start@).1,
            decreases self.remaining().0.len(),
        {
            let ghost before = self.remaining().0;
            let ghost before_state = *self;
            let b = self.read(1);
            match b {
                Err(x) => {
                    proof {
                        assert(before_state.remaining() == (Seq::<u8>::empty(), e));
                        assert(before_state.source() == old(self).source());
                    }
                    return Err(x);
                },
                Ok(v) => {
                    if v.len() == 0 {
                        break;
                    }
                    out.push(v[0]);
                    proof {
                        assert(out@ + self.remaining().0 =~= p) by {
                            assert(before =~= seq![v@[0]] + self.remaining().0);
                        }
                        assert(p.subrange(out@.len() - 1, p.len() as int) =~= before);
                        assert(before_state.source() == old(self).src@);
                        assert(before_state.remaining() == (before, e));
                    }
                },
            }
        }
        proof {
            assert(p.subrange(0, out@.len() as int) =~= out@);
            assert(p.subrange(out@.len() as int, p.len() as int) =~= self.remaining().0);
        }
        Ok(out)
    }

    /// Reads everything that is left, up to the end of the stream.
    ///
    /// Fails with the stream's problem where it has one before its end.
    pub fn read_to_end(&mut self) -> (r: Result<Vec<u8>, StreamError>)
        requires
            old(self).wf(),
        ensures
            final(self).wf(),
            final(self).source() == old(self).source(),
            ({
                let (p, e) = old(self).remaining();
                match e {
                    None => r matches Ok(v) && v@ == p && final(self).remaining() == (
                    Seq::<u8>::empty(), None::<StreamError>),
                    Some(x) => r == Err::<Vec<u8>, StreamError>(x),
                }
            }),
    {
        let ghost p = self.remaining().0;
        let ghost e = self.remaining().1;
        let mut out: Vec<u8> = Vec::new();
        proof {
            assert(out@ + p =~= p);
        }
        loop
            invariant
                self.wf(),
                self.src@ == old(self).src@,
                out@ + self.remaining().0 == p,
                self.remaining().1 == e,
                p == old(self).remaining().0,
                e == old(self).remaining().1,
            decreases self.remaining().0.len(),
        {
            let ghost before = self.remaining().0;
            let v = match self.read(65536) {
                Ok(v) => v,
                Err(x) => return Err(x),
            };
            if v.len() == 0 {
                proof {
                    assert(out@ =~= p);
                }
                return Ok(out);
            }
            proof {
                assert(before =~= v@ + self.remaining().0);
            }
            push_all(&mut out, v.as_slice());
            proof {
                assert(out@ + self.remaining().0 =~= p);
            }
        }
    }

    /// Reads up to `n` bytes.
    ///
    /// Returns `n` bytes where that many remain before the first problem; fewer
    /// only where the stream ends cleanly first (none once it has ended); and
    /// the problem where it comes before `n` bytes.
    pub fn read(&mut self, n: usize) -> (r: Result<Vec<u8>, StreamError>)
        requires
            old(self).wf(),
        ensures
            final(self).wf(),
            final(self).source() == old(self).source(),
            ({
                let (p, e) = old(self).remaining();
                if n <= p.len() {
                    r matches Ok(v) && v@ == p.subrange(0, n as int) && final(self).remaining() == (
                    p.subrange(n as int, p.len() as int), e)
                } else if e is None {
                    r matches Ok(v) && v@ == p && final(self).remaining() == (Seq::<u8>::empty(), None::<StreamError>)
                } else {
                    r == Err::<Vec<u8>, StreamError>(e->Some_0)
                }
            }),
    {
        let ghost p = self.remaining().0;
        let ghost e = self.remaining().1;
        let mut out: Vec<u8> = Vec::new();
        while out.len() < n
            invariant
                self.wf(),
                self.src@ == old(self).src@,
                out@.len() <= n,
                out@ + self.remaining().0 == p,
                self.remaining().1 == e,
                p == old(self).remaining().0,
                e == old(self).remaining().1,
            ensures
                self.wf(),
                self.src@ == old(self).src@,
                out@.len() <= n,
                out@ + self.remaining().0 == p,
                self.remaining().1 == e,
                out@.len() == n || (self.eof && self.cursor >= self.data@.len()),
                p == old(self).remaining().0,
                e == old(self).remaining().1,
            decreases n - out@.len(), self.src@.len() - self.next_block(), self.data@.len() - self.cursor,
        {
            if self.cursor < self.data.len() {
                let ghost before = self.remaining().0;
                out.push(self.data[self.cursor]);
                self.cursor = self.cursor + 1;
                proof {
                    if !self.eof {
                        let rest = stream(self.src@.subrange(self.next_block(), self.src@.len() as int));
                        assert(self.data@.subrange(self.cursor - 1, self.data@.len() as int) =~= seq![self.data@[self.cursor - 1]] + self.data@.subrange(self.cursor as int, self.data@.len() as int));
                    }
                    assert(out@ + self.remaining().0 =~= p);
                }
            } else if self.eof {
                break;
            } else {
                let total = self.src.len();
                let next = self.block_start + self.block_len;
                let ghost tail = self.src@.subrange(next as int, self.src@.len() as int);
                if next >= total {
                    proof {
                        assert(tail =~= Seq::<u8>::empty());
                        assert(stream(tail) == (Seq::<u8>::empty(), Some(StreamError::Truncated)));
                        assert(self.data@.subrange(self.cursor as int, self.data@.len() as int) =~= Seq::<u8>::empty());
                        assert(self.remaining().0 =~= Seq::<u8>::empty());
                        assert(out@ =~= p);
                        assert(e == Some(StreamError::Truncated));
                        assert(p == old(self).remaining().0);
                        assert(e == old(self).remaining().1);
                        assert(n > p.len());
                    }
                    return Err(StreamError::Truncated);
                }
                let slice = slice_subrange(self.src.as_slice(), next, self.src.len());
                match decode_block(slice) {
                    Err(be) => {
                        proof {
                            assert(self.data@.subrange(self.cursor as int, self.data@.len() as int) =~= Seq::<u8>::empty());
                            assert(stream(tail) == (Seq::<u8>::empty(), Some(StreamError::Block(be))));
                            assert(self.remaining().0 =~= Seq::<u8>::empty());
                            assert(out@ =~= p);
                            assert(e == Some(StreamError::Block(be)));
                        }
                        return Err(StreamError::Block(be));
                    },
                    Ok(blk) => {
                        proof {
                            lemma_decode_len(tail);
                            assert(self.data@.subrange(self.cursor as int, self.data@.len() as int) =~= Seq::<u8>::empty());
                            assert(self.src@.subrange(next + blk.len, self.src@.len() as int) =~= tail.subrange(blk.len as int, tail.len() as int));
                        }
                        let at_end = blk.data.len() == 0 && next + blk.len == self.src.len();
                        self.block_start = next;
                        self.block_len = blk.len;
                        self.data = blk.data;
                        self.cursor = 0;
                        self.eof = at_end;
                        proof {
                            assert(self.data@.subrange(0, self.data@.len() as int) =~= self.data@);
                        }
                    },
                }
            }
        }
        proof {
            if out@.len() < n {
                assert(self.remaining().0 =~= Seq::<u8>::empty());
                assert(out@ =~= p);
            } else {
                assert(out@ =~= p.subrange(0, n as int));
                assert(self.remaining().0 =~= p.subrange(n as int, p.len() as int));
            }
        }
        Ok(out)
    }
}

/// Whether the DEFLATE form of block payload `p` is too large for a block.
pub open spec fn payload_too_large(p: Seq<u8>) -> bool {
    deflate_of(p).len() + HEADER_LEN + TRAILER_LEN > MAX_BLOCK_LEN
}

/// Whether appending the block for payload `p` to an output of `n` bytes
/// grows it past what a virtual position can address.
pub open spec fn output_overflows(n: nat, p: Seq<u8>) -> bool {
    n + encoded(p).len() > MAX_COMPRESSED
}

/// A writer of a block-compressed stream.
///
/// It gathers what it is given into blocks and keeps the compressed bytes
/// until they are taken, to be written to the underlying sink `W`.
pub struct Writer<W> {
    inner: W,
    buf: Vec<u8>,
    pending: Vec<u8>,
    position: u64,
    finished: bool,
    flushed: Ghost<Seq<u8>>,
    emitted: Ghost<Seq<u8>>,
    taken: Ghost<Seq<u8>>,
}

impl<W> Writer<W> {
    /// Every uncompressed byte given to the writer so far.
    pub closed spec fn written(&self) -> Seq<u8> {
        self.flushed@ + self.buf@
    }

    /// Every compressed byte the writer has produced so far.
    pub closed spec fn output(&self) -> Seq<u8> {
        self.emitted@
    }

    /// The compressed bytes produced but not yet taken.
    pub closed spec fn pending_view(&self) -> Seq<u8> {
        self.pending@
    }

    /// Whether the stream has been finished.
    pub closed spec fn is_finished(&self) -> bool {
        self.finished
    }

    /// The underlying sink.
    pub closed spec fn inner_view(&self) -> W {
        self.inner
    }

    /// The writer's invariant: its output is a stream of whole blocks that
    /// reads back as what has been flushed, with no end-of-file marker until
    /// the stream is finished and with one after.
    pub closed spec fn wf(&self) -> bool {
        &&& self.emitted@ == self.taken@ + self.pending@
        &&& self.position == self.emitted@.len()
        &&& self.position <= MAX_COMPRESSED
        &&& self.buf@.len() <= MAX_ENCODE_LEN
        &&& !self.finished ==> stream(self.emitted@) == (self.flushed@, Some(StreamError::Truncated))
        &&& self.finished ==> stream(self.emitted@) == (self.flushed@, None::<StreamError>) && self.buf@.len() == 0
    }

    /// A writer that has written nothing yet.
    pub fn new(inner: W) -> (r: Writer<W>)
        ensures
            r.wf(),
            r.written() == Seq::<u8>::empty(),
            r.output() == Seq::<u8>::empty(),
            !r.is_finished(),
            r.inner_view() == inner,
    {
        let r = Writer {
            inner,
            buf: Vec::new(),
            pending: Vec::new(),
            position: 0,
            finished: false,
            flushed: Ghost(Seq::empty()),
            emitted: Ghost(Seq::empty()),
            taken: Ghost(Seq::empty()),
        };
        proof {
            assert(r.emitted@ =~= r.taken@ + r.pending@);
            assert(r.flushed@ + r.buf@ =~= Seq::<u8>::empty());
        }
        r
    }

    /// The underlying sink.
    pub fn get_ref(&self) -> (r: &W)
        ensures
            *r == self.inner_view(),
    {
        &self.inner
    }

    /// The underlying sink, to write the taken bytes to.
    pub fn get_mut(&mut self) -> (r: &mut W)
        ensures
            *r == old(self).inner_view(),
            final(self).inner_view() == *final(r),
            final(self).written() == old(self).written(),
            final(self).output() == old(self).output(),
            final(self).pending_view() == old(self).pending_view(),
            final(self).is_finished() == old(self).is_finished(),
            old(self).wf() ==> final(self).wf(),
    {
        &mut self.inner
    }

    /// The underlying sink; compressed bytes not yet taken are dropped.
    pub fn into_inner(self) -> (r: W)
        ensures
            r == self.inner_view(),
    {
        self.inner
    }

    /// The virtual position of the next byte to be written.
    pub fn virtual_position(&self) -> (r: VirtualPosition)
        requires
            self.wf(),
        ensures
            r@ == compose(self.output().len() as u64, self.buffered().len() as u64),
            self.written() == self.flushed_view() + self.buffered(),
            stream(self.output()).0 == self.flushed_view(),
    {
        VirtualPosition::new(self.position, self.buf.len() as u64).unwrap()
    }

    /// The uncompressed bytes that the blocks of the output hold.
    pub closed spec fn flushed_view(&self) -> Seq<u8> {
        self.flushed@
    }

    /// The uncompressed bytes given but not yet compressed into a block.
    pub closed spec fn buffered(&self) -> Seq<u8> {
        self.buf@
    }

    /// Hands out the compressed bytes produced since the last call.
    pub fn take_output(&mut self) -> (r: Vec<u8>)
        requires
            old(self).wf(),
        ensures
            final(self).wf(),
            r@ == old(self).pending_view(),
            final(self).pending_view() == Seq::<u8>::empty(),
            final(self).written() == old(self).written(),
            final(self).output() == old(self).output(),
            final(self).is_finished() == old(self).is_finished(),
            final(self).inner_view() == old(self).inner_view(),
    {
        let r = self.pending.split_off(0);
        self.taken = Ghost(self.taken@ + r@);
        proof {
            assert(r@ =~= old(self).pending@);
            assert(self.emitted@ =~= self.taken@ + self.pending@);
        }
        r
    }

    /// Compresses the gathered bytes, if any, into a block of the output.
    fn flush_block(&mut self) -> (r: Result<(), StreamError>)
        requires
            old(self).wf(),
            !old(self).finished,
        ensures
            final(self).wf(),
            !final(self).finished,
            final(self).inner == old(self).inner,
            r is Ok ==> final(self).buf@.len() == 0,
            r is Ok ==> final(self).written() == old(self).written(),
            r is Err ==> *final(self) == *old(self),
            r is Err ==> r == Err::<(), StreamError>(StreamError::Block(BlockError::CompressionFailed))
                || r == Err::<(), StreamError>(StreamError::PositionOverflow),
            r == Err::<(), StreamError>(StreamError::Block(BlockError::CompressionFailed))
                ==> payload_too_large(old(self).buf@),
            r == Err::<(), StreamError>(StreamError::PositionOverflow) ==> !payload_too_large(
                old(self).buf@,
            ) && output_overflows(old(self).emitted@.len(), old(self).buf@),
            old(self).buf@.len() > 0 && !payload_too_large(old(self).buf@) && !output_overflows(
                old(self).emitted@.len(),
                old(self).buf@,
            ) ==> r is Ok,
    {
        if self.buf.len() == 0 {
            proof {
                assert(self.flushed@ + self.buf@ =~= self.flushed@);
            }
            return Ok(());
        }
        let blk = match encode_block(self.buf.as_slice()) {
            Ok(b) => b,
            Err(_) => return Err(StreamError::Block(BlockError::CompressionFailed)),
        };
        if blk.len() as u64 > MAX_COMPRESSED - self.position {
            return Err(StreamError::PositionOverflow);
        }
        proof {
            lemma_truncated_stream(self.emitted@, blk@, self.buf@);
        }
        let ghost new_emitted = self.emitted@ + blk@;
        let ghost new_flushed = self.flushed@ + self.buf@;
        push_all(&mut self.pending, blk.as_slice());
        self.position = self.position + blk.len() as u64;
        self.emitted = Ghost(new_emitted);
        self.flushed = Ghost(new_flushed);
        self.buf.clear();
        proof {
            assert(self.emitted@ =~= self.taken@ + self.pending@);
            assert(self.flushed@ + self.buf@ =~= new_flushed);
        }
        Ok(())
    }

    /// Writes bytes to the stream.
    ///
    /// Fails on a finished stream; otherwise only where compression fails or
    /// the stream outgrows what a virtual position can address.
    pub fn write(&mut self, data: &[u8]) -> (r: Result<(), StreamError>)
        requires
            old(self).wf(),
        ensures
            final(self).wf(),
            final(self).inner_view() == old(self).inner_view(),
            old(self).is_finished() <==> r == Err::<(), StreamError>(StreamError::Finished),
            r is Ok ==> final(self).written() == old(self).written() + data@,
            r is Ok ==> !final(self).is_finished(),
            r is Err ==> r == Err::<(), StreamError>(StreamError::Finished) || r == Err::<(), StreamError>(
                StreamError::Block(BlockError::CompressionFailed),
            ) || r == Err::<(), StreamError>(StreamError::PositionOverflow),
            r == Err::<(), StreamError>(StreamError::Block(BlockError::CompressionFailed))
                ==> payload_too_large(final(self).buffered()),
            r == Err::<(), StreamError>(StreamError::PositionOverflow) ==> output_overflows(
                final(self).output().len(),
                final(self).buffered(),
            ),
            r is Err && !old(self).is_finished() ==> final(self).buffered().len() == MAX_ENCODE_LEN
                && exists|k: int|
                0 <= k <= data@.len() && final(self).written() == old(self).written() + data@.subrange(
                    0,
                    k,
                ),
    {
        if self.finished {
            return Err(StreamError::Finished);
        }
        let ghost start = self.written();
        let mut i: usize = 0;
        while i < data.len()
            invariant
                self.wf(),
                !self.finished,
                !old(self).finished,
                i <= data@.len(),
                self.inner == old(self).inner,
                self.flushed@ + self.buf@ == start + data@.subrange(0, i as int),
                start == old(self).written(),
            decreases data@.len() - i,
        {
            if self.buf.len() >= MAX_ENCODE_LEN {
                let f = self.flush_block();
                if f.is_err() {
                    proof {
                        assert(self.written() == start + data@.subrange(0, i as int));
                    }
                    return f;
                }
            }
            let ghost before = self.flushed@ + self.buf@;
            self.buf.push(data[i]);
            i = i + 1;
            proof {
                assert(self.flushed@ + self.buf@ =~= before.push(data@[i - 1]));
                assert(start + data@.subrange(0, i as int) =~= (start + data@.subrange(0, i - 1)).push(data@[i - 1]));
            }
        }
        proof {
            assert(data@.subrange(0, i as int) =~= data@);
            assert(self.written() == self.flushed@ + self.buf@);
        }
        Ok(())
    }

    /// Flushes what is gathered and appends the end-of-file marker.
    ///
    /// Finishing a finished stream does nothing. Once finished, the output
    /// reads back as everything written, and reading past its end gives end
    /// of stream, not an error.
    pub fn finish(&mut self) -> (r: Result<(), StreamError>)
        requires
            old(self).wf(),
        ensures
            final(self).wf(),
            final(self).inner_view() == old(self).inner_view(),
            final(self).written() == old(self).written(),
            old(self).is_finished() ==> r is Ok && *final(self) == *old(self),
            r is Ok ==> final(self).is_finished() && stream(final(self).output()) == (final(self).written(), None::<StreamError>),
            r is Err ==> r == Err::<(), StreamError>(StreamError::Block(BlockError::CompressionFailed))
                || r == Err::<(), StreamError>(StreamError::PositionOverflow),
            r == Err::<(), StreamError>(StreamError::Block(BlockError::CompressionFailed))
                ==> payload_too_large(final(self).buffered()),
            r == Err::<(), StreamError>(StreamError::PositionOverflow) ==> output_overflows(
                final(self).output().len(),
                final(self).buffered(),
            ),
    {
        if self.finished {
            return Ok(());
        }
        let f = self.flush_block();
        if f.is_err() {
            return f;
        }
        let empty: Vec<u8> = Vec::new();
        proof {
            assert(self.buf@ =~= empty@);
        }
        let eof = match encode_block(empty.as_slice()) {
            Ok(b) => b,
            Err(_) => return Err(StreamError::Block(BlockError::CompressionFailed)),
        };
        if eof.len() as u64 > MAX_COMPRESSED - self.position {
            return Err(StreamError::PositionOverflow);
        }
        proof {
            lemma_eof_ends_stream(self.emitted@, eof@);
        }
        let ghost new_emitted = self.emitted@ + eof@;
        push_all(&mut self.pending, eof.as_slice());
        self.position = self.position + eof.len() as u64;
        self.emitted = Ghost(new_emitted);
        self.finished = true;
        proof {
            assert(self.emitted@ =~= self.taken@ + self.pending@);
            assert(self.flushed@ + self.buf@ =~= self.flushed@);
        }
        Ok(())
    }
}

} // verus!
