//! The BCF writer's state: the underlying sink and a buffer for encoded
//! records, and the bytes that open a BCF file.

use vstd::prelude::*;

use crate::stream;

verus! {

/// The major version of the BCF format written.
pub const MAJOR: u8 = 2;

/// The minor version of the BCF format written.
pub const MINOR: u8 = 2;

/// The bytes that open a BCF file: the magic number and the format version.
pub open spec fn file_format_spec() -> Seq<u8> {
    seq![0x42u8, 0x43u8, 0x46u8, MAJOR, MINOR]
}

/// The bytes that open a BCF file: `BCF` and the major and minor version.
pub fn file_format() -> (r: Vec<u8>)
    ensures
        r@ == file_format_spec(),
{
    let mut r: Vec<u8> = Vec::new();
    r.push(0x42);
    r.push(0x43);
    r.push(0x46);
    r.push(MAJOR);
    r.push(MINOR);
    proof {
        assert(r@ =~= file_format_spec());
    }
    r
}

/// A BCF writer over the sink `W`.
pub struct Writer<W> {
    inner: W,
    buf: Vec<u8>,
}

impl<W> Writer<W> {
    /// The underlying sink.
    pub closed spec fn inner_view(&self) -> W {
        self.inner
    }

    /// The buffer for an encoded record.
    pub closed spec fn buf_view(&self) -> Seq<u8> {
        self.buf@
    }

    /// A writer over `inner`.
    pub fn from(inner: W) -> (r: Writer<W>)
        ensures
            r.inner_view() == inner,
            r.buf_view() == Seq::<u8>::empty(),
    {
        Writer { inner, buf: Vec::new() }
    }

    /// The underlying sink.
    pub fn get_ref(&self) -> (r: &W)
        ensures
            *r == self.inner_view(),
    {
        &self.inner
    }

    /// The underlying sink, for writing.
    pub fn get_mut(&mut self) -> (r: &mut W)
        ensures
            *r == old(self).inner_view(),
            final(self).inner_view() == *final(r),
            final(self).buf_view() == old(self).buf_view(),
    {
        &mut self.inner
    }

    /// The underlying sink.
    pub fn into_inner(self) -> (r: W)
        ensures
            r == self.inner_view(),
    {
        self.inner
    }
}

impl<W> Writer<stream::Writer<W>> {
    /// A BCF writer whose sink is a block-compressed stream over `inner`.
    pub fn new(inner: W) -> (r: Writer<stream::Writer<W>>)
        ensures
            r.inner_view().wf(),
            r.inner_view().inner_view() == inner,
            r.inner_view().written() == Seq::<u8>::empty(),
            r.inner_view().output() == Seq::<u8>::empty(),
            !r.inner_view().is_finished(),
            r.buf_view() == Seq::<u8>::empty(),
    {
        Writer::from(stream::Writer::new(inner))
    }
}

} // verus!
