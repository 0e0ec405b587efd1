//! CRAM containers: a header and the blocks that follow it, and the framing
//! of a data container's compression header and slices into one.

use vstd::prelude::*;

verus! {

/// How a block's data is compressed.
#[derive(Clone, Copy, Debug, PartialEq, Eq, Structural)]
pub enum CompressionMethod {
    /// Stored as is.
    Raw,
    Gzip,
    Bzip2,
    Lzma,
    Rans4x8,
}

/// What a block holds.
#[derive(Clone, Copy, Debug, PartialEq, Eq, Structural)]
pub enum ContentType {
    FileHeader,
    CompressionHeader,
    SliceHeader,
    ExternalData,
    CoreData,
}

/// The reference sequence a container's records lie on.
#[derive(Clone, Copy, Debug, PartialEq, Eq, Structural)]
pub enum ReferenceSequenceId {
    /// One reference sequence.
    Id(i32),
    /// Records placed on no reference sequence.
    Unplaced,
    /// Records on several reference sequences.
    Many,
}

/// The number of bytes of the ITF-8 encoding of `n`.
pub open spec fn itf8_len(n: i32) -> nat {
    if n < 0 {
        5
    } else if n < 0x80 {
        1
    } else if n < 0x4000 {
        2
    } else if n < 0x20_0000 {
        3
    } else if n < 0x1000_0000 {
        4
    } else {
        5
    }
}

/// The number of bytes of the ITF-8 encoding of `n`.
fn itf8_size(n: i32) -> (r: u64)
    ensures
        r == itf8_len(n),
{
    if n < 0 {
        5
    } else if n < 0x80 {
        1
    } else if n < 0x4000 {
        2
    } else if n < 0x20_0000 {
        3
    } else if n < 0x1000_0000 {
        4
    } else {
        5
    }
}

/// A block: its framing fields and its data.
#[derive(Clone, Debug)]
pub struct Block {
    pub compression_method: CompressionMethod,
    pub content_type: ContentType,
    pub content_id: i32,
    pub uncompressed_len: i32,
    pub data: Vec<u8>,
    pub crc32: u32,
}

/// A block as a value: method, content type, content id, uncompressed size,
/// data and checksum.
pub type BlockValue = (CompressionMethod, ContentType, i32, i32, Seq<u8>, u32);

impl View for Block {
    type V = BlockValue;

    open spec fn view(&self) -> BlockValue {
        (
            self.compression_method,
            self.content_type,
            self.content_id,
            self.uncompressed_len,
            self.data@,
            self.crc32,
        )
    }
}

/// The size of the encoded form of block `b`: the method and content type
/// bytes, three ITF-8 values (content id, compressed and uncompressed size),
/// the data and the checksum.
pub open spec fn block_size(b: BlockValue) -> int {
    (2 + itf8_len(b.2) + (if b.4.len() <= i32::MAX {
        itf8_len(b.4.len() as i32)
    } else {
        5
    }) + itf8_len(b.3) + b.4.len() + 4) as int
}

/// The block of an end-of-file container.
pub open spec fn eof_block_value() -> BlockValue {
    (
        CompressionMethod::Raw,
        ContentType::CompressionHeader,
        0,
        6,
        seq![1u8, 0u8, 1u8, 0u8, 1u8, 0u8],
        0x4b01_63ee,
    )
}

impl Block {
    /// Creates a block.
    pub fn new(
        compression_method: CompressionMethod,
        content_type: ContentType,
        content_id: i32,
        uncompressed_len: i32,
        data: Vec<u8>,
        crc32: u32,
    ) -> (r: Block)
        ensures
            r.compression_method == compression_method,
            r.content_type == content_type,
            r.content_id == content_id,
            r.uncompressed_len == uncompressed_len,
            r.data@ == data@,
            r.crc32 == crc32,
    {
        Block { compression_method, content_type, content_id, uncompressed_len, data, crc32 }
    }

    /// The block of an end-of-file container.
    pub fn eof() -> (r: Block)
        ensures
            r@ == eof_block_value(),
            r.compression_method == CompressionMethod::Raw,
            r.content_type == ContentType::CompressionHeader,
            r.content_id == 0,
            r.uncompressed_len == 6,
            r.data@ == seq![1u8, 0u8, 1u8, 0u8, 1u8, 0u8],
            r.crc32 == 0x4b01_63ee,
    {
        let mut data: Vec<u8> = Vec::new();
        data.push(1);
        data.push(0);
        data.push(1);
        data.push(0);
        data.push(1);
        data.push(0);
        proof {
            assert(data@ =~= seq![1u8, 0u8, 1u8, 0u8, 1u8, 0u8]);
        }
        Block::new(CompressionMethod::Raw, ContentType::CompressionHeader, 0, 6, data, 0x4b01_63ee)
    }

    /// A copy of this block.
    pub fn duplicate(&self) -> (r: Block)
        ensures
            r@ == self@,
    {
        let mut data: Vec<u8> = Vec::new();
        crate::block::push_all(&mut data, self.data.as_slice());
        proof {
            assert(data@ =~= self.data@);
        }
        Block::new(
            self.compression_method,
            self.content_type,
            self.content_id,
            self.uncompressed_len,
            data,
            self.crc32,
        )
    }

    /// The size of the block's encoded form.
    pub fn len(&self) -> (r: u128)
        ensures
            r == block_size(self@),
    {
        let n = self.data.len();
        let size_len = if n <= i32::MAX as usize {
            itf8_size(n as i32)
        } else {
            5
        };
        2 + itf8_size(self.content_id) as u128 + size_len as u128 + itf8_size(self.uncompressed_len) as u128
            + n as u128 + 4
    }
}

/// A container header.
#[derive(Clone, Debug)]
pub struct Header {
    pub length: i32,
    pub reference_sequence_id: ReferenceSequenceId,
    pub start_position: i32,
    pub alignment_span: i32,
    pub record_count: i32,
    pub record_counter: i64,
    pub base_count: i64,
    pub block_count: i32,
    pub landmarks: Vec<i32>,
    pub crc32: u32,
}

/// Whether `h` has the fields of an end-of-file container header.
pub open spec fn is_eof_header(h: Header) -> bool {
    &&& h.length == 15
    &&& h.reference_sequence_id == ReferenceSequenceId::Unplaced
    &&& h.start_position == 4542278
    &&& h.alignment_span == 0
    &&& h.record_count == 0
    &&& h.record_counter == 0
    &&& h.base_count == 0
    &&& h.block_count == 1
    &&& h.landmarks@.len() == 0
}

impl Header {
    /// Creates a header.
    pub fn new(
        length: i32,
        reference_sequence_id: ReferenceSequenceId,
        start_position: i32,
        alignment_span: i32,
        record_count: i32,
        record_counter: i64,
        base_count: i64,
        block_count: i32,
        landmarks: Vec<i32>,
        crc32: u32,
    ) -> (r: Header)
        ensures
            r.length == length,
            r.reference_sequence_id == reference_sequence_id,
            r.start_position == start_position,
            r.alignment_span == alignment_span,
            r.record_count == record_count,
            r.record_counter == record_counter,
            r.base_count == base_count,
            r.block_count == block_count,
            r.landmarks@ == landmarks@,
            r.crc32 == crc32,
    {
        Header {
            length,
            reference_sequence_id,
            start_position,
            alignment_span,
            record_count,
            record_counter,
            base_count,
            block_count,
            landmarks,
            crc32,
        }
    }

    /// The header of an end-of-file container.
    pub fn eof() -> (r: Header)
        ensures
            is_eof_header(r),
            r.crc32 == 0x4fd9_bd05,
    {
        Header::new(15, ReferenceSequenceId::Unplaced, 4542278, 0, 0, 0, 0, 1, Vec::new(), 0x4fd9_bd05)
    }

    /// Whether this is the header of an end-of-file container.
    pub fn is_eof(&self) -> (r: bool)
        ensures
            r == is_eof_header(*self),
    {
        self.length == 15 && self.reference_sequence_id == ReferenceSequenceId::Unplaced
            && self.start_position == 4542278 && self.alignment_span == 0 && self.record_count == 0
            && self.record_counter == 0 && self.base_count == 0 && self.block_count == 1
            && self.landmarks.len() == 0
    }
}

/// A slice of a data container: its core data block and its external blocks.
pub struct Slice {
    pub core_data_block: Block,
    pub external_blocks: Vec<Block>,
}

/// The blocks of a slice, core data block first.
pub open spec fn slice_blocks(s: Slice) -> Seq<BlockValue> {
    seq![s.core_data_block@] + s.external_blocks@.map_values(|b: Block| b@)
}

/// A data container: the encoded compression header and the slices.
pub struct DataContainer {
    pub compression_header: Vec<u8>,
    pub slices: Vec<Slice>,
}

/// The blocks of a sequence of slices, slice by slice.
pub open spec fn all_blocks(slices: Seq<Slice>) -> Seq<BlockValue>
    decreases slices.len(),
{
    if slices.len() == 0 {
        Seq::empty()
    } else {
        all_blocks(slices.drop_last()) + slice_blocks(slices.last())
    }
}

/// The total encoded size of a sequence of blocks.
pub open spec fn total_size(bs: Seq<BlockValue>) -> int
    decreases bs.len(),
{
    if bs.len() == 0 {
        0
    } else {
        total_size(bs.drop_last()) + block_size(bs.last())
    }
}

/// The block that carries an encoded compression header.
pub open spec fn compression_header_block(h: Seq<u8>) -> BlockValue {
    (CompressionMethod::Raw, ContentType::CompressionHeader, 0, h.len() as i32, h, 0)
}

/// The `k`-th landmark of a container built from a data container: the size
/// of the compression header block and of the blocks of the first `k` slices.
pub open spec fn landmark(h: Seq<u8>, slices: Seq<Slice>, k: int) -> int {
    block_size(compression_header_block(h)) + total_size(all_blocks(slices.take(k)))
}

/// Why a container could not be built.
#[derive(Clone, Copy, Debug, PartialEq, Eq, Structural)]
pub enum ContainerError {
    /// A size, offset or count does not fit in a 32-bit field.
    Overflow,
}

proof fn lemma_total_size_append(a: Seq<BlockValue>, b: Seq<BlockValue>)
    ensures
        total_size(a + b) == total_size(a) + total_size(b),
    decreases b.len(),
{
    if b.len() == 0 {
        assert(a + b =~= a);
    } else {
        lemma_total_size_append(a, b.drop_last());
        assert((a + b).drop_last() =~= a + b.drop_last());
    }
}

proof fn lemma_block_size_pos(b: BlockValue)
    ensures
        block_size(b) >= 7,
{
}

proof fn lemma_total_size_push(a: Seq<BlockValue>, b: BlockValue)
    ensures
        total_size(a.push(b)) == total_size(a) + block_size(b),
{
    assert(a.push(b).drop_last() =~= a);
}

proof fn lemma_all_blocks_take(slices: Seq<Slice>, i: int)
    requires
        0 <= i < slices.len(),
    ensures
        all_blocks(slices.take(i + 1)) == all_blocks(slices.take(i)) + slice_blocks(slices[i]),
{
    assert(slices.take(i + 1).drop_last() =~= slices.take(i));
}

proof fn lemma_total_size_nonneg(bs: Seq<BlockValue>)
    ensures
        total_size(bs) >= 0,
    decreases bs.len(),
{
    if bs.len() > 0 {
        lemma_total_size_nonneg(bs.drop_last());
    }
}

proof fn lemma_landmark_step(h: Seq<u8>, slices: Seq<Slice>, k: int)
    requires
        0 <= k < slices.len(),
    ensures
        landmark(h, slices, k + 1) == landmark(h, slices, k) + total_size(slice_blocks(slices[k])),
{
    lemma_all_blocks_take(slices, k);
    lemma_total_size_append(all_blocks(slices.take(k)), slice_blocks(slices[k]));
}

proof fn lemma_landmark_mono(h: Seq<u8>, slices: Seq<Slice>, j: int, k: int)
    requires
        0 <= j <= k <= slices.len(),
    ensures
        landmark(h, slices, j) <= landmark(h, slices, k),
    decreases k - j,
{
    if j < k {
        lemma_landmark_mono(h, slices, j, k - 1);
        lemma_landmark_step(h, slices, k - 1);
        lemma_total_size_nonneg(slice_blocks(slices[k - 1]));
    }
}

/// A container: its header and its blocks.
pub struct Container {
    header: Header,
    blocks: Vec<Block>,
}

impl Container {
    /// The header.
    pub closed spec fn header_view(&self) -> Header {
        self.header
    }

    /// The blocks.
    pub closed spec fn blocks_view(&self) -> Seq<BlockValue> {
        self.blocks@.map_values(|b: Block| b@)
    }

    /// An end-of-file container.
    pub fn eof() -> (r: Container)
        ensures
            is_eof_header(r.header_view()),
            r.header_view().crc32 == 0x4fd9_bd05,
            r.blocks_view() == seq![eof_block_value()],
    {
        let mut blocks: Vec<Block> = Vec::new();
        blocks.push(Block::eof());
        let r = Container::new(Header::eof(), blocks);
        proof {
            assert(r.blocks_view() =~= seq![eof_block_value()]);
        }
        r
    }

    /// Builds a container from a data container.
    ///
    /// The blocks are the compression header block followed by each slice's
    /// blocks; the landmarks are the offsets that the slices end at, counted
    /// from the first block. Fails when a size, offset or the block count does
    /// not fit in 32 bits.
    pub fn try_from_data_container(data_container: &DataContainer) -> (r: Result<Container, ContainerError>)
        ensures
            ({
                let h = data_container.compression_header@;
                let slices = data_container.slices@;
                let n = slices.len() as int;
                r is Ok <==> h.len() <= i32::MAX && landmark(h, slices, n) <= i32::MAX
                    && 1 + all_blocks(slices).len() <= i32::MAX
            }),
            r matches Ok(c) ==> {
                let h = data_container.compression_header@;
                let slices = data_container.slices@;
                &&& c.blocks_view() == seq![compression_header_block(h)] + all_blocks(slices)
                &&& c.header_view().length == 0
                &&& c.header_view().reference_sequence_id == ReferenceSequenceId::Unplaced
                &&& c.header_view().start_position == 0
                &&& c.header_view().alignment_span == 0
                &&& c.header_view().record_count == 0
                &&& c.header_view().record_counter == 0
                &&& c.header_view().base_count == 0
                &&& c.header_view().block_count == c.blocks_view().len()
                &&& c.header_view().landmarks@.len() == slices.len() + 1
                &&& forall|k: int|
                    0 <= k <= slices.len() ==> #[trigger] c.header_view().landmarks@[k] == landmark(h, slices, k)
                &&& c.header_view().crc32 == 0
            },
    {
        let ghost h = data_container.compression_header@;
        let ghost slices = data_container.slices@;
        if data_container.compression_header.len() > i32::MAX as usize {
            return Err(ContainerError::Overflow);
        }
        let mut buf: Vec<u8> = Vec::new();
        crate::block::push_all(&mut buf, data_container.compression_header.as_slice());
        proof {
            assert(buf@ =~= h);
        }
        let block = Block::new(
            CompressionMethod::Raw,
            ContentType::CompressionHeader,
            0,
            buf.len() as i32,
            buf,
            0,
        );
        let first = block.len();
        let mut landmarks: Vec<i32> = Vec::new();
        if first > i32::MAX as u128 {
            proof {
                assert(slices.take(0) =~= Seq::<Slice>::empty());
                lemma_landmark_mono(h, slices, 0, slices.len() as int);
            }
            return Err(ContainerError::Overflow);
        }
        landmarks.push(first as i32);
        let mut blocks: Vec<Block> = Vec::new();
        blocks.push(block);
        proof {
            assert(slices.take(0) =~= Seq::<Slice>::empty());
            assert(blocks@.map_values(|b: Block| b@) =~= seq![compression_header_block(h)] + all_blocks(slices.take(0)));
        }
        let mut i: usize = 0;
        while i < data_container.slices.len()
            invariant
                h == data_container.compression_header@,
                slices == data_container.slices@,
                h.len() <= i32::MAX,
                i <= slices.len(),
                landmarks@.len() == i + 1,
                forall|k: int| 0 <= k <= i ==> #[trigger] landmarks@[k] == landmark(h, slices, k),
                blocks@.map_values(|b: Block| b@) == seq![compression_header_block(h)] + all_blocks(slices.take(i as int)),
            decreases slices.len() - i,
        {
            let slice = &data_container.slices[i];
            proof {
                assert(landmarks@[i as int] == landmark(h, slices, i as int));
                lemma_total_size_nonneg(all_blocks(slices.take(i as int)));
                lemma_block_size_pos(compression_header_block(h));
            }
            let last = landmarks[i] as u128;
            let ghost prev_blocks = blocks@.map_values(|b: Block| b@);
            let core = slice.core_data_block.duplicate();
            let mut slice_len: u128 = core.len();
            if slice_len > i32::MAX as u128 {
                proof {
                    let ext = slice.external_blocks@.map_values(|b: Block| b@);
                    assert(slice_blocks(slices[i as int]) =~= seq![slice.core_data_block@] + ext);
                    lemma_total_size_append(seq![slice.core_data_block@], ext);
                    lemma_total_size_nonneg(ext);
                    lemma_total_size_push(Seq::empty(), slice.core_data_block@);
                    assert(Seq::<BlockValue>::empty().push(slice.core_data_block@) =~= seq![slice.core_data_block@]);
                    lemma_landmark_step(h, slices, i as int);
                    lemma_landmark_mono(h, slices, i + 1, slices.len() as int);
                }
                return Err(ContainerError::Overflow);
            }
            let ghost before_core = blocks@.map_values(|b: Block| b@);
            blocks.push(core);
            let mut j: usize = 0;
            proof {
                assert(slice.external_blocks@.map_values(|b: Block| b@).take(0) =~= Seq::<BlockValue>::empty());
                lemma_total_size_push(Seq::empty(), slice.core_data_block@);
                assert(Seq::<BlockValue>::empty().push(slice.core_data_block@) =~= seq![slice.core_data_block@]);
                assert(blocks@.map_values(|b: Block| b@) =~= before_core.push(slice.core_data_block@));
                assert(blocks@.map_values(|b: Block| b@) =~= prev_blocks + (seq![slice.core_data_block@] + slice.external_blocks@.map_values(|b: Block| b@).take(0)));
                assert(seq![slice.core_data_block@] + slice.external_blocks@.map_values(|b: Block| b@).take(0) =~= seq![slice.core_data_block@]);
            }
            while j < slice.external_blocks.len()
                invariant
                    j <= slice.external_blocks@.len(),
                    slice_len <= 0x1_0000_0000,
                    i < slices.len(),
                    h == data_container.compression_header@,
                    slices == data_container.slices@,
                    *slice == slices[i as int],
                    last == landmark(h, slices, i as int),
                    slice_len == total_size(seq![slice.core_data_block@] + slice.external_blocks@.map_values(|b: Block| b@).take(j as int)),
                    blocks@.map_values(|b: Block| b@) == prev_blocks + (seq![slice.core_data_block@] + slice.external_blocks@.map_values(|b: Block| b@).take(j as int)),
                    last <= i32::MAX,
                decreases slice.external_blocks@.len() - j,
            {
                let b = slice.external_blocks[j].duplicate();
                let bl = b.len();
                if slice_len > i32::MAX as u128 || bl > i32::MAX as u128 {
                    proof {
                        let ext = slice.external_blocks@.map_values(|b: Block| b@);
                        let pre = seq![slice.core_data_block@] + ext.take(j as int);
                        assert(slice_blocks(slices[i as int]) =~= pre.push(ext[j as int]) + ext.skip(j + 1));
                        lemma_total_size_append(pre.push(ext[j as int]), ext.skip(j + 1));
                        lemma_total_size_nonneg(ext.skip(j + 1));
                        lemma_total_size_push(pre, ext[j as int]);
                        lemma_landmark_step(h, slices, i as int);
                        lemma_landmark_mono(h, slices, i + 1, slices.len() as int);
                    }
                    return Err(ContainerError::Overflow);
                }
                slice_len = slice_len + bl;
                let ghost before = blocks@.map_values(|b: Block| b@);
                blocks.push(b);
                j = j + 1;
                proof {
                    let pre = seq![slice.core_data_block@] + slice.external_blocks@.map_values(|b: Block| b@).take(j - 1);
                    assert(seq![slice.core_data_block@] + slice.external_blocks@.map_values(|b: Block| b@).take(j as int) =~= pre.push(slice.external_blocks@[j - 1]@));
                    lemma_total_size_push(pre, slice.external_blocks@[j - 1]@);
                    assert(blocks@.map_values(|b: Block| b@) =~= before.push(slice.external_blocks@[j - 1]@));
                    assert(blocks@.map_values(|b: Block| b@) =~= prev_blocks + pre.push(slice.external_blocks@[j - 1]@));
                }
            }
            proof {
                assert(slice.external_blocks@.map_values(|b: Block| b@).take(j as int) =~= slice.external_blocks@.map_values(|b: Block| b@));
                lemma_all_blocks_take(slices, i as int);
                lemma_total_size_append(all_blocks(slices.take(i as int)), slice_blocks(slices[i as int]));
            }
            proof {
                lemma_landmark_step(h, slices, i as int);
            }
            if last + slice_len > i32::MAX as u128 {
                proof {
                    lemma_landmark_mono(h, slices, i + 1, slices.len() as int);
                }
                return Err(ContainerError::Overflow);
            }
            landmarks.push((last + slice_len) as i32);
            i = i + 1;
            proof {
                assert(blocks@.map_values(|b: Block| b@) =~= seq![compression_header_block(h)] + all_blocks(slices.take(i as int)));
            }
        }
        proof {
            assert(slices.take(slices.len() as int) =~= slices);
            assert(blocks@.map_values(|b: Block| b@).len() == blocks@.len());
            assert(landmarks@[i as int] == landmark(h, slices, i as int));
        }
        if blocks.len() > i32::MAX as usize {
            return Err(ContainerError::Overflow);
        }
        let n = blocks.len() as i32;
        let header = Header::new(0, ReferenceSequenceId::Unplaced, 0, 0, 0, 0, 0, n, landmarks, 0);
        Ok(Container::new(header, blocks))
    }

    /// A container from a header and blocks.
    pub fn new(header: Header, blocks: Vec<Block>) -> (r: Container)
        ensures
            r.header_view() == header,
            r.blocks_view() == blocks@.map_values(|b: Block| b@),
    {
        Container { header, blocks }
    }

    /// The header.
    pub fn header(&self) -> (r: &Header)
        ensures
            *r == self.header_view(),
    {
        &self.header
    }

    /// The blocks.
    pub fn blocks(&self) -> (r: &[Block])
        ensures
            r@.map_values(|b: Block| b@) == self.blocks_view(),
    {
        self.blocks.as_slice()
    }

    /// Whether this is an end-of-file container.
    pub fn is_eof(&self) -> (r: bool)
        ensures
            r == is_eof_header(self.header_view()),
    {
        self.header.is_eof()
    }
}

} // verus!
