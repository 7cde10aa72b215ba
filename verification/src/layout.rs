//! How a game file is laid out in blocks.
//!
//! A block starts with a header of eight bytes: the four bytes of its name and its length,
//! counted with the header. What follows is either raw content or a run of further blocks; the
//! header does not tell which, so it is guessed from the first bytes.
use crate::bytes;
use crate::error::{ExtractError, Fault, Stop};
use vstd::prelude::*;
use vstd::slice::*;

verus! {

broadcast use bytes::lemma_be_bytes_len;

/// The header of a block.
pub struct Header {
    pub id: Seq<u8>,
    /// The length of the block, its header counted in.
    pub len: int,
}

/// The header that stands at `pos`.
pub open spec fn header(d: Seq<u8>, pos: int) -> Result<Header, Stop> {
    if pos + 8 > d.len() {
        Err(Stop::Error(ExtractError::UnexpectedEof))
    } else {
        let len = bytes::be_i32(d, pos + 4);
        if len < 0 {
            Err(Stop::Error(ExtractError::OutOfRange))
        } else if len < 8 {
            Err(Stop::Fault(Fault::BlockTooShort))
        } else {
            Ok(Header { id: d.subrange(pos, pos + 4), len })
        }
    }
}

/// Whether the byte is a printable ASCII character.
pub open spec fn printable(b: u8) -> bool {
    32 <= b <= 126
}

/// Whether the eight bytes at `pos` could be the header of a block.
pub open spec fn looks_like_header(d: Seq<u8>, pos: int) -> bool {
    &&& forall|i: int| pos <= i < pos + 4 ==> printable(#[trigger] d[i])
    &&& 0 <= bytes::be_i32(d, pos + 4) < 0x100_0000
}

/// Whether the `size` bytes of content at `pos` are taken for blocks.
pub open spec fn nested_at(d: Seq<u8>, pos: int, size: int) -> Result<bool, Stop> {
    if size < 8 {
        Ok(false)
    } else if pos + 8 > d.len() {
        Err(Stop::Error(ExtractError::UnexpectedEof))
    } else {
        Ok(looks_like_header(d, pos))
    }
}

/// A block and what is in it.
pub enum Block {
    Flat {
        id: Seq<u8>,
        /// Where the content stands in the file.
        offset: int,
        /// The content, as far as the file holds it.
        content: Seq<u8>,
    },
    Nested {
        id: Seq<u8>,
        /// Where the content stands in the file.
        offset: int,
        blocks: Seq<Block>,
        /// How reading the content comes to its end.
        end: Result<(), Stop>,
    },
}

/// A run of blocks, one behind the other, and how reading them comes to its end.
pub struct Forest {
    pub blocks: Seq<Block>,
    pub end: Result<(), Stop>,
}

/// A run that holds nothing.
pub open spec fn no_blocks(end: Result<(), Stop>) -> Forest {
    Forest { blocks: Seq::empty(), end }
}

/// The run in which `block` stands in front of `rest`.
pub open spec fn in_front(block: Block, rest: Forest) -> Forest {
    Forest { blocks: seq![block] + rest.blocks, end: rest.end }
}

/// The `size` bytes of content that stand at `pos`, as far as the file holds them.
pub open spec fn content_at(d: Seq<u8>, pos: int, size: int) -> Seq<u8> {
    if pos + size <= d.len() {
        d.subrange(pos, pos + size)
    } else {
        d.subrange(pos, d.len() as int)
    }
}

/// The blocks that stand between `pos` and `end`.
///
/// Blocks that are read to their end never reach behind the file (see [`lemma_forest_inside`]), so
/// a container whose content was read in full is always followed by the rest of the run.
pub open spec fn forest(d: Seq<u8>, pos: int, end: int) -> Forest
    decreases d.len() - pos,
{
    if pos == end {
        no_blocks(Ok(()))
    } else if pos > end {
        no_blocks(Err(Stop::Error(ExtractError::MisalignedBlockEnd)))
    } else {
        match header(d, pos) {
            Err(stop) => no_blocks(Err(stop)),
            Ok(h) => match nested_at(d, pos + 8, h.len - 8) {
                Err(stop) => no_blocks(Err(stop)),
                Ok(true) => {
                    let inner = forest(d, pos + 8, pos + h.len);
                    let block = Block::Nested {
                        id: h.id,
                        offset: pos + 8,
                        blocks: inner.blocks,
                        end: inner.end,
                    };
                    if inner.end is Ok && pos + h.len <= d.len() {
                        in_front(block, forest(d, pos + h.len, end))
                    } else {
                        in_front(block, no_blocks(inner.end))
                    }
                },
                Ok(false) => {
                    let block = Block::Flat {
                        id: h.id,
                        offset: pos + 8,
                        content: content_at(d, pos + 8, h.len - 8),
                    };
                    if pos + h.len <= d.len() {
                        in_front(block, forest(d, pos + h.len, end))
                    } else {
                        in_front(
                            block,
                            no_blocks(Err(Stop::Error(ExtractError::WrongLength))),
                        )
                    }
                },
            },
        }
    }
}

/// Blocks that are read to their end lie inside the file.
pub proof fn lemma_forest_inside(d: Seq<u8>, pos: int, end: int)
    requires
        0 <= pos <= d.len(),
        forest(d, pos, end).end is Ok,
    ensures
        pos <= end <= d.len(),
    decreases d.len() - pos,
{
    if pos < end {
        let h = header(d, pos)->Ok_0;
        if nested_at(d, pos + 8, h.len - 8) == Ok::<bool, Stop>(true) {
            lemma_forest_inside(d, pos + 8, pos + h.len);
        }
        lemma_forest_inside(d, pos + h.len, end);
    }
}

/// Reads the header that stands at `pos`.
pub fn read_block_header(data: &[u8], pos: usize) -> (r: Result<([u8; 4], usize), Stop>)
    requires
        pos <= data@.len(),
    ensures
        match r {
            Ok((id, len)) => header(data@, pos as int) == Ok::<Header, Stop>(
                (Header { id: id@, len: len as int }),
            ),
            Err(stop) => header(data@, pos as int) == Err::<Header, Stop>(stop),
        },
{
    if data.len() - pos < 4 {
        return Err(Stop::Error(ExtractError::UnexpectedEof));
    }
    let id: [u8; 4] = [data[pos], data[pos + 1], data[pos + 2], data[pos + 3]];
    let mut rest: &[u8] = slice_subrange(data, pos + 4, data.len());
    match bytes::read_i32_be(&mut rest) {
        Err(_) => Err(Stop::Error(ExtractError::UnexpectedEof)),
        Ok(len) => if len < 0 {
            Err(Stop::Error(ExtractError::OutOfRange))
        } else if len < 8 {
            Err(Stop::Fault(Fault::BlockTooShort))
        } else {
            assert(id@ =~= data@.subrange(pos as int, pos + 4));
            Ok((id, len as usize))
        },
    }
}

/// Guesses whether the `size` bytes of content at `pos` are blocks.
pub fn guess_is_block_recursive(data: &[u8], pos: usize, size: usize) -> (r: Result<bool, Stop>)
    requires
        pos <= data@.len(),
    ensures
        r == nested_at(data@, pos as int, size as int),
        size < 8 ==> r == Ok::<bool, Stop>(false),
        size >= 8 && pos + 8 > data@.len() ==> r == Err::<bool, Stop>(
            Stop::Error(ExtractError::UnexpectedEof),
        ),
        size >= 8 && pos + 8 <= data@.len() ==> r == Ok::<bool, Stop>(
            32 <= data@[pos as int] <= 126 && 32 <= data@[pos + 1] <= 126 && 32 <= data@[pos + 2]
                <= 126 && 32 <= data@[pos + 3] <= 126 && 16777216 * data@[pos + 4] + 65536
                * data@[pos + 5] + 256 * data@[pos + 6] + data@[pos + 7] < 16777216,
        ),
{
    if size < 8 {
        return Ok(false);
    }
    if data.len() - pos < 4 {
        return Err(Stop::Error(ExtractError::UnexpectedEof));
    }
    let mut rest: &[u8] = slice_subrange(data, pos + 4, data.len());
    match bytes::read_i32_be(&mut rest) {
        Err(_) => Err(Stop::Error(ExtractError::UnexpectedEof)),
        Ok(len) => {
            let mut all: bool = true;
            let mut i: usize = pos;
            let stop: usize = pos + 4;
            while i < stop
                invariant
                    pos <= i <= stop <= data@.len(),
                    all <==> forall|j: int| pos <= j < i ==> printable(#[trigger] data@[j]),
                decreases stop - i,
            {
                let ch: u8 = data[i];
                all = all && 32 <= ch && ch <= 126;
                i = i + 1;
            }
            proof {
                lemma_first_child(data@, pos as int);
            }
            Ok(all && 0 <= len && len < 0x100_0000)
        },
    }
}

/// The bytes of a block with that content.
pub open spec fn framed(id: Seq<u8>, content: Seq<u8>) -> Seq<u8> {
    id + bytes::be_bytes(8 + content.len() as int) + content
}

/// The bytes of a block.
pub open spec fn encoded(block: Block) -> Seq<u8>
    decreases block,
{
    match block {
        Block::Flat { id, offset, content } => framed(id, content),
        Block::Nested { id, offset, blocks, end } => framed(id, encoded_all(blocks)),
    }
}

/// The bytes of blocks that stand one behind the other.
pub open spec fn encoded_all(blocks: Seq<Block>) -> Seq<u8>
    decreases blocks,
{
    if blocks.len() == 0 {
        Seq::empty()
    } else {
        encoded(blocks[0]) + encoded_all(blocks.drop_first())
    }
}

/// The bytes of a length are those it was read from.
proof fn lemma_length_bytes(d: Seq<u8>, pos: int)
    requires
        0 <= pos,
        pos + 4 <= d.len(),
        bytes::be_i32(d, pos) >= 0,
    ensures
        bytes::be_bytes(bytes::be_i32(d, pos)) == d.subrange(pos, pos + 4),
{
    reveal(bytes::be_bytes);
    bytes::lemma_number_parts(d[pos] as int, d[pos + 1] as int, d[pos + 2] as int, d[pos + 3] as int);
    assert(bytes::be_bytes(bytes::be_i32(d, pos)) =~= d.subrange(pos, pos + 4));
}

/// Blocks that are read to their end are exactly the bytes they were read from: no byte is left
/// out, and none is read twice.
pub proof fn law_blocks_cover_the_data(d: Seq<u8>, pos: int, end: int)
    requires
        0 <= pos <= d.len(),
        forest(d, pos, end).end is Ok,
    ensures
        end <= d.len(),
        encoded_all(forest(d, pos, end).blocks) == d.subrange(pos, end),
    decreases d.len() - pos,
{
    let f = forest(d, pos, end);
    lemma_forest_inside(d, pos, end);
    if pos == end {
        assert(encoded_all(f.blocks) =~= d.subrange(pos, end));
    } else {
        let h = header(d, pos)->Ok_0;
        let inner = forest(d, pos + 8, pos + h.len);
        let nested = nested_at(d, pos + 8, h.len - 8) == Ok::<bool, Stop>(true);
        if nested {
            law_blocks_cover_the_data(d, pos + 8, pos + h.len);
        }
        let rest = forest(d, pos + h.len, end);
        law_blocks_cover_the_data(d, pos + h.len, end);
        lemma_length_bytes(d, pos + 4);
        assert(f.blocks.drop_first() =~= rest.blocks);
        let content = d.subrange(pos + 8, pos + h.len);
        assert(encoded(f.blocks[0]) == framed(h.id, content));
        assert(framed(h.id, content) =~= d.subrange(pos, pos + h.len));
        assert(encoded_all(f.blocks) =~= d.subrange(pos, end));
    }
}

/// A length is read back from its bytes.
proof fn lemma_length_read_back(d: Seq<u8>, pos: int, n: int)
    requires
        0 <= n <= i32::MAX,
        d[pos] == bytes::be_bytes(n)[0],
        d[pos + 1] == bytes::be_bytes(n)[1],
        d[pos + 2] == bytes::be_bytes(n)[2],
        d[pos + 3] == bytes::be_bytes(n)[3],
    ensures
        bytes::be_i32(d, pos) == n,
{
    reveal(bytes::be_bytes);
    bytes::lemma_number_from_parts(n);
}

/// The header of a block is read back from the bytes of the block.
pub proof fn law_headers_read_back(d: Seq<u8>, pos: int, id: Seq<u8>, content: Seq<u8>)
    requires
        0 <= pos,
        pos + 8 + content.len() <= d.len(),
        id.len() == 4,
        8 + content.len() <= i32::MAX,
        d.subrange(pos, pos + 8 + content.len()) == framed(id, content),
    ensures
        header(d, pos) == Ok::<Header, Stop>(
            (Header { id, len: 8 + content.len() as int }),
        ),
        d.subrange(pos + 8, pos + 8 + content.len()) == content,
{
    let n = 8 + content.len() as int;
    let frame = d.subrange(pos, pos + n);
    assert(frame.subrange(0, 4) =~= id);
    assert(frame.subrange(4, 8) =~= bytes::be_bytes(n));
    assert(frame.subrange(8, n) =~= content);
    assert(frame.subrange(0, 4) =~= d.subrange(pos, pos + 4));
    assert(frame.subrange(8, n) =~= d.subrange(pos + 8, pos + n));
    assert(bytes::be_i32(d, pos + 4) == n) by {
        assert(frame.subrange(4, 8)[0] == d[pos + 4]);
        assert(frame.subrange(4, 8)[1] == d[pos + 4 + 1]);
        assert(frame.subrange(4, 8)[2] == d[pos + 4 + 2]);
        assert(frame.subrange(4, 8)[3] == d[pos + 4 + 3]);
        lemma_length_read_back(d, pos + 4, n);
    }
}

/// Whether a block stands at `pos` and reads as what it is: its length fits its header, its content
/// looks like blocks if and only if it is blocks, and its own blocks read as what they are.
pub open spec fn readable(block: Block, pos: int) -> bool
    decreases block,
{
    match block {
        Block::Flat { id, offset, content } => {
            &&& id.len() == 4
            &&& offset == pos + 8
            &&& 8 + content.len() <= i32::MAX
            &&& nested_at(content, 0, content.len() as int) == Ok::<bool, Stop>(false)
        },
        Block::Nested { id, offset, blocks, end } => {
            let content = encoded_all(blocks);
            &&& id.len() == 4
            &&& offset == pos + 8
            &&& 8 + content.len() <= i32::MAX
            &&& nested_at(content, 0, content.len() as int) == Ok::<bool, Stop>(true)
            &&& all_readable(blocks, pos + 8)
            &&& end == Ok::<(), Stop>(())
        },
    }
}

/// Whether blocks stand one behind the other from `pos` on and read as what they are.
pub open spec fn all_readable(blocks: Seq<Block>, pos: int) -> bool
    decreases blocks,
{
    blocks.len() > 0 ==> {
        &&& readable(blocks[0], pos)
        &&& all_readable(blocks.drop_first(), pos + encoded(blocks[0]).len())
    }
}

/// Content is taken for blocks wherever it stands, or nowhere.
proof fn lemma_guess_reads_back(d: Seq<u8>, pos: int, content: Seq<u8>)
    requires
        0 <= pos,
        pos + content.len() <= d.len(),
        d.subrange(pos, pos + content.len()) == content,
    ensures
        nested_at(d, pos, content.len() as int) == nested_at(content, 0, content.len() as int),
{
    let n = content.len() as int;
    assert forall|i: int| 0 <= i < n implies content[i] == d[pos + i] by {
        assert(d.subrange(pos, pos + n)[i] == d[pos + i]);
    }
    if n >= 8 {
        assert(d[pos + 4 + 1] == content[5]);
        assert(d[pos + 4 + 2] == content[6]);
        assert(d[pos + 4 + 3] == content[7]);
        assert(bytes::be_i32(d, pos + 4) == bytes::be_i32(content, 4));
        if looks_like_header(d, pos) {
            assert forall|i: int| 0 <= i < 4 implies printable(#[trigger] content[i]) by {
                assert(printable(d[pos + i]));
            }
        }
        if looks_like_header(content, 0) {
            assert forall|i: int| pos <= i < pos + 4 implies printable(#[trigger] d[i]) by {
                assert(printable(content[i - pos]));
            }
        }
    }
}

/// Blocks that read as what they are are read back from their bytes.
pub proof fn law_blocks_read_back(d: Seq<u8>, pos: int, end: int, blocks: Seq<Block>)
    requires
        0 <= pos <= end <= d.len(),
        d.subrange(pos, end) == encoded_all(blocks),
        all_readable(blocks, pos),
    ensures
        forest(d, pos, end) == (Forest { blocks, end: Ok(()) }),
    decreases blocks,
{
    if blocks.len() == 0 {
        assert(d.subrange(pos, end).len() == 0);
        assert(blocks =~= Seq::empty());
    } else {
        let block = blocks[0];
        let frame = encoded(block);
        let rest = blocks.drop_first();
        let mid = pos + frame.len();
        assert(encoded_all(blocks) == frame + encoded_all(rest));
        assert(d.subrange(pos, end).take(frame.len() as int) =~= frame);
        assert(d.subrange(pos, mid) =~= d.subrange(pos, end).take(frame.len() as int));
        assert(d.subrange(pos, end).skip(frame.len() as int) =~= encoded_all(rest));
        assert(d.subrange(mid, end) =~= d.subrange(pos, end).skip(frame.len() as int));
        law_blocks_read_back(d, mid, end, rest);
        lemma_block_reads_back(d, pos, end, block);
        assert(seq![block] + rest =~= blocks);
    }
}

/// The frame of a block is read back, and so is whether it holds blocks.
proof fn lemma_frame_reads_back(d: Seq<u8>, pos: int, id: Seq<u8>, content: Seq<u8>)
    requires
        0 <= pos,
        id.len() == 4,
        8 + content.len() <= i32::MAX,
        pos + 8 + content.len() <= d.len(),
        d.subrange(pos, pos + 8 + content.len()) == framed(id, content),
    ensures
        header(d, pos) == Ok::<Header, Stop>((Header { id, len: 8 + content.len() as int })),
        d.subrange(pos + 8, pos + 8 + content.len()) == content,
        nested_at(d, pos + 8, content.len() as int) == nested_at(
            content,
            0,
            content.len() as int,
        ),
{
    law_headers_read_back(d, pos, id, content);
    lemma_guess_reads_back(d, pos + 8, content);
}

/// A block with a header that was read comes first among the blocks that stand there.
proof fn lemma_block_comes_first(d: Seq<u8>, pos: int, end: int, h: Header, nested: bool)
    requires
        0 <= pos < end,
        header(d, pos) == Ok::<Header, Stop>(h),
        nested_at(d, pos + 8, h.len - 8) == Ok::<bool, Stop>(nested),
        pos + h.len <= d.len(),
        nested ==> forest(d, pos + 8, pos + h.len).end is Ok,
    ensures
        forest(d, pos, end) == in_front(
            if nested {
                let inner = forest(d, pos + 8, pos + h.len);
                Block::Nested { id: h.id, offset: pos + 8, blocks: inner.blocks, end: inner.end }
            } else {
                Block::Flat {
                    id: h.id,
                    offset: pos + 8,
                    content: d.subrange(pos + 8, pos + h.len),
                }
            },
            forest(d, pos + h.len, end),
        ),
{
}

/// A block with raw content is read back from its bytes.
proof fn lemma_flat_reads_back(d: Seq<u8>, pos: int, end: int, id: Seq<u8>, content: Seq<u8>)
    requires
        0 <= pos < end,
        id.len() == 4,
        8 + content.len() <= i32::MAX,
        pos + 8 + content.len() <= d.len(),
        d.subrange(pos, pos + 8 + content.len()) == framed(id, content),
        nested_at(content, 0, content.len() as int) == Ok::<bool, Stop>(false),
    ensures
        forest(d, pos, end) == in_front(
            Block::Flat { id, offset: pos + 8, content },
            forest(d, pos + 8 + content.len(), end),
        ),
{
    let h = Header { id, len: 8 + content.len() as int };
    lemma_frame_reads_back(d, pos, id, content);
    lemma_block_comes_first(d, pos, end, h, false);
}

/// A block that holds blocks is read back from its bytes if they are.
proof fn lemma_nested_reads_back(
    d: Seq<u8>,
    pos: int,
    end: int,
    id: Seq<u8>,
    content: Seq<u8>,
    blocks: Seq<Block>,
)
    requires
        0 <= pos < end,
        id.len() == 4,
        8 + content.len() <= i32::MAX,
        pos + 8 + content.len() <= d.len(),
        d.subrange(pos, pos + 8 + content.len()) == framed(id, content),
        nested_at(content, 0, content.len() as int) == Ok::<bool, Stop>(true),
        forest(d, pos + 8, pos + 8 + content.len()) == (Forest { blocks, end: Ok(()) }),
    ensures
        forest(d, pos, end) == in_front(
            Block::Nested { id, offset: pos + 8, blocks, end: Ok(()) },
            forest(d, pos + 8 + content.len(), end),
        ),
{
    let h = Header { id, len: 8 + content.len() as int };
    lemma_frame_reads_back(d, pos, id, content);
    lemma_block_comes_first(d, pos, end, h, true);
}

/// A block that reads as what it is is read back from its bytes.
proof fn lemma_block_reads_back(d: Seq<u8>, pos: int, end: int, block: Block)
    requires
        0 <= pos < end,
        pos + encoded(block).len() <= d.len(),
        d.subrange(pos, pos + encoded(block).len()) == encoded(block),
        readable(block, pos),
    ensures
        encoded(block).len() >= 8,
        forest(d, pos, end) == in_front(block, forest(d, pos + encoded(block).len(), end)),
    decreases block,
{
    match block {
        Block::Flat { id, offset, content } => {
            assert(framed(id, content).len() == 8 + content.len());
            lemma_flat_reads_back(d, pos, end, id, content);
        },
        Block::Nested { id, offset, blocks, .. } => {
            let content = encoded_all(blocks);
            assert(framed(id, content).len() == 8 + content.len());
            law_headers_read_back(d, pos, id, content);
            law_blocks_read_back(d, pos + 8, pos + 8 + content.len(), blocks);
            lemma_nested_reads_back(d, pos, end, id, content, blocks);
        },
    }
}

/// What could be a header has a printable name and a length of less than sixteen mebibytes.
proof fn lemma_first_child(d: Seq<u8>, pos: int)
    requires
        0 <= pos,
        pos + 8 <= d.len(),
    ensures
        looks_like_header(d, pos) <==> {
            &&& 32 <= d[pos] <= 126
            &&& 32 <= d[pos + 1] <= 126
            &&& 32 <= d[pos + 2] <= 126
            &&& 32 <= d[pos + 3] <= 126
            &&& 16777216 * d[pos + 4] + 65536 * d[pos + 5] + 256 * d[pos + 6] + d[pos + 7]
                < 16777216
        },
{
    if looks_like_header(d, pos) {
        assert(printable(d[pos]));
        assert(printable(d[pos + 1]));
        assert(printable(d[pos + 2]));
        assert(printable(d[pos + 3]));
    }
    bytes::law_numbers_are_made_of_bytes(d, pos + 4);
    assert(d[pos + 4 + 1] == d[pos + 5] && d[pos + 4 + 2] == d[pos + 6] && d[pos + 4 + 3] == d[pos
        + 7]);
}

/// A block is made of the four bytes of its name, the four bytes of its length, the most significant
/// first, and its content.
pub proof fn law_frames_are_made_of_bytes(id: Seq<u8>, content: Seq<u8>)
    requires
        id.len() == 4,
        8 + content.len() <= i32::MAX,
    ensures
        ({
            let f = framed(id, content);
            &&& f.len() == 8 + content.len()
            &&& f.take(4) == id
            &&& 16777216 * f[4] + 65536 * f[5] + 256 * f[6] + f[7] == f.len()
            &&& f.skip(8) == content
        }),
{
    let f = framed(id, content);
    let n = 8 + content.len() as int;
    assert(f.take(4) =~= id);
    assert(f.skip(8) =~= content);
    assert(f[4] == bytes::be_bytes(n)[0] && f[5] == bytes::be_bytes(n)[1] && f[6]
        == bytes::be_bytes(n)[2] && f[7] == bytes::be_bytes(n)[3]);
    lemma_length_read_back(f, 4, n);
    bytes::law_numbers_are_made_of_bytes(f, 4);
}

/// Where no block can be read: at the end, behind it, where the data ends inside a header or inside
/// the first eight bytes of the content, and where the length does not fit.
pub proof fn law_blocks_need_a_header(d: Seq<u8>, pos: int, end: int)
    requires
        0 <= pos,
    ensures
        ({
            let f = forest(d, pos, end);
            let n = 16777216 * d[pos + 4] + 65536 * d[pos + 5] + 256 * d[pos + 6] + d[pos + 7];
            let short = d.len() < pos + 8;
            &&& pos == end ==> f.blocks.len() == 0 && f.end is Ok
            &&& pos > end ==> f.blocks.len() == 0 && f.end == Err::<(), Stop>(
                Stop::Error(ExtractError::MisalignedBlockEnd),
            )
            &&& pos < end && short ==> f.blocks.len() == 0 && f.end == Err::<(), Stop>(
                Stop::Error(ExtractError::UnexpectedEof),
            )
            &&& pos < end && !short && n >= 2147483648 ==> f.blocks.len() == 0 && f.end == Err::<
                (),
                Stop,
            >(Stop::Error(ExtractError::OutOfRange))
            &&& pos < end && !short && n < 8 ==> f.blocks.len() == 0 && f.end == Err::<(), Stop>(
                Stop::Fault(Fault::BlockTooShort),
            )
            &&& pos < end && !short && 16 <= n < 2147483648 && d.len() < pos + 16
                ==> f.blocks.len() == 0 && f.end == Err::<(), Stop>(
                Stop::Error(ExtractError::UnexpectedEof),
            )
        }),
{
    bytes::law_numbers_are_made_of_bytes(d, pos + 4);
    assert(d[pos + 4 + 1] == d[pos + 5] && d[pos + 4 + 2] == d[pos + 6] && d[pos + 4 + 3] == d[pos
        + 7]);
}

/// The first block that stands at `pos` has the name and the length that its header gives. It is
/// taken for a container exactly if its content has at least eight bytes, of which the first four
/// are printable and the next four are a number of less than 16777216, the most significant byte
/// first. A container holds the blocks that stand in its content. What stands behind the block
/// follows, unless the block does not come to its end.
pub proof fn law_container_or_raw(d: Seq<u8>, pos: int, end: int)
    requires
        0 <= pos < end,
        pos + 8 <= d.len(),
        8 <= 16777216 * d[pos + 4] + 65536 * d[pos + 5] + 256 * d[pos + 6] + d[pos + 7]
            < 2147483648,
        16777216 * d[pos + 4] + 65536 * d[pos + 5] + 256 * d[pos + 6] + d[pos + 7] < 16 || pos + 16
            <= d.len(),
    ensures
        ({
            let f = forest(d, pos, end);
            let n = 16777216 * d[pos + 4] + 65536 * d[pos + 5] + 256 * d[pos + 6] + d[pos + 7];
            let container = n >= 16 && 32 <= d[pos + 8] <= 126 && 32 <= d[pos + 9] <= 126 && 32
                <= d[pos + 10] <= 126 && 32 <= d[pos + 11] <= 126 && 16777216 * d[pos + 12] + 65536
                * d[pos + 13] + 256 * d[pos + 14] + d[pos + 15] < 16777216;
            let inner = forest(d, pos + 8, pos + n);
            &&& f.blocks.len() > 0
            &&& match f.blocks[0] {
                Block::Nested { id, offset, blocks, end } => {
                    &&& container
                    &&& id == d.subrange(pos, pos + 4)
                    &&& offset == pos + 8
                    &&& blocks == inner.blocks
                    &&& end == inner.end
                },
                Block::Flat { id, offset, content } => {
                    &&& !container
                    &&& id == d.subrange(pos, pos + 4)
                    &&& offset == pos + 8
                    &&& content.len() == if pos + n <= d.len() {
                        n - 8
                    } else {
                        d.len() - pos - 8
                    }
                    &&& forall|i: int|
                        0 <= i < content.len() ==> #[trigger] content[i] == d[pos + 8 + i]
                },
            }
            &&& if container && inner.end is Err {
                f.blocks.len() == 1 && f.end == inner.end
            } else if pos + n > d.len() {
                f.blocks.len() == 1 && f.end == Err::<(), Stop>(
                    Stop::Error(ExtractError::WrongLength),
                )
            } else {
                f.blocks.drop_first() == forest(d, pos + n, end).blocks && f.end == forest(
                    d,
                    pos + n,
                    end,
                ).end
            }
        }),
{
    let n = 16777216 * d[pos + 4] + 65536 * d[pos + 5] + 256 * d[pos + 6] + d[pos + 7];
    bytes::law_numbers_are_made_of_bytes(d, pos + 4);
    assert(d[pos + 4 + 1] == d[pos + 5] && d[pos + 4 + 2] == d[pos + 6] && d[pos + 4 + 3] == d[pos
        + 7]);
    assert(bytes::be_i32(d, pos + 4) == n);
    let h = Header { id: d.subrange(pos, pos + 4), len: n };
    assert(header(d, pos) == Ok::<Header, Stop>(h));
    if n >= 16 {
        lemma_first_child(d, pos + 8);
        assert(d[pos + 8 + 1] == d[pos + 9] && d[pos + 8 + 2] == d[pos + 10] && d[pos + 8 + 3]
            == d[pos + 11] && d[pos + 8 + 4] == d[pos + 12] && d[pos + 8 + 5] == d[pos + 13] && d[pos
            + 8 + 6] == d[pos + 14] && d[pos + 8 + 7] == d[pos + 15]);
    }
    let f = forest(d, pos, end);
    let inner = forest(d, pos + 8, pos + n);
    if nested_at(d, pos + 8, n - 8) == Ok::<bool, Stop>(true) && inner.end is Ok {
        lemma_forest_inside(d, pos + 8, pos + n);
    }
    if f.blocks.len() > 1 {
        assert(f.blocks.drop_first() =~= forest(d, pos + n, end).blocks);
    } else {
        assert(f.blocks.drop_first() =~= Seq::empty());
    }
}

} // verus!
