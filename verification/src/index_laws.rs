//! What holds of reading an index.
use crate::bytes;
use crate::error::{ExtractError, Fault, Stop};
use crate::index;
use crate::index::{DirectoryView, IndexParts, IndexView};
use crate::layout;
use crate::names::{DIRN, DIRS, DIRT, DISK, DLFL};
use vstd::prelude::*;

verus! {

broadcast use bytes::lemma_be_bytes_len;

/// Every directory of an index that was read has three columns of the same length.
pub proof fn law_directories_are_even(file: Seq<u8>)
    requires
        index::index_of(file) is Ok,
    ensures
        index::index_of(file)->Ok_0.scripts.even(),
        index::index_of(file)->Ok_0.sounds.even(),
        index::index_of(file)->Ok_0.talkies.even(),
{
    lemma_parts_stay_even(index::no_parts(), bytes::masked(file, bytes::NICE), 0);
}

/// Whether the directories that were found have columns of the same length.
pub open spec fn parts_even(parts: IndexParts) -> bool {
    &&& parts.scripts matches Some(dir) ==> dir.even()
    &&& parts.sounds matches Some(dir) ==> dir.even()
    &&& parts.talkies matches Some(dir) ==> dir.even()
}

/// Reading blocks keeps the columns of the directories equally long.
proof fn lemma_parts_stay_even(parts: IndexParts, d: Seq<u8>, pos: int)
    requires
        parts_even(parts),
    ensures
        index::with_blocks(parts, d, pos) matches Ok(all) ==> parts_even(all),
    decreases d.len() - pos,
{
    if pos < d.len() {
        if let Ok(h) = layout::header(d, pos) {
            if pos + h.len <= d.len() {
                if let Ok(next) = index::with_block(parts, h.id, d.subrange(pos + 8, pos + h.len)) {
                    lemma_parts_stay_even(next, d, pos + h.len);
                }
            }
        }
    }
}

/// A block of a kind that the index has no use for changes nothing.
pub proof fn law_other_blocks_are_ignored(parts: IndexParts, id: Seq<u8>, content: Seq<u8>)
    requires
        id != DISK@,
        id != DLFL@,
        id != DIRS@,
        id != DIRN@,
        id != DIRT@,
    ensures
        index::with_block(parts, id, content) == Ok::<IndexParts, Stop>(parts),
{
}

/// A block of an index file.
pub struct IndexBlock {
    pub id: Seq<u8>,
    pub content: Seq<u8>,
}

/// Whether blocks stand one behind the other from `pos` on, up to the end of the data.
pub open spec fn laid_out(d: Seq<u8>, pos: int) -> bool
    decreases d.len() - pos,
{
    pos >= d.len() || (layout::header(d, pos) matches Ok(h) && pos + h.len <= d.len() && laid_out(
        d,
        pos + h.len,
    ))
}

/// The blocks that stand one behind the other from `pos` on, in order.
pub open spec fn index_blocks(d: Seq<u8>, pos: int) -> Seq<IndexBlock>
    decreases d.len() - pos,
{
    if pos >= d.len() {
        Seq::empty()
    } else {
        match layout::header(d, pos) {
            Err(_) => Seq::empty(),
            Ok(h) => if pos + h.len > d.len() {
                Seq::empty()
            } else {
                seq![IndexBlock { id: h.id, content: d.subrange(pos + 8, pos + h.len) }]
                    + index_blocks(d, pos + h.len)
            },
        }
    }
}

/// The content of the last block of a kind, if there is one.
pub open spec fn last_of(blocks: Seq<IndexBlock>, id: Seq<u8>) -> Option<Seq<u8>>
    decreases blocks.len(),
{
    if blocks.len() == 0 {
        None
    } else if blocks.last().id == id {
        Some(blocks.last().content)
    } else {
        last_of(blocks.drop_last(), id)
    }
}

/// Whether a block holds what its kind asks for.
pub open spec fn sound(block: IndexBlock) -> bool {
    if block.id == DISK@ {
        index::disk_list(block.content) is Ok
    } else if block.id == DLFL@ {
        index::offset_list(block.content) is Ok
    } else if block.id == DIRS@ || block.id == DIRN@ || block.id == DIRT@ {
        index::directory(block.content) is Ok
    } else {
        true
    }
}

/// Whether every block holds what its kind asks for.
pub open spec fn all_sound(blocks: Seq<IndexBlock>) -> bool {
    forall|i: int| 0 <= i < blocks.len() ==> sound(#[trigger] blocks[i])
}

/// The list that the last block of a kind holds; `earlier` if there is no such block.
pub open spec fn last_list<T>(
    blocks: Seq<IndexBlock>,
    id: Seq<u8>,
    list: spec_fn(Seq<u8>) -> Result<T, Stop>,
    earlier: Option<T>,
) -> Option<T> {
    match last_of(blocks, id) {
        None => earlier,
        Some(content) => Some(list(content)->Ok_0),
    }
}

/// What is known once blocks were read: of each kind, what the last block holds.
pub open spec fn last_parts(parts: IndexParts, blocks: Seq<IndexBlock>) -> IndexParts {
    let bytes_in = |content: Seq<u8>| index::disk_list(content);
    let numbers_in = |content: Seq<u8>| index::offset_list(content);
    let directory_in = |content: Seq<u8>| index::directory(content);
    IndexParts {
        lfl_disks: last_list(blocks, DISK@, bytes_in, parts.lfl_disks),
        lfl_offsets: last_list(blocks, DLFL@, numbers_in, parts.lfl_offsets),
        scripts: last_list(blocks, DIRS@, directory_in, parts.scripts),
        sounds: last_list(blocks, DIRN@, directory_in, parts.sounds),
        talkies: last_list(blocks, DIRT@, directory_in, parts.talkies),
    }
}

/// The last block of a kind is the last behind the first block, or else the first block.
proof fn lemma_last_behind(first: IndexBlock, rest: Seq<IndexBlock>, id: Seq<u8>)
    ensures
        last_of(seq![first] + rest, id) == match last_of(rest, id) {
            Some(content) => Some(content),
            None => if first.id == id {
                Some(first.content)
            } else {
                None
            },
        },
    decreases rest.len(),
{
    let all = seq![first] + rest;
    if rest.len() == 0 {
        assert(all.last() == first);
        assert(last_of(all.drop_last(), id) is None);
    } else {
        assert(all.last() == rest.last());
        assert(all.drop_last() =~= seq![first] + rest.drop_last());
        lemma_last_behind(first, rest.drop_last(), id);
    }
}

/// Reading blocks succeeds if and only if they fill the data and each holds what its kind asks for.
/// Then, of each of the five kinds, the last block counts, wherever it stands; earlier ones, blocks
/// of other kinds and the order of the kinds have no effect.
pub proof fn law_last_block_counts(parts: IndexParts, d: Seq<u8>, pos: int)
    ensures
        index::with_blocks(parts, d, pos) is Ok <==> laid_out(d, pos) && all_sound(
            index_blocks(d, pos),
        ),
        index::with_blocks(parts, d, pos) matches Ok(all) ==> all == last_parts(
            parts,
            index_blocks(d, pos),
        ),
    decreases d.len() - pos,
{
    let blocks = index_blocks(d, pos);
    if pos < d.len() {
        if let Ok(h) = layout::header(d, pos) {
            if pos + h.len <= d.len() {
                let first = IndexBlock { id: h.id, content: d.subrange(pos + 8, pos + h.len) };
                let rest = index_blocks(d, pos + h.len);
                assert(blocks[0] == first);
                assert(all_sound(blocks) ==> sound(first) && all_sound(rest)) by {
                    if all_sound(blocks) {
                        assert(sound(blocks[0]));
                        assert forall|i: int| 0 <= i < rest.len() implies sound(
                            #[trigger] rest[i],
                        ) by {
                            assert(blocks[i + 1] == rest[i]);
                        }
                    }
                }
                assert(sound(first) && all_sound(rest) ==> all_sound(blocks)) by {
                    if sound(first) && all_sound(rest) {
                        assert forall|i: int| 0 <= i < blocks.len() implies sound(
                            #[trigger] blocks[i],
                        ) by {
                            if i > 0 {
                                assert(blocks[i] == rest[i - 1]);
                            }
                        }
                    }
                }
                if let Ok(next) = index::with_block(parts, h.id, first.content) {
                    law_last_block_counts(next, d, pos + h.len);
                    lemma_last_behind(first, rest, DISK@);
                    lemma_last_behind(first, rest, DLFL@);
                    lemma_last_behind(first, rest, DIRS@);
                    lemma_last_behind(first, rest, DIRN@);
                    lemma_last_behind(first, rest, DIRT@);
                    lemma_kinds_differ();
                    assert(last_parts(parts, blocks) == last_parts(next, rest));
                }
            }
        }
    }
}

/// An index is the same whatever the order of its blocks, as long as the last block of each of the
/// five kinds is the same.
pub proof fn law_order_does_not_matter(file1: Seq<u8>, file2: Seq<u8>)
    requires
        ({
            let d1 = bytes::masked(file1, bytes::NICE);
            let d2 = bytes::masked(file2, bytes::NICE);
            let blocks1 = index_blocks(d1, 0);
            let blocks2 = index_blocks(d2, 0);
            &&& laid_out(d1, 0) && all_sound(blocks1)
            &&& laid_out(d2, 0) && all_sound(blocks2)
            &&& last_of(blocks1, DISK@) == last_of(blocks2, DISK@)
            &&& last_of(blocks1, DLFL@) == last_of(blocks2, DLFL@)
            &&& last_of(blocks1, DIRS@) == last_of(blocks2, DIRS@)
            &&& last_of(blocks1, DIRN@) == last_of(blocks2, DIRN@)
            &&& last_of(blocks1, DIRT@) == last_of(blocks2, DIRT@)
        }),
    ensures
        index::index_of(file1) == index::index_of(file2),
{
    law_last_block_counts(index::no_parts(), bytes::masked(file1, bytes::NICE), 0);
    law_last_block_counts(index::no_parts(), bytes::masked(file2, bytes::NICE), 0);
}

/// Byte `place` of a number, counted from the least significant.
pub open spec fn le_byte(n: i32, place: int) -> u8 {
    let m: int = if n < 0 {
        n + 0x1_0000_0000
    } else {
        n as int
    };
    if place == 0 {
        (m % 0x100) as u8
    } else if place == 1 {
        (m / 0x100 % 0x100) as u8
    } else if place == 2 {
        (m / 0x1_0000 % 0x100) as u8
    } else {
        (m / 0x100_0000) as u8
    }
}

/// The bytes of numbers that stand one behind the other.
pub open spec fn number_bytes(list: Seq<i32>) -> Seq<u8> {
    Seq::new(4 * list.len(), |k: int| le_byte(list[k / 4], k % 4))
}

/// The bytes of a count.
pub open spec fn count_bytes(n: int) -> Seq<u8> {
    seq![(n % 0x100) as u8, (n / 0x100) as u8]
}

/// The content of a block that lists bytes.
pub open spec fn disk_list_bytes(list: Seq<u8>) -> Seq<u8> {
    count_bytes(list.len() as int) + list
}

/// The content of a block that lists numbers.
pub open spec fn offset_list_bytes(list: Seq<i32>) -> Seq<u8> {
    count_bytes(list.len() as int) + number_bytes(list)
}

/// The content of a block that holds a directory.
pub open spec fn directory_bytes(dir: DirectoryView) -> Seq<u8> {
    count_bytes(dir.room_numbers.len() as int) + dir.room_numbers + number_bytes(dir.offsets)
        + number_bytes(dir.glob_sizes)
}

/// A count is read back from its bytes.
proof fn lemma_count_reads_back(content: Seq<u8>, n: int)
    requires
        0 <= n <= i16::MAX,
        content.len() >= 2,
        content[0] == count_bytes(n)[0],
        content[1] == count_bytes(n)[1],
    ensures
        index::entry_count(content) == Ok::<int, Stop>(n),
{
    assert(n == n % 0x100 + 0x100 * (n / 0x100));
}

/// Numbers are read back from their bytes.
proof fn lemma_numbers_read_back(content: Seq<u8>, at: int, list: Seq<i32>)
    requires
        0 <= at,
        at + 4 * list.len() <= content.len(),
        forall|k: int|
            0 <= k < 4 * list.len() ==> content[at + k] == #[trigger] number_bytes(list)[k],
    ensures
        index::numbers_at(content, at, list.len() as int) == list,
{
    assert forall|i: int| 0 <= i < list.len() implies bytes::le_i32(content, at + 4 * i)
        == list[i] by {
        let b = number_bytes(list);
        let n = list[i];
        assert(b[4 * i] == le_byte(n, 0));
        assert(b[4 * i + 1] == le_byte(n, 1));
        assert(b[4 * i + 2] == le_byte(n, 2));
        assert(b[4 * i + 3] == le_byte(n, 3));
        let m: int = if n < 0 {
            n + 0x1_0000_0000
        } else {
            n as int
        };
        bytes::lemma_number_from_parts(m);
    }
    assert(index::numbers_at(content, at, list.len() as int) =~= list);
}

/// Lists and directories are read back from the contents that hold them.
pub proof fn law_contents_read_back(disks: Seq<u8>, offsets: Seq<i32>, dir: DirectoryView)
    requires
        disks.len() <= i16::MAX,
        offsets.len() <= i16::MAX,
        dir.even(),
        dir.room_numbers.len() <= i16::MAX,
    ensures
        index::disk_list(disk_list_bytes(disks)) == Ok::<Seq<u8>, Stop>(disks),
        index::offset_list(offset_list_bytes(offsets)) == Ok::<Seq<i32>, Stop>(offsets),
        index::directory(directory_bytes(dir)) == Ok::<DirectoryView, Stop>(dir),
{
    let a = disk_list_bytes(disks);
    lemma_count_reads_back(a, disks.len() as int);
    assert(a.subrange(2, 2 + disks.len() as int) =~= disks);

    let b = offset_list_bytes(offsets);
    lemma_count_reads_back(b, offsets.len() as int);
    lemma_numbers_read_back(b, 2, offsets);

    let c = directory_bytes(dir);
    let n = dir.room_numbers.len() as int;
    lemma_count_reads_back(c, n);
    assert(c.subrange(2, 2 + n) =~= dir.room_numbers);
    lemma_numbers_read_back(c, 2 + n, dir.offsets);
    lemma_numbers_read_back(c, 2 + 5 * n, dir.glob_sizes);
}

/// Lists that can be counted make contents whose length fits a header.
proof fn lemma_contents_fit(disks: Seq<u8>, offsets: Seq<i32>, dir: DirectoryView)
    requires
        disks.len() <= i16::MAX,
        offsets.len() <= i16::MAX,
        dir.even(),
        dir.room_numbers.len() <= i16::MAX,
    ensures
        8 + disk_list_bytes(disks).len() <= i32::MAX,
        8 + offset_list_bytes(offsets).len() <= i32::MAX,
        8 + directory_bytes(dir).len() <= i32::MAX,
{
}

/// The bytes of a file that holds the index.
pub open spec fn index_file(index: IndexView) -> Seq<u8> {
    bytes::masked(
        layout::framed(DISK@, disk_list_bytes(index.lfl_disks)) + layout::framed(
            DLFL@,
            offset_list_bytes(index.lfl_offsets),
        ) + layout::framed(DIRS@, directory_bytes(index.scripts)) + layout::framed(
            DIRN@,
            directory_bytes(index.sounds),
        ) + layout::framed(DIRT@, directory_bytes(index.talkies)),
        bytes::NICE,
    )
}

/// A block is taken in when the blocks from its place on are read.
proof fn lemma_block_reads_back(
    parts: IndexParts,
    d: Seq<u8>,
    pos: int,
    id: Seq<u8>,
    content: Seq<u8>,
)
    requires
        0 <= pos,
        pos + 8 + content.len() <= d.len(),
        id.len() == 4,
        8 + content.len() <= i32::MAX,
        d.subrange(pos, pos + 8 + content.len()) == layout::framed(id, content),
        index::with_block(parts, id, content) is Ok,
    ensures
        index::with_blocks(parts, d, pos) == index::with_blocks(
            index::with_block(parts, id, content)->Ok_0,
            d,
            pos + 8 + content.len(),
        ),
{
    layout::law_headers_read_back(d, pos, id, content);
}

/// An index is read back from the file that holds it.
pub proof fn law_index_reads_back(index: IndexView)
    requires
        index.lfl_disks.len() <= i16::MAX,
        index.lfl_offsets.len() <= i16::MAX,
        index.scripts.even(),
        index.sounds.even(),
        index.talkies.even(),
        index.scripts.room_numbers.len() <= i16::MAX,
        index.sounds.room_numbers.len() <= i16::MAX,
        index.talkies.room_numbers.len() <= i16::MAX,
    ensures
        index::index_of(index_file(index)) == Ok::<IndexView, Stop>(index),
{
    let c1 = disk_list_bytes(index.lfl_disks);
    let c2 = offset_list_bytes(index.lfl_offsets);
    let c3 = directory_bytes(index.scripts);
    let c4 = directory_bytes(index.sounds);
    let c5 = directory_bytes(index.talkies);
    let d = layout::framed(DISK@, c1) + layout::framed(DLFL@, c2) + layout::framed(DIRS@, c3)
        + layout::framed(DIRN@, c4) + layout::framed(DIRT@, c5);
    law_contents_read_back(index.lfl_disks, index.lfl_offsets, index.scripts);
    law_contents_read_back(index.lfl_disks, index.lfl_offsets, index.sounds);
    law_contents_read_back(index.lfl_disks, index.lfl_offsets, index.talkies);
    lemma_contents_fit(index.lfl_disks, index.lfl_offsets, index.scripts);
    lemma_contents_fit(index.lfl_disks, index.lfl_offsets, index.sounds);
    lemma_contents_fit(index.lfl_disks, index.lfl_offsets, index.talkies);
    lemma_framed_parts(index, d, c1, c2, c3, c4, c5);
    bytes::law_mask_is_its_own_inverse(d, bytes::NICE);
}

/// An index is read from the five blocks that hold its parts.
proof fn lemma_framed_parts(
    index: IndexView,
    d: Seq<u8>,
    c1: Seq<u8>,
    c2: Seq<u8>,
    c3: Seq<u8>,
    c4: Seq<u8>,
    c5: Seq<u8>,
)
    requires
        index::disk_list(c1) == Ok::<Seq<u8>, Stop>(index.lfl_disks),
        index::offset_list(c2) == Ok::<Seq<i32>, Stop>(index.lfl_offsets),
        index::directory(c3) == Ok::<DirectoryView, Stop>(index.scripts),
        index::directory(c4) == Ok::<DirectoryView, Stop>(index.sounds),
        index::directory(c5) == Ok::<DirectoryView, Stop>(index.talkies),
        8 + c1.len() <= i32::MAX,
        8 + c2.len() <= i32::MAX,
        8 + c3.len() <= i32::MAX,
        8 + c4.len() <= i32::MAX,
        8 + c5.len() <= i32::MAX,
        d == layout::framed(DISK@, c1) + layout::framed(DLFL@, c2) + layout::framed(DIRS@, c3)
            + layout::framed(DIRN@, c4) + layout::framed(DIRT@, c5),
    ensures
        index::with_blocks(index::no_parts(), d, 0) matches Ok(parts) && index::complete(parts)
            == Ok::<IndexView, Stop>(index),
{
    lemma_five_parts(
        layout::framed(DISK@, c1),
        layout::framed(DLFL@, c2),
        layout::framed(DIRS@, c3),
        layout::framed(DIRN@, c4),
        layout::framed(DIRT@, c5),
    );
    lemma_five_blocks(index, d, c1, c2, c3, c4, c5);
}

/// An index is read from its blocks where they stand one behind the other.
proof fn lemma_five_blocks(
    index: IndexView,
    d: Seq<u8>,
    c1: Seq<u8>,
    c2: Seq<u8>,
    c3: Seq<u8>,
    c4: Seq<u8>,
    c5: Seq<u8>,
)
    requires
        index::disk_list(c1) == Ok::<Seq<u8>, Stop>(index.lfl_disks),
        index::offset_list(c2) == Ok::<Seq<i32>, Stop>(index.lfl_offsets),
        index::directory(c3) == Ok::<DirectoryView, Stop>(index.scripts),
        index::directory(c4) == Ok::<DirectoryView, Stop>(index.sounds),
        index::directory(c5) == Ok::<DirectoryView, Stop>(index.talkies),
        8 + c1.len() <= i32::MAX,
        8 + c2.len() <= i32::MAX,
        8 + c3.len() <= i32::MAX,
        8 + c4.len() <= i32::MAX,
        8 + c5.len() <= i32::MAX,
        ({
            let p1: int = 8 + c1.len() as int;
            let p2: int = p1 + 8 + c2.len();
            let p3: int = p2 + 8 + c3.len();
            let p4: int = p3 + 8 + c4.len();
            let p5: int = p4 + 8 + c5.len();
            &&& d.len() == p5
            &&& d.subrange(0, p1) == layout::framed(DISK@, c1)
            &&& d.subrange(p1, p2) == layout::framed(DLFL@, c2)
            &&& d.subrange(p2, p3) == layout::framed(DIRS@, c3)
            &&& d.subrange(p3, p4) == layout::framed(DIRN@, c4)
            &&& d.subrange(p4, p5) == layout::framed(DIRT@, c5)
        }),
    ensures
        index::with_blocks(index::no_parts(), d, 0) matches Ok(parts) && index::complete(parts)
            == Ok::<IndexView, Stop>(index),
{
    let p1: int = 8 + c1.len() as int;
    let p2: int = p1 + 8 + c2.len();
    let p3: int = p2 + 8 + c3.len();
    let p4: int = p3 + 8 + c4.len();
    let p5: int = p4 + 8 + c5.len();
    let s0 = index::no_parts();
    let s1 = IndexParts { lfl_disks: Some(index.lfl_disks), ..s0 };
    let s2 = IndexParts { lfl_offsets: Some(index.lfl_offsets), ..s1 };
    let s3 = IndexParts { scripts: Some(index.scripts), ..s2 };
    let s4 = IndexParts { sounds: Some(index.sounds), ..s3 };
    let s5 = IndexParts { talkies: Some(index.talkies), ..s4 };
    assert(index::with_block(s0, DISK@, c1) == Ok::<IndexParts, Stop>(s1)
        && index::with_block(s1, DLFL@, c2) == Ok::<IndexParts, Stop>(s2)
        && index::with_block(s2, DIRS@, c3) == Ok::<IndexParts, Stop>(s3)
        && index::with_block(s3, DIRN@, c4) == Ok::<IndexParts, Stop>(s4)
        && index::with_block(s4, DIRT@, c5) == Ok::<IndexParts, Stop>(s5)) by {
        lemma_kinds_differ();
    }
    lemma_block_reads_back(s0, d, 0, DISK@, c1);
    lemma_block_reads_back(s1, d, p1, DLFL@, c2);
    lemma_block_reads_back(s2, d, p2, DIRS@, c3);
    lemma_block_reads_back(s3, d, p3, DIRN@, c4);
    lemma_block_reads_back(s4, d, p4, DIRT@, c5);
    assert(index::with_blocks(s5, d, p5) == Ok::<IndexParts, Stop>(s5));
}

/// Where five parts stand that follow each other.
proof fn lemma_five_parts(f1: Seq<u8>, f2: Seq<u8>, f3: Seq<u8>, f4: Seq<u8>, f5: Seq<u8>)
    ensures
        ({
            let d = f1 + f2 + f3 + f4 + f5;
            let p1: int = f1.len() as int;
            let p2: int = p1 + f2.len();
            let p3: int = p2 + f3.len();
            let p4: int = p3 + f4.len();
            let p5: int = p4 + f5.len();
            &&& d.len() == p5
            &&& d.subrange(0, p1) == f1
            &&& d.subrange(p1, p2) == f2
            &&& d.subrange(p2, p3) == f3
            &&& d.subrange(p3, p4) == f4
            &&& d.subrange(p4, p5) == f5
        }),
{
    let d = f1 + f2 + f3 + f4 + f5;
    let p1: int = f1.len() as int;
    let p2: int = p1 + f2.len();
    let p3: int = p2 + f3.len();
    let p4: int = p3 + f4.len();
    let p5: int = p4 + f5.len();
    assert(d.subrange(0, p1) =~= f1);
    assert(d.subrange(p1, p2) =~= f2);
    assert(d.subrange(p2, p3) =~= f3);
    assert(d.subrange(p3, p4) =~= f4);
    assert(d.subrange(p4, p5) =~= f5);
}

/// The blocks of an index are of different kinds.
proof fn lemma_kinds_differ()
    ensures
        DISK@ != DLFL@ && DISK@ != DIRS@ && DISK@ != DIRN@ && DISK@ != DIRT@,
        DLFL@ != DIRS@ && DLFL@ != DIRN@ && DLFL@ != DIRT@,
        DIRS@ != DIRN@ && DIRS@ != DIRT@ && DIRN@ != DIRT@,
{
    assert(DISK@[1] != DLFL@[1] && DISK@[2] != DIRS@[2] && DISK@[2] != DIRN@[2] && DISK@[2]
        != DIRT@[2]);
    assert(DLFL@[1] != DIRS@[1] && DLFL@[1] != DIRN@[1] && DLFL@[1] != DIRT@[1]);
    assert(DIRS@[3] != DIRN@[3] && DIRS@[3] != DIRT@[3] && DIRN@[3] != DIRT@[3]);
}

/// The lists in an index start with the number of their entries, in two bytes, the least significant
/// first. A list of bytes follows as it is; a list of numbers takes four bytes for each, the least
/// significant first; and a directory is a list of bytes and two lists of numbers. A number of entries
/// that is negative is refused, and so is content that ends too early; what follows is ignored.
pub proof fn law_lists_are_made_of_bytes(content: Seq<u8>)
    ensures
        ({
            let n = content[0] + 256 * content[1];
            let disks = index::disk_list(content);
            let offsets = index::offset_list(content);
            let dir = index::directory(content);
            let early = Stop::Error(ExtractError::UnexpectedEof);
            let negative = Stop::Error(ExtractError::OutOfRange);
            &&& content.len() < 2 ==> disks == Err::<Seq<u8>, Stop>(early) && offsets == Err::<
                Seq<i32>,
                Stop,
            >(early) && dir == Err::<DirectoryView, Stop>(early)
            &&& content.len() >= 2 && n >= 32768 ==> disks == Err::<Seq<u8>, Stop>(negative)
                && offsets == Err::<Seq<i32>, Stop>(negative) && dir == Err::<DirectoryView, Stop>(
                negative,
            )
            &&& content.len() >= 2 && n < 32768 ==> {
                &&& if content.len() < 2 + n {
                    disks == Err::<Seq<u8>, Stop>(early)
                } else {
                    disks matches Ok(list) && bytes_stand(content, 2, n, list)
                }
                &&& if content.len() < 2 + 4 * n {
                    offsets == Err::<Seq<i32>, Stop>(early)
                } else {
                    offsets matches Ok(list) && numbers_stand(content, 2, n, list)
                }
                &&& if content.len() < 2 + 9 * n {
                    dir == Err::<DirectoryView, Stop>(early)
                } else {
                    &&& dir matches Ok(dir)
                    &&& bytes_stand(content, 2, n, dir.room_numbers)
                    &&& numbers_stand(content, 2 + n, n, dir.offsets)
                    &&& numbers_stand(content, 2 + n + 4 * n, n, dir.glob_sizes)
                }
            }
        }),
{
    let n = content[0] + 256 * content[1];
    bytes::law_numbers_are_made_of_bytes(content, 0);
    if content.len() >= 2 && n < 32768 {
        if content.len() >= 2 + 4 * n {
            lemma_numbers_stand(content, 2, n);
        }
        if content.len() >= 2 + 9 * n {
            lemma_numbers_stand(content, 2 + n, n);
            lemma_numbers_stand(content, 2 + 5 * n, n);
        }
    }
}

/// Whether the `n` bytes from `at` on are those of the list.
pub open spec fn bytes_stand(content: Seq<u8>, at: int, n: int, list: Seq<u8>) -> bool {
    list.len() == n && forall|i: int| 0 <= i < n ==> #[trigger] list[i] == content[at + i]
}

/// Whether the numbers of the list stand from `at` on, in four bytes each, the least significant
/// first.
pub open spec fn numbers_stand(content: Seq<u8>, at: int, n: int, list: Seq<i32>) -> bool {
    list.len() == n && forall|i: int|
        0 <= i < n ==> ((#[trigger] list[i]) - (content[at + 4 * i] + 256 * content[at + 4 * i + 1]
            + 65536 * content[at + 4 * i + 2] + 16777216 * content[at + 4 * i + 3])) % 4294967296
            == 0
}

/// The numbers that are read from `at` on stand there.
proof fn lemma_numbers_stand(content: Seq<u8>, at: int, n: int)
    requires
        0 <= n,
    ensures
        numbers_stand(content, at, n, index::numbers_at(content, at, n)),
{
    let list = index::numbers_at(content, at, n);
    assert forall|i: int| 0 <= i < n implies ((#[trigger] list[i]) - (content[at + 4 * i] + 256
        * content[at + 4 * i + 1] + 65536 * content[at + 4 * i + 2] + 16777216 * content[at + 4 * i
        + 3])) % 4294967296 == 0 by {
        bytes::law_numbers_are_made_of_bytes(content, at + 4 * i);
        assert(list[i] == bytes::le_i32(content, at + 4 * i));
    }
}

/// Each of the five kinds of blocks fills the part of the index that it is for, and no other; a block
/// that does not hold what its kind asks for is refused for the reason that its list is.
pub proof fn law_blocks_fill_their_own_part(parts: IndexParts, content: Seq<u8>)
    ensures
        index::with_block(parts, seq![0x44u8, 0x49, 0x53, 0x4b], content) == match index::disk_list(
            content,
        ) {
            Ok(list) => Ok(IndexParts { lfl_disks: Some(list), ..parts }),
            Err(stop) => Err::<IndexParts, Stop>(stop),
        },
        index::with_block(parts, seq![0x44u8, 0x4c, 0x46, 0x4c], content)
            == match index::offset_list(content) {
            Ok(list) => Ok(IndexParts { lfl_offsets: Some(list), ..parts }),
            Err(stop) => Err::<IndexParts, Stop>(stop),
        },
        index::with_block(parts, seq![0x44u8, 0x49, 0x52, 0x53], content) == match index::directory(
            content,
        ) {
            Ok(dir) => Ok(IndexParts { scripts: Some(dir), ..parts }),
            Err(stop) => Err::<IndexParts, Stop>(stop),
        },
        index::with_block(parts, seq![0x44u8, 0x49, 0x52, 0x4e], content) == match index::directory(
            content,
        ) {
            Ok(dir) => Ok(IndexParts { sounds: Some(dir), ..parts }),
            Err(stop) => Err::<IndexParts, Stop>(stop),
        },
        index::with_block(parts, seq![0x44u8, 0x49, 0x52, 0x54], content) == match index::directory(
            content,
        ) {
            Ok(dir) => Ok(IndexParts { talkies: Some(dir), ..parts }),
            Err(stop) => Err::<IndexParts, Stop>(stop),
        },
{
    assert(DISK@ =~= seq![0x44u8, 0x49, 0x53, 0x4b]);
    assert(DLFL@ =~= seq![0x44u8, 0x4c, 0x46, 0x4c]);
    assert(DIRS@ =~= seq![0x44u8, 0x49, 0x52, 0x53]);
    assert(DIRN@ =~= seq![0x44u8, 0x49, 0x52, 0x4e]);
    assert(DIRT@ =~= seq![0x44u8, 0x49, 0x52, 0x54]);
    lemma_kinds_differ();
}

/// The blocks of an index stand one behind the other, each with its length in the four bytes behind
/// its name, the most significant first. The first that cannot be read whole, or is refused, is why
/// the index is.
pub proof fn law_index_blocks_are_read_from_bytes(parts: IndexParts, d: Seq<u8>, pos: int)
    requires
        0 <= pos,
    ensures
        ({
            let r = index::with_blocks(parts, d, pos);
            let n = 16777216 * d[pos + 4] + 65536 * d[pos + 5] + 256 * d[pos + 6] + d[pos + 7];
            let early = Err::<IndexParts, Stop>(Stop::Error(ExtractError::UnexpectedEof));
            if pos >= d.len() {
                r == Ok::<IndexParts, Stop>(parts)
            } else if pos + 8 > d.len() {
                r == early
            } else if n >= 2147483648 {
                r == Err::<IndexParts, Stop>(Stop::Error(ExtractError::OutOfRange))
            } else if n < 8 {
                r == Err::<IndexParts, Stop>(Stop::Fault(Fault::BlockTooShort))
            } else if pos + n > d.len() {
                r == early
            } else {
                match index::with_block(
                    parts,
                    d.subrange(pos, pos + 4),
                    d.subrange(pos + 8, pos + n),
                ) {
                    Err(stop) => r == Err::<IndexParts, Stop>(stop),
                    Ok(next) => r == index::with_blocks(next, d, pos + n),
                }
            }
        }),
{
    bytes::law_numbers_are_made_of_bytes(d, pos + 4);
    assert(d[pos + 4 + 1] == d[pos + 5] && d[pos + 4 + 2] == d[pos + 6] && d[pos + 4 + 3] == d[pos
        + 7]);
}

/// An index is read from what its file is once 0x69 is taken off every byte. It takes all five parts,
/// each of which goes where it belongs; if one is missing the index is incomplete.
pub proof fn law_index_is_unmasked_and_complete(file: Seq<u8>, data: Seq<u8>)
    requires
        file.len() == data.len(),
        forall|i: int| 0 <= i < data.len() ==> #[trigger] file[i] == data[i] ^ 0x69u8,
    ensures
        match index::with_blocks(
            IndexParts {
                lfl_disks: None,
                lfl_offsets: None,
                scripts: None,
                sounds: None,
                talkies: None,
            },
            data,
            0,
        ) {
            Err(stop) => index::index_of(file) == Err::<IndexView, Stop>(stop),
            Ok(parts) => if parts.lfl_disks is None || parts.lfl_offsets is None
                || parts.scripts is None || parts.sounds is None || parts.talkies is None {
                index::index_of(file) == Err::<IndexView, Stop>(
                    Stop::Error(ExtractError::IndexIncomplete),
                )
            } else {
                index::index_of(file) == Ok::<IndexView, Stop>(
                    IndexView {
                        lfl_disks: parts.lfl_disks->0,
                        lfl_offsets: parts.lfl_offsets->0,
                        scripts: parts.scripts->0,
                        sounds: parts.sounds->0,
                        talkies: parts.talkies->0,
                    },
                )
            },
        },
{
    lemma_unmasked(file, data);
}

/// Data that was masked byte by byte is what is read from the file.
proof fn lemma_unmasked(file: Seq<u8>, data: Seq<u8>)
    requires
        file.len() == data.len(),
        forall|i: int| 0 <= i < data.len() ==> #[trigger] file[i] == data[i] ^ 0x69u8,
    ensures
        bytes::masked(file, bytes::NICE) == data,
{
    let d = bytes::masked(file, bytes::NICE);
    assert forall|i: int| 0 <= i < data.len() implies d[i] == data[i] by {
        assert(file[i] == data[i] ^ 0x69u8);
        let b = data[i];
        assert((b ^ 0x69u8) ^ 0x69u8 == b) by (bit_vector);
    }
    assert(d =~= data);
}

/// An index is read back from a file that holds its five blocks, one behind the other, with 0x69 laid
/// over every byte.
pub proof fn law_index_reads_back_from_masked_bytes(
    index: IndexView,
    file: Seq<u8>,
    data: Seq<u8>,
)
    requires
        index.lfl_disks.len() <= i16::MAX,
        index.lfl_offsets.len() <= i16::MAX,
        index.scripts.even(),
        index.sounds.even(),
        index.talkies.even(),
        index.scripts.room_numbers.len() <= i16::MAX,
        index.sounds.room_numbers.len() <= i16::MAX,
        index.talkies.room_numbers.len() <= i16::MAX,
        data == layout::framed(DISK@, disk_list_bytes(index.lfl_disks)) + layout::framed(
            DLFL@,
            offset_list_bytes(index.lfl_offsets),
        ) + layout::framed(DIRS@, directory_bytes(index.scripts)) + layout::framed(
            DIRN@,
            directory_bytes(index.sounds),
        ) + layout::framed(DIRT@, directory_bytes(index.talkies)),
        file.len() == data.len(),
        forall|i: int| 0 <= i < data.len() ==> #[trigger] file[i] == data[i] ^ 0x69u8,
    ensures
        index::index_of(file) == Ok::<IndexView, Stop>(index),
{
    lemma_unmasked(file, data);
    bytes::law_mask_is_its_own_inverse(file, bytes::NICE);
    assert(file == index_file(index));
    law_index_reads_back(index);
}

} // verus!
