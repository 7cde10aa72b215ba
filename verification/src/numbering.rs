//! What the numbers of blocks are.
use crate::bytes;
use crate::error::{ExtractError, Fault, Stop};
use crate::index::{DirectoryView, IndexView};
use crate::laws;
use crate::layout::Block;
use crate::lookup;
use crate::names::{CDHD, DIGI, LECF, LFLF, LSC2, SCRP, TALK, TLKE};
use crate::walk;
use crate::walk::{ContainerView, Game};
use vstd::prelude::*;

verus! {

/// Whether entry `i` of a directory names a room that is listed, and stands where a 32-bit offset
/// reaches.
pub open spec fn reached(
    disks: Seq<u8>,
    places: Seq<i32>,
    rooms: Seq<u8>,
    offsets: Seq<i32>,
    i: int,
) -> bool {
    &&& rooms[i] < disks.len()
    &&& rooms[i] < places.len()
    &&& i < offsets.len()
    &&& -2147483648 <= places[rooms[i] as int] + offsets[i] < 2147483648
}

/// Whether entry `n` of a directory is the first whose room is on the disk and whose place, counted
/// from where the disk starts, is `p`.
pub open spec fn first_at(
    disks: Seq<u8>,
    places: Seq<i32>,
    rooms: Seq<u8>,
    offsets: Seq<i32>,
    disk: u8,
    p: int,
    n: int,
) -> bool {
    &&& 0 <= n < rooms.len()
    &&& n < 2147483648
    &&& forall|i: int|
        0 <= i <= n ==> {
            &&& reached(disks, places, rooms, offsets, i)
            &&& (disks[#[trigger] rooms[i] as int] == disk && places[rooms[i] as int] + offsets[i]
                == p) <==> i == n
        }
}

/// Whether no entry of a directory has its room on the disk and its place at `p`.
pub open spec fn none_at(
    disks: Seq<u8>,
    places: Seq<i32>,
    rooms: Seq<u8>,
    offsets: Seq<i32>,
    disk: u8,
    p: int,
) -> bool {
    forall|i: int|
        0 <= i < rooms.len() ==> {
            &&& reached(disks, places, rooms, offsets, i)
            &&& !(disks[#[trigger] rooms[i] as int] == disk && places[rooms[i] as int] + offsets[i]
                == p)
        }
}

/// What looking a resource up comes to.
proof fn lemma_object_number(index: IndexView, dir: DirectoryView, disk: u8, p: int, n: int)
    ensures
        ({
            let r = lookup::object_number(index, dir, disk, p);
            let (disks, places) = (index.lfl_disks, index.lfl_offsets);
            let (rooms, offsets) = (dir.room_numbers, dir.offsets);
            &&& r == Ok::<Option<int>, Stop>(Some(n)) <==> first_at(
                disks,
                places,
                rooms,
                offsets,
                disk,
                p,
                n,
            )
            &&& r == Ok::<Option<int>, Stop>(None) <==> p >= 2147483648 || none_at(
                disks,
                places,
                rooms,
                offsets,
                disk,
                p,
            )
            &&& r is Err ==> r == Err::<Option<int>, Stop>(Stop::Fault(Fault::IndexEntry))
        }),
{
    let (disks, places) = (index.lfl_disks, index.lfl_offsets);
    let (rooms, offsets) = (dir.room_numbers, dir.offsets);
    let r = lookup::object_number(index, dir, disk, p);
    lookup::law_no_object_is_found(index, dir, disk, p);
    if p <= i32::MAX {
        lookup::law_first_object_is_found(index, dir, disk, p, n);
        if r == Ok::<Option<int>, Stop>(Some(n)) {
            assert forall|i: int| 0 <= i <= n implies {
                &&& reached(disks, places, rooms, offsets, i)
                &&& (disks[#[trigger] rooms[i] as int] == disk && places[rooms[i] as int]
                    + offsets[i] == p) <==> i == n
            } by {
                assert(lookup::entry_at(index, dir, disk, p, i) <==> i == n);
            }
        }
        if first_at(disks, places, rooms, offsets, disk, p, n) {
            assert(rooms[n] == rooms[n]);
            assert forall|i: int| 0 <= i < n implies !(#[trigger] lookup::entry_at(
                index,
                dir,
                disk,
                p,
                i,
            )) && lookup::entry_placed(index, dir, i) by {
                assert(rooms[i] == rooms[i]);
            }
        }
        if r == Ok::<Option<int>, Stop>(None) {
            assert forall|i: int| 0 <= i < rooms.len() implies {
                &&& reached(disks, places, rooms, offsets, i)
                &&& !(disks[#[trigger] rooms[i] as int] == disk && places[rooms[i] as int]
                    + offsets[i] == p)
            } by {
                assert(!lookup::entry_at(index, dir, disk, p, i));
            }
        }
        if none_at(disks, places, rooms, offsets, disk, p) {
            assert forall|i: int| 0 <= i < rooms.len() implies !(#[trigger] lookup::entry_at(
                index,
                dir,
                disk,
                p,
                i,
            )) && lookup::entry_placed(index, dir, i) by {
                assert(rooms[i] == rooms[i]);
            }
        }
    } else if first_at(disks, places, rooms, offsets, disk, p, n) {
        assert(rooms[n] == rooms[n]);
    }
}

/// The number that looking a resource up gives a block.
proof fn lemma_found(
    index: IndexView,
    dir: DirectoryView,
    disk: u8,
    p: int,
    missing: ExtractError,
    n: i32,
)
    ensures
        ({
            let r = walk::found(lookup::object_number(index, dir, disk, p), missing);
            let (disks, places) = (index.lfl_disks, index.lfl_offsets);
            let (rooms, offsets) = (dir.room_numbers, dir.offsets);
            &&& r == Ok::<i32, Stop>(n) <==> first_at(
                disks,
                places,
                rooms,
                offsets,
                disk,
                p,
                n as int,
            )
            &&& r == Err::<i32, Stop>(Stop::Error(missing)) <==> p >= 2147483648 || none_at(
                disks,
                places,
                rooms,
                offsets,
                disk,
                p,
            )
            &&& r is Ok || r == Err::<i32, Stop>(Stop::Error(missing)) || r == Err::<i32, Stop>(
                Stop::Fault(Fault::IndexEntry),
            )
        }),
{
    let r = lookup::object_number(index, dir, disk, p);
    lemma_object_number(index, dir, disk, p, n as int);
    if let Ok(Some(m)) = r {
        lemma_object_number(index, dir, disk, p, m);
        assert(m as i32 == m);
    }
}

/// A sound whose header stands at `p` has the number of the first entry of the sounds in the index
/// that stands there, whether it is digital or speech, and that alone. If there is none it is
/// refused, and the container stays as it is.
pub proof fn law_sounds_are_numbered_by_their_place(
    g: Game,
    c: ContainerView,
    id: Seq<u8>,
    p: int,
    n: i32,
)
    requires
        id == seq![0x44u8, 0x49, 0x47, 0x49] || id == seq![0x54u8, 0x41, 0x4c, 0x4b],
    ensures
        ({
            let r = walk::number_nested(g, c, id, p + 8);
            let (disks, places) = (g.index.lfl_disks, g.index.lfl_offsets);
            let (rooms, offsets) = (g.index.sounds.room_numbers, g.index.sounds.offsets);
            &&& r == Ok::<(i32, ContainerView), Stop>((n, c)) <==> first_at(
                disks,
                places,
                rooms,
                offsets,
                g.disk,
                p,
                n as int,
            )
            &&& r == Err::<(i32, ContainerView), Stop>(
                Stop::Error(ExtractError::SoundNotInIndex),
            ) <==> p >= 2147483648 || none_at(disks, places, rooms, offsets, g.disk, p)
            &&& r matches Ok((m, after)) ==> after == c
            &&& r matches Err(stop) ==> stop == Stop::Error(ExtractError::SoundNotInIndex) || stop
                == Stop::Fault(Fault::IndexEntry)
        }),
{
    lemma_containers_differ();
    assert(id == DIGI@ || id == TALK@) by {
        assert(DIGI@ =~= seq![0x44u8, 0x49, 0x47, 0x49]);
        assert(TALK@ =~= seq![0x54u8, 0x41, 0x4c, 0x4b]);
    }
    lemma_found(g.index, g.index.sounds, g.disk, p, ExtractError::SoundNotInIndex, n);
}

/// A talkie whose header stands at `p` has the number of the first entry of the talkies in the index
/// that stands there. If there is none it is refused, and the container stays as it is.
pub proof fn law_talkies_are_numbered_by_their_place(g: Game, c: ContainerView, p: int, n: i32)
    ensures
        ({
            let r = walk::number_nested(g, c, seq![0x54u8, 0x4c, 0x4b, 0x45], p + 8);
            let (disks, places) = (g.index.lfl_disks, g.index.lfl_offsets);
            let (rooms, offsets) = (g.index.talkies.room_numbers, g.index.talkies.offsets);
            &&& r == Ok::<(i32, ContainerView), Stop>((n, c)) <==> first_at(
                disks,
                places,
                rooms,
                offsets,
                g.disk,
                p,
                n as int,
            )
            &&& r == Err::<(i32, ContainerView), Stop>(
                Stop::Error(ExtractError::TalkieNotInIndex),
            ) <==> p >= 2147483648 || none_at(disks, places, rooms, offsets, g.disk, p)
            &&& r matches Ok((m, after)) ==> after == c
            &&& r matches Err(stop) ==> stop == Stop::Error(ExtractError::TalkieNotInIndex) || stop
                == Stop::Fault(Fault::IndexEntry)
        }),
{
    lemma_containers_differ();
    assert(TLKE@ =~= seq![0x54u8, 0x4c, 0x4b, 0x45]);
    lemma_found(g.index, g.index.talkies, g.disk, p, ExtractError::TalkieNotInIndex, n);
}

/// A global script whose header stands at `p` has the number of the first entry of the scripts in
/// the index that stands there. If there is none it is refused, and the container stays as it is.
pub proof fn law_scripts_are_numbered_by_their_place(
    g: Game,
    c: ContainerView,
    p: int,
    content: Seq<u8>,
    n: i32,
)
    ensures
        ({
            let r = walk::number_flat(g, c, seq![0x53u8, 0x43, 0x52, 0x50], p + 8, content);
            let (disks, places) = (g.index.lfl_disks, g.index.lfl_offsets);
            let (rooms, offsets) = (g.index.scripts.room_numbers, g.index.scripts.offsets);
            &&& r == Ok::<(i32, ContainerView), Stop>((n, c)) <==> first_at(
                disks,
                places,
                rooms,
                offsets,
                g.disk,
                p,
                n as int,
            )
            &&& r == Err::<(i32, ContainerView), Stop>(
                Stop::Error(ExtractError::ScriptNotInIndex),
            ) <==> p >= 2147483648 || none_at(disks, places, rooms, offsets, g.disk, p)
            &&& r matches Ok((m, after)) ==> after == c
            &&& r matches Err(stop) ==> stop == Stop::Error(ExtractError::ScriptNotInIndex) || stop
                == Stop::Fault(Fault::IndexEntry)
        }),
{
    assert(SCRP@ =~= seq![0x53u8, 0x43, 0x52, 0x50]);
    lemma_found(g.index, g.index.scripts, g.disk, p, ExtractError::ScriptNotInIndex, n);
}

/// A room whose content stands at `p` has the number of the first room in the index that is on the
/// disk and stands there, and is the room that what follows belongs to. If there is none it is
/// refused.
pub proof fn law_rooms_are_numbered_by_their_place(g: Game, c: ContainerView, p: int, n: i32)
    ensures
        ({
            let r = walk::number_nested(g, c, seq![0x4cu8, 0x46, 0x4c, 0x46], p);
            let (disks, places) = (g.index.lfl_disks, g.index.lfl_offsets);
            &&& r == Ok::<(i32, ContainerView), Stop>((n, ContainerView { room: n, ..c })) <==> {
                &&& 0 <= n < disks.len()
                &&& forall|i: int|
                    0 <= i <= n && #[trigger] disks[i] == g.disk ==> i < places.len() && (places[i]
                        == p <==> i == n)
                &&& disks[n as int] == g.disk
            }
            &&& r == Err::<(i32, ContainerView), Stop>(
                Stop::Error(ExtractError::LflNotInIndex),
            ) <==> forall|i: int|
                0 <= i < disks.len() && #[trigger] disks[i] == g.disk ==> i < places.len()
                    && places[i] != p
            &&& r matches Ok((m, after)) ==> after == (ContainerView { room: m, ..c })
            &&& r matches Err(stop) ==> stop == Stop::Error(ExtractError::LflNotInIndex) || stop
                == Stop::Fault(Fault::IndexEntry)
        }),
{
    lemma_containers_differ();
    assert(LFLF@ =~= seq![0x4cu8, 0x46, 0x4c, 0x46]);
    let (disks, places) = (g.index.lfl_disks, g.index.lfl_offsets);
    let r = lookup::lfl_number(g.index, g.disk, p);
    lookup::law_no_room_is_found(g.index, g.disk, p);
    lookup::law_first_room_is_found(g.index, g.disk, p, n as int);
    if let Ok(Some(m)) = r {
        lookup::law_first_room_is_found(g.index, g.disk, p, m);
        assert(m as i32 == m);
        if m == n {
            assert forall|i: int| 0 <= i <= n && #[trigger] disks[i] == g.disk implies i
                < places.len() && (places[i] == p <==> i == n) by {
                assert(lookup::room_at(g.index, g.disk, p, i) <==> i == n);
            }
        }
    }
    if 0 <= n < disks.len() && disks[n as int] == g.disk && (forall|i: int|
        0 <= i <= n && #[trigger] disks[i] == g.disk ==> i < places.len() && (places[i] == p <==> i
            == n)) {
        assert forall|i: int| 0 <= i < n implies !(#[trigger] lookup::room_at(
            g.index,
            g.disk,
            p,
            i,
        )) && !lookup::room_broken(g.index, g.disk, p, i) by {
            assert(disks[i] == disks[i]);
        }
    }
    if r == Ok::<Option<int>, Stop>(None) {
        assert forall|i: int| 0 <= i < disks.len() && #[trigger] disks[i] == g.disk implies i
            < places.len() && places[i] != p by {
            assert(!lookup::room_at(g.index, g.disk, p, i));
        }
    }
    if forall|i: int|
        0 <= i < disks.len() && #[trigger] disks[i] == g.disk ==> i < places.len() && places[i]
            != p {
        assert forall|i: int| 0 <= i < disks.len() implies !(#[trigger] lookup::room_at(
            g.index,
            g.disk,
            p,
            i,
        )) && !lookup::room_broken(g.index, g.disk, p, i) by {
            assert(disks[i] == disks[i]);
        }
    }
}

/// The kinds of containers with numbers of their own are different.
proof fn lemma_containers_differ()
    ensures
        LECF@ != LFLF@ && LECF@ != DIGI@ && LECF@ != TALK@ && LECF@ != TLKE@,
        LFLF@ != DIGI@ && LFLF@ != TALK@ && LFLF@ != TLKE@,
        DIGI@ != TALK@ && DIGI@ != TLKE@ && TALK@ != TLKE@,
{
    assert(LECF@[1] != LFLF@[1] && LECF@[0] != DIGI@[0] && LECF@[0] != TALK@[0] && LECF@[0]
        != TLKE@[0]);
    assert(LFLF@[0] != DIGI@[0] && LFLF@[0] != TALK@[0] && LFLF@[0] != TLKE@[0]);
    assert(DIGI@[0] != TALK@[0] && DIGI@[0] != TLKE@[0] && TALK@[1] != TLKE@[1]);
}

/// The container of a disk has the number of the disk.
pub proof fn law_disks_have_their_own_number(g: Game, c: ContainerView, offset: int)
    ensures
        walk::number_nested(g, c, seq![0x4cu8, 0x45, 0x43, 0x46], offset) == Ok::<
            (i32, ContainerView),
            Stop,
        >((g.disk as i32, c)),
{
    assert(LECF@ =~= seq![0x4cu8, 0x45, 0x43, 0x46]);
}

/// A local script has the number that the first four bytes of its content are, the least significant
/// first; content that is shorter is refused. The container stays as it is.
pub proof fn law_local_scripts_hold_their_number(
    g: Game,
    c: ContainerView,
    offset: int,
    content: Seq<u8>,
)
    ensures
        ({
            let r = walk::number_flat(g, c, seq![0x4cu8, 0x53, 0x43, 0x32], offset, content);
            let sum = content[0] + 256 * content[1] + 65536 * content[2] + 16777216 * content[3];
            &&& content.len() < 4 ==> r == Err::<(i32, ContainerView), Stop>(
                Stop::Error(ExtractError::LocalScriptHeader),
            )
            &&& content.len() >= 4 ==> (r matches Ok((n, after)) && after == c && (n - sum)
                % 4294967296 == 0)
        }),
{
    assert(LSC2@ =~= seq![0x4cu8, 0x53, 0x43, 0x32]);
    assert(SCRP@[0] != LSC2@[0]);
    bytes::law_numbers_are_made_of_bytes(content, 0);
}

/// An object header has the number that the first two bytes of its content are, the least
/// significant first, and what follows belongs to the object with that number; content that is
/// shorter is refused.
pub proof fn law_object_headers_hold_their_number(
    g: Game,
    c: ContainerView,
    offset: int,
    content: Seq<u8>,
)
    ensures
        ({
            let r = walk::number_flat(g, c, seq![0x43u8, 0x44, 0x48, 0x44], offset, content);
            &&& content.len() < 2 ==> r == Err::<(i32, ContainerView), Stop>(
                Stop::Error(ExtractError::ObjectHeader),
            )
            &&& content.len() >= 2 ==> (r matches Ok((n, after)) && n == content[0] + 256
                * content[1] && after.object == n && after == (ContainerView {
                object: after.object,
                ..c
            }))
        }),
{
    assert(CDHD@ =~= seq![0x43u8, 0x44, 0x48, 0x44]);
    assert(SCRP@[0] != CDHD@[0] && LSC2@[0] != CDHD@[0]);
}

/// How many of the first `n` blocks are of the kind and are counted.
pub open spec fn seen(blocks: Seq<Block>, n: int, id: Seq<u8>) -> int
    decreases n,
{
    if n <= 0 {
        0
    } else {
        seen(blocks, n - 1, id) + if laws::is_counted(blocks[n - 1]) && laws::block_id(
            blocks[n - 1],
        ) == id {
            1int
        } else {
            0
        }
    }
}

/// Once the first blocks of a container were unpacked, the count of a kind is how many of them were
/// of that kind.
proof fn lemma_counts_are_what_was_seen(
    g: Game,
    blocks: Seq<Block>,
    c: ContainerView,
    n: int,
    id: Seq<u8>,
)
    requires
        laws::four_byte_names(blocks),
        id.len() == 4,
        0 <= n <= blocks.len(),
        walk::walk(g, blocks, Ok(()), c).end is Ok,
    ensures
        walk::counted(walk::walk(g, blocks.take(n), Ok(()), c).container, id) == walk::counted(c, id)
            + seen(blocks, n, id),
    decreases n,
{
    if n == 0 {
        assert(walk::walk(g, blocks.take(0), Ok(()), c).container == c);
    } else {
        lemma_counts_are_what_was_seen(g, blocks, c, n - 1, id);
        let at = laws::lemma_walk_reaches(g, blocks, Ok(()), c, n - 1);
        let block = blocks[n - 1];
        let front = blocks.take(n - 1);
        let one = seq![block];
        assert(blocks.take(n) =~= front + one);
        laws::law_runs_follow_each_other(g, front, one, Ok(()), c);
        let step = walk::walk_block(g, block, at);
        let none = walk::walk(g, one.drop_first(), Ok(()), step.container);
        assert(none.container == step.container);
        assert(walk::walk(g, one, Ok(()), at).container == step.container);
        laws::law_blocks_are_listed(g, block, at);
        laws::lemma_numbering(g, at, block);
        if laws::is_counted(block) {
            laws::law_blocks_are_counted(at, laws::block_id(block), id);
        }
    }
}

/// The first block of a kind in a container has the number one, the second two, and so on, if blocks
/// like it are counted: its number is one more than there are such blocks before it.
pub proof fn law_blocks_are_numbered_from_one(g: Game, blocks: Seq<Block>, c: ContainerView, n: int)
    requires
        laws::four_byte_names(blocks),
        c.counts == Map::<u32, i32>::empty(),
        walk::walk(g, blocks, Ok(()), c).end is Ok,
        0 <= n < blocks.len(),
        laws::is_counted(blocks[n]),
    ensures
        laws::number_of(g, blocks, c, n) == 1 + seen(blocks, n, laws::block_id(blocks[n])),
{
    let id = laws::block_id(blocks[n]);
    lemma_counts_are_what_was_seen(g, blocks, c, n, id);
    let at = laws::lemma_walk_reaches(g, blocks, Ok(()), c, n);
    laws::law_blocks_are_listed(g, blocks[n], at);
    laws::lemma_numbering(g, at, blocks[n]);
    laws::law_blocks_are_counted(at, id, id);
}

/// Blocks of the kinds that have no number of their own are counted, whether they hold blocks or raw
/// content. A block can be counted until its kind has reached the greatest number there is, and
/// counting changes nothing but the count of its kind.
pub proof fn law_other_blocks_are_counted(
    g: Game,
    c: ContainerView,
    id: Seq<u8>,
    offset: int,
    content: Seq<u8>,
)
    ensures
        id != LECF@ && id != LFLF@ && id != DIGI@ && id != TALK@ && id != TLKE@
            ==> walk::number_nested(g, c, id, offset) == walk::count_block(c, id),
        id != SCRP@ && id != LSC2@ && id != CDHD@ ==> walk::number_flat(g, c, id, offset, content)
            == walk::count_block(c, id),
        walk::counted(c, id) < 2147483647 ==> (walk::count_block(c, id) matches Ok((n, after)) && n
            == walk::counted(c, id) + 1 && walk::counted(after, id) == n && after == (
        ContainerView { counts: after.counts, ..c })),
        walk::counted(c, id) == 2147483647 ==> walk::count_block(c, id) == Err::<
            (i32, ContainerView),
            Stop,
        >(Stop::Fault(Fault::TooManyBlocks)),
        walk::counted(c, id) <= 2147483647,
{
}

} // verus!
