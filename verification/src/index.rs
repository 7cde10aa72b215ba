//! The index of a game: where its rooms, scripts, sounds and talkies stand.
use crate::bytes;
use crate::error;
use crate::error::{ExtractError, Stop};
use crate::layout;
use crate::names::{same_id, DIRN, DIRS, DIRT, DISK, DLFL};
use vstd::prelude::*;
use vstd::slice::*;

verus! {

/// Where the resources of a game stand.
#[derive(Debug)]
pub struct Index {
    pub lfl_disks: Vec<u8>,
    pub lfl_offsets: Vec<i32>,
    pub scripts: Directory,
    pub sounds: Directory,
    pub talkies: Directory,
}

/// Where the resources of one kind stand.
#[derive(Debug)]
pub struct Directory {
    /// The game internally calls this "disk number"
    pub room_numbers: Vec<u8>,
    /// The game internally calls this "disk offset"
    pub offsets: Vec<i32>,
    pub glob_sizes: Vec<i32>,
}

/// What a [`Directory`] lists.
pub struct DirectoryView {
    pub room_numbers: Seq<u8>,
    pub offsets: Seq<i32>,
    pub glob_sizes: Seq<i32>,
}

/// What an [`Index`] lists.
pub struct IndexView {
    pub lfl_disks: Seq<u8>,
    pub lfl_offsets: Seq<i32>,
    pub scripts: DirectoryView,
    pub sounds: DirectoryView,
    pub talkies: DirectoryView,
}

impl View for Directory {
    type V = DirectoryView;

    open spec fn view(&self) -> DirectoryView {
        DirectoryView {
            room_numbers: self.room_numbers@,
            offsets: self.offsets@,
            glob_sizes: self.glob_sizes@,
        }
    }
}

impl View for Index {
    type V = IndexView;

    open spec fn view(&self) -> IndexView {
        IndexView {
            lfl_disks: self.lfl_disks@,
            lfl_offsets: self.lfl_offsets@,
            scripts: self.scripts@,
            sounds: self.sounds@,
            talkies: self.talkies@,
        }
    }
}

impl DirectoryView {
    /// Whether the three columns are equally long.
    pub open spec fn even(self) -> bool {
        &&& self.offsets.len() == self.room_numbers.len()
        &&& self.glob_sizes.len() == self.room_numbers.len()
    }
}

/// The `count` signed 32-bit numbers that stand one behind the other from `at` on.
pub open spec fn numbers_at(s: Seq<u8>, at: int, count: int) -> Seq<i32> {
    Seq::new(count as nat, |i: int| bytes::le_i32(s, at + 4 * i) as i32)
}

/// The number of entries that the content of a block announces.
pub open spec fn entry_count(content: Seq<u8>) -> Result<int, Stop> {
    if content.len() < 2 {
        Err(Stop::Error(ExtractError::UnexpectedEof))
    } else {
        let n = bytes::le_i16(content, 0);
        if n < 0 {
            Err(Stop::Error(ExtractError::OutOfRange))
        } else {
            Ok(n)
        }
    }
}

/// The list of bytes that the content of a block holds.
pub open spec fn disk_list(content: Seq<u8>) -> Result<Seq<u8>, Stop> {
    match entry_count(content) {
        Err(stop) => Err(stop),
        Ok(n) => if content.len() < 2 + n {
            Err(Stop::Error(ExtractError::UnexpectedEof))
        } else {
            Ok(content.subrange(2, 2 + n))
        },
    }
}

/// The list of numbers that the content of a block holds.
pub open spec fn offset_list(content: Seq<u8>) -> Result<Seq<i32>, Stop> {
    match entry_count(content) {
        Err(stop) => Err(stop),
        Ok(n) => if content.len() < 2 + 4 * n {
            Err(Stop::Error(ExtractError::UnexpectedEof))
        } else {
            Ok(numbers_at(content, 2, n))
        },
    }
}

/// The directory that the content of a block holds: its three columns, one behind the other.
pub open spec fn directory(content: Seq<u8>) -> Result<DirectoryView, Stop> {
    match entry_count(content) {
        Err(stop) => Err(stop),
        Ok(n) => if content.len() < 2 + 9 * n {
            Err(Stop::Error(ExtractError::UnexpectedEof))
        } else {
            Ok(
                DirectoryView {
                    room_numbers: content.subrange(2, 2 + n),
                    offsets: numbers_at(content, 2 + n, n),
                    glob_sizes: numbers_at(content, 2 + 5 * n, n),
                },
            )
        },
    }
}

/// The lists that were found so far.
pub struct IndexParts {
    pub lfl_disks: Option<Seq<u8>>,
    pub lfl_offsets: Option<Seq<i32>>,
    pub scripts: Option<DirectoryView>,
    pub sounds: Option<DirectoryView>,
    pub talkies: Option<DirectoryView>,
}

/// Before anything was found.
pub open spec fn no_parts() -> IndexParts {
    IndexParts { lfl_disks: None, lfl_offsets: None, scripts: None, sounds: None, talkies: None }
}

/// What is known once a block has been read as well.
pub open spec fn with_block(parts: IndexParts, id: Seq<u8>, content: Seq<u8>) -> Result<
    IndexParts,
    Stop,
> {
    if id == DISK@ {
        match disk_list(content) {
            Err(stop) => Err(stop),
            Ok(list) => Ok(IndexParts { lfl_disks: Some(list), ..parts }),
        }
    } else if id == DLFL@ {
        match offset_list(content) {
            Err(stop) => Err(stop),
            Ok(list) => Ok(IndexParts { lfl_offsets: Some(list), ..parts }),
        }
    } else if id == DIRS@ {
        match directory(content) {
            Err(stop) => Err(stop),
            Ok(dir) => Ok(IndexParts { scripts: Some(dir), ..parts }),
        }
    } else if id == DIRN@ {
        match directory(content) {
            Err(stop) => Err(stop),
            Ok(dir) => Ok(IndexParts { sounds: Some(dir), ..parts }),
        }
    } else if id == DIRT@ {
        match directory(content) {
            Err(stop) => Err(stop),
            Ok(dir) => Ok(IndexParts { talkies: Some(dir), ..parts }),
        }
    } else {
        Ok(parts)
    }
}

/// What is known once every block from `pos` on has been read as well.
pub open spec fn with_blocks(parts: IndexParts, d: Seq<u8>, pos: int) -> Result<IndexParts, Stop>
    decreases d.len() - pos,
{
    if pos >= d.len() {
        Ok(parts)
    } else {
        match layout::header(d, pos) {
            Err(stop) => Err(stop),
            Ok(h) => if pos + h.len > d.len() {
                Err(Stop::Error(ExtractError::UnexpectedEof))
            } else {
                match with_block(parts, h.id, d.subrange(pos + 8, pos + h.len)) {
                    Err(stop) => Err(stop),
                    Ok(next) => with_blocks(next, d, pos + h.len),
                }
            },
        }
    }
}

/// The index that the parts make up, if none is missing.
pub open spec fn complete(parts: IndexParts) -> Result<IndexView, Stop> {
    match (parts.lfl_disks, parts.lfl_offsets, parts.scripts, parts.sounds, parts.talkies) {
        (
            Some(lfl_disks),
            Some(lfl_offsets),
            Some(scripts),
            Some(sounds),
            Some(talkies),
        ) => Ok(IndexView { lfl_disks, lfl_offsets, scripts, sounds, talkies }),
        _ => Err(Stop::Error(ExtractError::IndexIncomplete)),
    }
}

/// The index that a file holds.
pub open spec fn index_of(file: Seq<u8>) -> Result<IndexView, Stop> {
    match with_blocks(no_parts(), bytes::masked(file, bytes::NICE), 0) {
        Err(stop) => Err(stop),
        Ok(parts) => complete(parts),
    }
}

/// The lists that were found so far.
struct IndexState {
    lfl_disks: Option<Vec<u8>>,
    lfl_offsets: Option<Vec<i32>>,
    scripts: Option<Directory>,
    sounds: Option<Directory>,
    talkies: Option<Directory>,
}

/// What an optional directory lists.
pub open spec fn optional_directory(dir: Option<Directory>) -> Option<DirectoryView> {
    match dir {
        Some(dir) => Some(dir@),
        None => None,
    }
}

impl View for IndexState {
    type V = IndexParts;

    closed spec fn view(&self) -> IndexParts {
        IndexParts {
            lfl_disks: match self.lfl_disks {
                Some(list) => Some(list@),
                None => None,
            },
            lfl_offsets: match self.lfl_offsets {
                Some(list) => Some(list@),
                None => None,
            },
            scripts: optional_directory(self.scripts),
            sounds: optional_directory(self.sounds),
            talkies: optional_directory(self.talkies),
        }
    }
}

/// Reads the number of entries that a list announces.
fn read_count(r: &mut &[u8]) -> (n: Result<usize, Stop>)
    ensures
        match n {
            Ok(n) => entry_count(old(r)@) == Ok::<int, Stop>(n as int) && final(r)@ == old(r)@.skip(
                2,
            ),
            Err(stop) => entry_count(old(r)@) == Err::<int, Stop>(stop),
        },
{
    match bytes::read_i16_le(r) {
        Err(_) => Err(Stop::Error(ExtractError::UnexpectedEof)),
        Ok(n) => if n < 0 {
            Err(Stop::Error(ExtractError::OutOfRange))
        } else {
            Ok(n as usize)
        },
    }
}

/// Reads `n` bytes.
fn read_bytes(r: &mut &[u8], n: usize) -> (v: Result<Vec<u8>, Stop>)
    ensures
        match v {
            Ok(v) => n <= old(r)@.len() && v@ == old(r)@.take(n as int) && final(r)@
                == old(r)@.skip(n as int),
            Err(stop) => n > old(r)@.len() && stop == Stop::Error(ExtractError::UnexpectedEof),
        },
{
    if r.len() < n {
        return Err(Stop::Error(ExtractError::UnexpectedEof));
    }
    let v: Vec<u8> = slice_to_vec(slice_subrange(*r, 0, n));
    *r = slice_subrange(*r, n, r.len());
    Ok(v)
}

/// Reads `n` numbers.
fn read_numbers(r: &mut &[u8], n: usize) -> (v: Result<Vec<i32>, Stop>)
    ensures
        match v {
            Ok(v) => 4 * n <= old(r)@.len() && v@ == numbers_at(old(r)@, 0, n as int) && final(r)@
                == old(r)@.skip(4 * n),
            Err(stop) => 4 * n > old(r)@.len() && stop == Stop::Error(ExtractError::UnexpectedEof),
        },
{
    let mut list: Vec<i32> = vec![0; n];
    match bytes::read_i32_into_le(r, &mut list) {
        Err(_) => Err(Stop::Error(ExtractError::UnexpectedEof)),
        Ok(_) => {
            assert(list@ =~= numbers_at(old(r)@, 0, n as int));
            Ok(list)
        },
    }
}

/// Reads the directory that the content of a block holds.
fn read_directory(content: &[u8]) -> (r: Result<Directory, Stop>)
    ensures
        match r {
            Ok(dir) => directory(content@) == Ok::<DirectoryView, Stop>(dir@),
            Err(stop) => directory(content@) == Err::<DirectoryView, Stop>(stop),
        },
{
    let mut r: &[u8] = content;
    let count: usize = match read_count(&mut r) {
        Err(stop) => return Err(stop),
        Ok(n) => n,
    };
    let room_numbers: Vec<u8> = match read_bytes(&mut r, count) {
        Err(stop) => return Err(stop),
        Ok(list) => list,
    };
    let ghost columns = r@;
    let offsets: Vec<i32> = match read_numbers(&mut r, count) {
        Err(stop) => return Err(stop),
        Ok(list) => list,
    };
    let ghost last = r@;
    let glob_sizes: Vec<i32> = match read_numbers(&mut r, count) {
        Err(stop) => return Err(stop),
        Ok(list) => list,
    };
    proof {
        let n = count as int;
        assert(columns =~= content@.skip(2 + n));
        assert(last =~= content@.skip(2 + 5 * n));
        assert(room_numbers@ =~= content@.subrange(2, 2 + n));
        assert(offsets@ =~= numbers_at(content@, 2 + n, n));
        assert(glob_sizes@ =~= numbers_at(content@, 2 + 5 * n, n));
    }
    Ok(Directory { room_numbers, offsets, glob_sizes })
}

/// Takes in a block of the index. One that is refused leaves what is known as it was.
fn handle_index_block(state: &mut IndexState, id: &[u8; 4], content: &[u8]) -> (r: Result<(), Stop>)
    ensures
        match r {
            Ok(_) => with_block(old(state)@, id@, content@) == Ok::<IndexParts, Stop>(
                final(state)@,
            ),
            Err(stop) => with_block(old(state)@, id@, content@) == Err::<IndexParts, Stop>(stop)
                && final(state)@ == old(state)@,
        },
{
    if same_id(id, &DISK) {
        let mut r: &[u8] = content;
        let count: usize = match read_count(&mut r) {
            Err(stop) => return Err(stop),
            Ok(n) => n,
        };
        match read_bytes(&mut r, count) {
            Err(stop) => return Err(stop),
            Ok(list) => {
                assert(list@ =~= content@.subrange(2, 2 + count));
                state.lfl_disks = Some(list);
            },
        }
    } else if same_id(id, &DLFL) {
        let mut r: &[u8] = content;
        let count: usize = match read_count(&mut r) {
            Err(stop) => return Err(stop),
            Ok(n) => n,
        };
        match read_numbers(&mut r, count) {
            Err(stop) => return Err(stop),
            Ok(list) => {
                assert(list@ =~= numbers_at(content@, 2, count as int));
                state.lfl_offsets = Some(list);
            },
        }
    } else if same_id(id, &DIRS) {
        match read_directory(content) {
            Err(stop) => return Err(stop),
            Ok(dir) => state.scripts = Some(dir),
        }
    } else if same_id(id, &DIRN) {
        match read_directory(content) {
            Err(stop) => return Err(stop),
            Ok(dir) => state.sounds = Some(dir),
        }
    } else if same_id(id, &DIRT) {
        match read_directory(content) {
            Err(stop) => return Err(stop),
            Ok(dir) => state.talkies = Some(dir),
        }
    }
    Ok(())
}

/// Reads the index that a file holds, whatever the file holds.
pub fn try_read_index(file: &[u8]) -> (r: Result<Index, Stop>)
    ensures
        match r {
            Ok(index) => index_of(file@) == Ok::<IndexView, Stop>(index@),
            Err(stop) => index_of(file@) == Err::<IndexView, Stop>(stop),
        },
{
    let data: Vec<u8> = bytes::unmask(file, bytes::NICE);
    let mut state = IndexState {
        lfl_disks: None,
        lfl_offsets: None,
        scripts: None,
        sounds: None,
        talkies: None,
    };
    assert(state@ == no_parts());
    let mut pos: usize = 0;
    while pos < data.len()
        invariant
            pos <= data@.len(),
            data@ == bytes::masked(file@, bytes::NICE),
            with_blocks(state@, data@, pos as int) == with_blocks(no_parts(), data@, 0),
        decreases data.len() - pos,
    {
        let (id, len) = match layout::read_block_header(data.as_slice(), pos) {
            Err(stop) => return Err(stop),
            Ok(head) => head,
        };
        if len > data.len() - pos {
            return Err(Stop::Error(ExtractError::UnexpectedEof));
        }
        let content: &[u8] = slice_subrange(data.as_slice(), pos + 8, pos + len);
        match handle_index_block(&mut state, &id, content) {
            Err(stop) => return Err(stop),
            Ok(_) => {},
        }
        pos = pos + len;
    }
    match (state.lfl_disks, state.lfl_offsets, state.scripts, state.sounds, state.talkies) {
        (
            Some(lfl_disks),
            Some(lfl_offsets),
            Some(scripts),
            Some(sounds),
            Some(talkies),
        ) => Ok(Index { lfl_disks, lfl_offsets, scripts, sounds, talkies }),
        _ => Err(Stop::Error(ExtractError::IndexIncomplete)),
    }
}

/// Reads the index that a file holds.
///
/// Files with a fault are left out; [`try_read_index`] tells them apart.
pub fn read_index(file: &[u8]) -> (r: Result<Index, ExtractError>)
    requires
        !error::faulty(index_of(file@)),
    ensures
        match r {
            Ok(index) => index_of(file@) == Ok::<IndexView, Stop>(index@),
            Err(e) => index_of(file@) == Err::<IndexView, Stop>(Stop::Error(e)),
        },
{
    match try_read_index(file) {
        Ok(index) => Ok(index),
        Err(Stop::Error(e)) => Err(e),
        Err(Stop::Fault(_)) => {
            assert(false);
            Err(ExtractError::IndexIncomplete)
        },
    }
}

/// Nothing of an index is left out of what it lists.
pub proof fn law_indexes_are_seen_whole(index: Index)
    ensures
        index@.lfl_disks == index.lfl_disks@,
        index@.lfl_offsets == index.lfl_offsets@,
        index@.scripts == (DirectoryView {
            room_numbers: index.scripts.room_numbers@,
            offsets: index.scripts.offsets@,
            glob_sizes: index.scripts.glob_sizes@,
        }),
        index@.sounds == (DirectoryView {
            room_numbers: index.sounds.room_numbers@,
            offsets: index.sounds.offsets@,
            glob_sizes: index.sounds.glob_sizes@,
        }),
        index@.talkies == (DirectoryView {
            room_numbers: index.talkies.room_numbers@,
            offsets: index.talkies.offsets@,
            glob_sizes: index.talkies.glob_sizes@,
        }),
{
}

} // verus!
