//! The index of a game as text.
use crate::index::{Directory, DirectoryView, Index, IndexView};
use crate::lookup;
use crate::text;
use vstd::prelude::*;
use vstd::string::*;

verus! {

/// A number in its column, behind a tabulator.
pub open spec fn cell(n: int) -> Seq<char> {
    "\t"@ + text::decimal(n, 0)
}

/// The line for entry `i` of a list of bytes.
pub open spec fn disk_line(list: Seq<u8>, i: int) -> Seq<char> {
    cell(i) + cell(list[i] as int) + "\n"@
}

/// The lines for the first `n` entries of a list of bytes.
pub open spec fn disk_lines(list: Seq<u8>, n: int) -> Seq<char>
    decreases n,
{
    if n <= 0 {
        Seq::empty()
    } else {
        disk_lines(list, n - 1) + disk_line(list, n - 1)
    }
}

/// The line for entry `i` of a directory: its number, its room, where it stands in the room, its
/// size, the disk that the room is on and where the entry stands on the disk.
pub open spec fn entry_line(index: IndexView, dir: DirectoryView, i: int) -> Seq<char> {
    let room = dir.room_numbers[i];
    cell(i) + cell(room as int) + cell(dir.offsets[i] as int) + cell(dir.glob_sizes[i] as int)
        + cell(index.lfl_disks[room as int] as int) + cell(lookup::entry_place(index, dir, i))
        + "\n"@
}

/// The lines for the first `n` entries of a directory.
pub open spec fn entry_lines(index: IndexView, dir: DirectoryView, n: int) -> Seq<char>
    decreases n,
{
    if n <= 0 {
        Seq::empty()
    } else {
        entry_lines(index, dir, n - 1) + entry_line(index, dir, n - 1)
    }
}

/// The lines for all entries of a directory.
pub open spec fn directory_lines(index: IndexView, dir: DirectoryView) -> Seq<char> {
    entry_lines(index, dir, dir.room_numbers.len() as int)
}

/// The index as text. The disks are listed under the heading of the offsets as well, and the
/// talkies are left out.
pub open spec fn index_text(index: IndexView) -> Seq<char> {
    let disks = disk_lines(index.lfl_disks, index.lfl_disks.len() as int);
    "lfl_disks:\n"@ + disks + "lfl_offsets:\n"@ + disks + "scripts:\n"@ + directory_lines(
        index,
        index.scripts,
    ) + "sounds:\n"@ + directory_lines(index, index.sounds)
}

/// Whether the index tells all that the lines for a directory show.
pub open spec fn directory_complete(index: IndexView, dir: DirectoryView) -> bool {
    forall|i: int|
        0 <= i < dir.room_numbers.len() ==> #[trigger] lookup::entry_placed(index, dir, i) && i
            < dir.glob_sizes.len()
}

/// Whether the index can be shown as text.
pub open spec fn dumpable(index: IndexView) -> bool {
    directory_complete(index, index.scripts) && directory_complete(index, index.sounds)
}

/// Appends the cell of `n`.
fn push_cell(line: &mut String, n: i32)
    ensures
        final(line)@ == old(line)@ + cell(n as int),
{
    let ghost start = line@;
    line.append("\t");
    text::push_decimal(line, n, 0);
    assert(line@ =~= start + cell(n as int));
}

/// Starts a line with the cell of `n`.
fn start_line(n: usize) -> (line: String)
    ensures
        line@ == cell(n as int),
{
    let mut line: String = "\t".to_owned();
    text::push_digits(&mut line, n as u64);
    assert(line@ =~= cell(n as int));
    line
}

/// Appends the lines for a list of bytes.
fn dump_disks(w: &mut String, list: &Vec<u8>)
    ensures
        final(w)@ == old(w)@ + disk_lines(list@, list@.len() as int),
{
    let ghost start = w@;
    let mut i: usize = 0;
    assert(w@ =~= start + disk_lines(list@, 0));
    while i < list.len()
        invariant
            i <= list@.len(),
            w@ == start + disk_lines(list@, i as int),
            start == old(w)@,
        decreases list.len() - i,
    {
        let mut line: String = start_line(i);
        push_cell(&mut line, list[i] as i32);
        line.append("\n");
        w.append(line.as_str());
        i = i + 1;
        assert(w@ =~= start + disk_lines(list@, i as int));
    }
}

/// Appends the lines for a directory.
fn dump_directory(w: &mut String, index: &Index, dir: &Directory)
    requires
        directory_complete(index@, dir@),
    ensures
        final(w)@ == old(w)@ + directory_lines(index@, dir@),
{
    let ghost start = w@;
    let mut i: usize = 0;
    assert(w@ =~= start + entry_lines(index@, dir@, 0));
    while i < dir.room_numbers.len()
        invariant
            i <= dir.room_numbers@.len(),
            w@ == start + entry_lines(index@, dir@, i as int),
            start == old(w)@,
            directory_complete(index@, dir@),
        decreases dir.room_numbers.len() - i,
    {
        assert(lookup::entry_placed(index@, dir@, i as int));
        let room: usize = dir.room_numbers[i] as usize;
        let mut line: String = start_line(i);
        push_cell(&mut line, dir.room_numbers[i] as i32);
        push_cell(&mut line, dir.offsets[i]);
        push_cell(&mut line, dir.glob_sizes[i]);
        push_cell(&mut line, index.lfl_disks[room] as i32);
        push_cell(&mut line, index.lfl_offsets[room] + dir.offsets[i]);
        line.append("\n");
        assert(line@ == entry_line(index@, dir@, i as int));
        w.append(line.as_str());
        i = i + 1;
        assert(w@ =~= start + entry_lines(index@, dir@, i as int));
    }
}

/// Appends the index as text.
///
/// Indexes that do not tell all that is shown are left out; [`can_dump_index`] tells them apart.
pub fn dump_index(w: &mut String, index: &Index)
    requires
        dumpable(index@),
    ensures
        final(w)@ == old(w)@ + index_text(index@),
{
    let ghost start = w@;
    w.append("lfl_disks:\n");
    dump_disks(w, &index.lfl_disks);
    w.append("lfl_offsets:\n");
    dump_disks(w, &index.lfl_disks);
    w.append("scripts:\n");
    dump_directory(w, index, &index.scripts);
    w.append("sounds:\n");
    dump_directory(w, index, &index.sounds);
    assert(w@ =~= start + index_text(index@));
}

/// Tells whether the index tells all that the lines for a directory show.
fn is_directory_complete(index: &Index, dir: &Directory) -> (r: bool)
    ensures
        r == directory_complete(index@, dir@),
{
    let mut i: usize = 0;
    while i < dir.room_numbers.len()
        invariant
            i <= dir.room_numbers@.len(),
            forall|j: int|
                0 <= j < i ==> #[trigger] lookup::entry_placed(index@, dir@, j) && j
                    < dir@.glob_sizes.len(),
        decreases dir.room_numbers.len() - i,
    {
        let room: usize = dir.room_numbers[i] as usize;
        if room >= index.lfl_disks.len() || room >= index.lfl_offsets.len() || i
            >= dir.offsets.len() || i >= dir.glob_sizes.len() {
            proof {
                if directory_complete(index@, dir@) {
                    assert(lookup::entry_placed(index@, dir@, i as int));
                }
            }
            return false;
        }
        if index.lfl_offsets[room].checked_add(dir.offsets[i]).is_none() {
            assert(!lookup::entry_placed(index@, dir@, i as int));
            return false;
        }
        i = i + 1;
    }
    assert(directory_complete(index@, dir@));
    true
}

/// Tells whether the index can be shown as text.
pub fn can_dump_index(index: &Index) -> (r: bool)
    ensures
        r == dumpable(index@),
{
    is_directory_complete(index, &index.scripts) && is_directory_complete(index, &index.sounds)
}

} // verus!
