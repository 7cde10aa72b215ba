//! Finding the number of a resource from the place where it stands.
use crate::error::{Fault, Stop};
use crate::index::{Directory, DirectoryView, Index, IndexView};
use vstd::prelude::*;

verus! {

/// The first of the entries from `i` on that is a hit. An entry that is broken ends the search.
pub open spec fn search(
    len: int,
    hit: spec_fn(int) -> bool,
    broken: spec_fn(int) -> bool,
    i: int,
) -> Result<Option<int>, Stop>
    decreases len - i,
{
    if i >= len {
        Ok(None)
    } else if broken(i) {
        Err(Stop::Fault(Fault::IndexEntry))
    } else if hit(i) {
        Ok(Some(i))
    } else {
        search(len, hit, broken, i + 1)
    }
}

/// Whether entry `i` is neither a hit nor broken.
pub open spec fn passes(hit: spec_fn(int) -> bool, broken: spec_fn(int) -> bool, i: int) -> bool {
    !hit(i) && !broken(i)
}

/// Whether the entries from `from` to `to` are neither hits nor broken.
pub open spec fn passed_over(
    hit: spec_fn(int) -> bool,
    broken: spec_fn(int) -> bool,
    from: int,
    to: int,
) -> bool {
    forall|j: int| from <= j < to ==> #[trigger] passes(hit, broken, j)
}

/// A search finds an entry if and only if it is a sound hit and every entry before it is passed
/// over; it finds nothing if and only if all are.
pub proof fn law_search_finds_the_first(
    len: int,
    hit: spec_fn(int) -> bool,
    broken: spec_fn(int) -> bool,
    from: int,
    n: int,
)
    ensures
        search(len, hit, broken, from) == Ok::<Option<int>, Stop>(Some(n)) <==> from <= n < len
            && hit(n) && !broken(n) && passed_over(hit, broken, from, n),
        search(len, hit, broken, from) == Ok::<Option<int>, Stop>(None) <==> passed_over(
            hit,
            broken,
            from,
            len,
        ),
    decreases len - from,
{
    if from < len {
        if !broken(from) && !hit(from) {
            law_search_finds_the_first(len, hit, broken, from + 1, n);
            assert(passed_over(hit, broken, from + 1, len) ==> passed_over(hit, broken, from, len));
            assert(passed_over(hit, broken, from + 1, n) ==> passed_over(hit, broken, from, n));
        } else {
            if passed_over(hit, broken, from, len) {
                assert(passes(hit, broken, from));
            }
            if from < n && passed_over(hit, broken, from, n) {
                assert(passes(hit, broken, from));
            }
        }
    }
}

/// Whether room `i` stands at `offset` of the disk.
pub open spec fn room_at(index: IndexView, disk: u8, offset: int, i: int) -> bool {
    index.lfl_disks[i] == disk && index.lfl_offsets[i] == offset
}

/// Whether the index does not tell where room `i` of the disk stands, or the room is the one at
/// `offset` and has a number that does not fit.
pub open spec fn room_broken(index: IndexView, disk: u8, offset: int, i: int) -> bool {
    index.lfl_disks[i] == disk && (i >= index.lfl_offsets.len() || (i > i32::MAX && room_at(
        index,
        disk,
        offset,
        i,
    )))
}

/// The number of the room that stands at `offset` of the disk.
pub open spec fn lfl_number(index: IndexView, disk: u8, offset: int) -> Result<Option<int>, Stop> {
    search(
        index.lfl_disks.len() as int,
        |i: int| room_at(index, disk, offset, i),
        |i: int| room_broken(index, disk, offset, i),
        0,
    )
}

/// Where entry `i` of the directory stands on its disk.
pub open spec fn entry_place(index: IndexView, dir: DirectoryView, i: int) -> int {
    index.lfl_offsets[dir.room_numbers[i] as int] + dir.offsets[i]
}

/// Whether the index tells where entry `i` of the directory stands.
pub open spec fn entry_placed(index: IndexView, dir: DirectoryView, i: int) -> bool {
    &&& dir.room_numbers[i] < index.lfl_disks.len()
    &&& dir.room_numbers[i] < index.lfl_offsets.len()
    &&& i < dir.offsets.len()
    &&& i32::MIN <= entry_place(index, dir, i) <= i32::MAX
}

/// Whether entry `i` of the directory stands at `offset` of the disk.
pub open spec fn entry_at(
    index: IndexView,
    dir: DirectoryView,
    disk: u8,
    offset: int,
    i: int,
) -> bool {
    index.lfl_disks[dir.room_numbers[i] as int] == disk && entry_place(index, dir, i) == offset
}

/// Whether the index does not tell where entry `i` of the directory stands, or the entry is the
/// one at `offset` and has a number that does not fit.
pub open spec fn entry_broken(
    index: IndexView,
    dir: DirectoryView,
    disk: u8,
    offset: int,
    i: int,
) -> bool {
    !entry_placed(index, dir, i) || (i > i32::MAX && entry_at(index, dir, disk, offset, i))
}

/// The number of the resource that stands at `offset` of the disk. Places that no 32-bit offset
/// reaches are not looked up.
pub open spec fn object_number(
    index: IndexView,
    dir: DirectoryView,
    disk: u8,
    offset: int,
) -> Result<Option<int>, Stop> {
    if offset > i32::MAX {
        Ok(None)
    } else {
        search(
            dir.room_numbers.len() as int,
            |i: int| entry_at(index, dir, disk, offset, i),
            |i: int| entry_broken(index, dir, disk, offset, i),
            0,
        )
    }
}

/// A room is found if and only if it is the first that stands at `offset` of the disk, its number
/// fits, and the index tells where every earlier room of the disk stands.
pub proof fn law_first_room_is_found(index: IndexView, disk: u8, offset: int, n: int)
    ensures
        lfl_number(index, disk, offset) == Ok::<Option<int>, Stop>(Some(n)) <==> {
            &&& 0 <= n < index.lfl_disks.len()
            &&& n < index.lfl_offsets.len()
            &&& n <= i32::MAX
            &&& room_at(index, disk, offset, n)
            &&& forall|j: int|
                0 <= j < n ==> !(#[trigger] room_at(index, disk, offset, j)) && !room_broken(
                    index,
                    disk,
                    offset,
                    j,
                )
        },
{
    let hit = |i: int| room_at(index, disk, offset, i);
    let broken = |i: int| room_broken(index, disk, offset, i);
    law_search_finds_the_first(index.lfl_disks.len() as int, hit, broken, 0, n);
    if passed_over(hit, broken, 0, n) {
        assert forall|j: int| 0 <= j < n implies !(#[trigger] room_at(index, disk, offset, j))
            && !room_broken(index, disk, offset, j) by {
            assert(passes(hit, broken, j));
        }
    }
    if forall|j: int|
        0 <= j < n ==> !(#[trigger] room_at(index, disk, offset, j)) && !room_broken(
            index,
            disk,
            offset,
            j,
        ) {
        assert forall|j: int| 0 <= j < n implies #[trigger] passes(hit, broken, j) by {
            assert(!room_at(index, disk, offset, j));
        }
    }
}

/// A resource is found if and only if it is the first in its directory that stands at `offset` of
/// the disk, its number fits, and the index tells where every earlier one stands.
pub proof fn law_first_object_is_found(
    index: IndexView,
    dir: DirectoryView,
    disk: u8,
    offset: int,
    n: int,
)
    requires
        offset <= i32::MAX,
    ensures
        object_number(index, dir, disk, offset) == Ok::<Option<int>, Stop>(Some(n)) <==> {
            &&& 0 <= n < dir.room_numbers.len()
            &&& n <= i32::MAX
            &&& entry_placed(index, dir, n)
            &&& entry_at(index, dir, disk, offset, n)
            &&& forall|j: int|
                0 <= j < n ==> !(#[trigger] entry_at(index, dir, disk, offset, j)) && entry_placed(
                    index,
                    dir,
                    j,
                )
        },
{
    let hit = |i: int| entry_at(index, dir, disk, offset, i);
    let broken = |i: int| entry_broken(index, dir, disk, offset, i);
    law_search_finds_the_first(dir.room_numbers.len() as int, hit, broken, 0, n);
    if passed_over(hit, broken, 0, n) {
        assert forall|j: int| 0 <= j < n implies !(#[trigger] entry_at(
            index,
            dir,
            disk,
            offset,
            j,
        )) && entry_placed(index, dir, j) by {
            assert(passes(hit, broken, j));
        }
    }
    if forall|j: int|
        0 <= j < n ==> !(#[trigger] entry_at(index, dir, disk, offset, j)) && entry_placed(
            index,
            dir,
            j,
        ) {
        assert forall|j: int| 0 <= j < n implies #[trigger] passes(hit, broken, j) by {
            assert(!entry_at(index, dir, disk, offset, j));
        }
    }
}

/// A search that fails does so by an entry.
pub proof fn lemma_search_fails_by_an_entry(
    len: int,
    hit: spec_fn(int) -> bool,
    broken: spec_fn(int) -> bool,
    from: int,
)
    ensures
        search(len, hit, broken, from) matches Err(stop) ==> stop == Stop::Fault(
            Fault::IndexEntry,
        ),
        search(len, hit, broken, from) matches Ok(Some(n)) ==> from <= n < len,
    decreases len - from,
{
    if from < len && !broken(from) && !hit(from) {
        lemma_search_fails_by_an_entry(len, hit, broken, from + 1);
    }
}

/// No room is found if and only if none stands at `offset` of the disk and the index tells where
/// every room of the disk stands. A search that fails does so by an entry.
pub proof fn law_no_room_is_found(index: IndexView, disk: u8, offset: int)
    ensures
        lfl_number(index, disk, offset) == Ok::<Option<int>, Stop>(None) <==> forall|j: int|
            0 <= j < index.lfl_disks.len() ==> !(#[trigger] room_at(index, disk, offset, j))
                && !room_broken(index, disk, offset, j),
        lfl_number(index, disk, offset) matches Err(stop) ==> stop == Stop::Fault(
            Fault::IndexEntry,
        ),
{
    let hit = |i: int| room_at(index, disk, offset, i);
    let broken = |i: int| room_broken(index, disk, offset, i);
    let len = index.lfl_disks.len() as int;
    law_search_finds_the_first(len, hit, broken, 0, 0);
    lemma_search_fails_by_an_entry(len, hit, broken, 0);
    if passed_over(hit, broken, 0, len) {
        assert forall|j: int| 0 <= j < len implies !(#[trigger] room_at(index, disk, offset, j))
            && !room_broken(index, disk, offset, j) by {
            assert(passes(hit, broken, j));
        }
    }
    if forall|j: int|
        0 <= j < index.lfl_disks.len() ==> !(#[trigger] room_at(index, disk, offset, j))
            && !room_broken(index, disk, offset, j) {
        assert forall|j: int| 0 <= j < len implies #[trigger] passes(hit, broken, j) by {
            assert(!room_at(index, disk, offset, j));
        }
    }
}

/// No resource is found if and only if none in its directory stands at `offset` of the disk and the
/// index tells where every one stands, or if no 32-bit offset reaches the place. A search that fails
/// does so by an entry.
pub proof fn law_no_object_is_found(
    index: IndexView,
    dir: DirectoryView,
    disk: u8,
    offset: int,
)
    ensures
        object_number(index, dir, disk, offset) == Ok::<Option<int>, Stop>(None) <==> offset
            > i32::MAX || forall|j: int|
            0 <= j < dir.room_numbers.len() ==> !(#[trigger] entry_at(index, dir, disk, offset, j))
                && entry_placed(index, dir, j),
        object_number(index, dir, disk, offset) matches Err(stop) ==> stop == Stop::Fault(
            Fault::IndexEntry,
        ),
{
    let hit = |i: int| entry_at(index, dir, disk, offset, i);
    let broken = |i: int| entry_broken(index, dir, disk, offset, i);
    let len = dir.room_numbers.len() as int;
    law_search_finds_the_first(len, hit, broken, 0, 0);
    lemma_search_fails_by_an_entry(len, hit, broken, 0);
    if passed_over(hit, broken, 0, len) {
        assert forall|j: int| 0 <= j < len implies !(#[trigger] entry_at(
            index,
            dir,
            disk,
            offset,
            j,
        )) && entry_placed(index, dir, j) by {
            assert(passes(hit, broken, j));
        }
    }
    if forall|j: int|
        0 <= j < dir.room_numbers.len() ==> !(#[trigger] entry_at(index, dir, disk, offset, j))
            && entry_placed(index, dir, j) {
        assert forall|j: int| 0 <= j < len implies #[trigger] passes(hit, broken, j) by {
            assert(!entry_at(index, dir, disk, offset, j));
        }
    }
}

/// A number that was looked up, as a number of the model.
pub open spec fn looked_up(r: Result<Option<i32>, Stop>) -> Result<Option<int>, Stop> {
    match r {
        Ok(Some(n)) => Ok(Some(n as int)),
        Ok(None) => Ok(None),
        Err(stop) => Err(stop),
    }
}

/// A number that was looked up is the same number in the model.
pub proof fn law_looking_up_keeps_the_number(n: i32, stop: Stop)
    ensures
        looked_up(Ok(Some(n))) == Ok::<Option<int>, Stop>(Some(n as int)),
        looked_up(Ok(None)) == Ok::<Option<int>, Stop>(None),
        looked_up(Err(stop)) == Err::<Option<int>, Stop>(stop),
{
}

/// Finds the number of the room that stands at `offset` of the disk.
pub fn find_lfl_number(disk_number: u8, offset: usize, index: &Index) -> (r: Result<
    Option<i32>,
    Stop,
>)
    ensures
        looked_up(r) == lfl_number(index@, disk_number, offset as int),
{
    let ghost hit = |i: int| room_at(index@, disk_number, offset as int, i);
    let ghost broken = |i: int| room_broken(index@, disk_number, offset as int, i);
    let mut i: usize = 0;
    while i < index.lfl_disks.len()
        invariant
            i <= index.lfl_disks@.len(),
            hit == (|i: int| room_at(index@, disk_number, offset as int, i)),
            broken == (|i: int| room_broken(index@, disk_number, offset as int, i)),
            search(index@.lfl_disks.len() as int, hit, broken, i as int) == lfl_number(
                index@,
                disk_number,
                offset as int,
            ),
        decreases index.lfl_disks.len() - i,
    {
        if index.lfl_disks[i] == disk_number {
            if i >= index.lfl_offsets.len() {
                return Err(Stop::Fault(Fault::IndexEntry));
            }
            let place: i32 = index.lfl_offsets[i];
            if place >= 0 && place as usize == offset {
                if i > i32::MAX as usize {
                    return Err(Stop::Fault(Fault::IndexEntry));
                }
                return Ok(Some(i as i32));
            }
        }
        i = i + 1;
    }
    Ok(None)
}

/// Finds the number of the resource that stands at `offset` of the disk.
pub fn find_object_number(
    index: &Index,
    dir: &Directory,
    disk_number: u8,
    offset: usize,
) -> (r: Result<Option<i32>, Stop>)
    ensures
        looked_up(r) == object_number(index@, dir@, disk_number, offset as int),
{
    if offset > i32::MAX as usize {
        return Ok(None);
    }
    let ghost hit = |i: int| entry_at(index@, dir@, disk_number, offset as int, i);
    let ghost broken = |i: int| entry_broken(index@, dir@, disk_number, offset as int, i);
    let mut i: usize = 0;
    while i < dir.room_numbers.len()
        invariant
            i <= dir.room_numbers@.len(),
            offset <= i32::MAX,
            hit == (|i: int| entry_at(index@, dir@, disk_number, offset as int, i)),
            broken == (|i: int| entry_broken(index@, dir@, disk_number, offset as int, i)),
            search(dir@.room_numbers.len() as int, hit, broken, i as int) == object_number(
                index@,
                dir@,
                disk_number,
                offset as int,
            ),
        decreases dir.room_numbers.len() - i,
    {
        let room: usize = dir.room_numbers[i] as usize;
        if room >= index.lfl_disks.len() || room >= index.lfl_offsets.len() || i
            >= dir.offsets.len() {
            return Err(Stop::Fault(Fault::IndexEntry));
        }
        match index.lfl_offsets[room].checked_add(dir.offsets[i]) {
            None => return Err(Stop::Fault(Fault::IndexEntry)),
            Some(place) => if index.lfl_disks[room] == disk_number && place == offset as i32 {
                if i > i32::MAX as usize {
                    return Err(Stop::Fault(Fault::IndexEntry));
                }
                return Ok(Some(i as i32));
            },
        }
        i = i + 1;
    }
    Ok(None)
}

} // verus!
