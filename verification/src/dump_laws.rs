//! What holds of the index as text.
use crate::dump;
use crate::index::{DirectoryView, IndexView};
use crate::laws;
use crate::lookup;
use crate::numbering;
use crate::rebuild;
use crate::text;
use vstd::prelude::*;

verus! {

/// What stands behind each tabulator of a line, up to the next.
pub open spec fn cells(line: Seq<char>) -> Seq<Seq<char>>
    decreases line.len(),
    via cells_decreases
{
    match line.index_of_last('\t') {
        None => Seq::empty(),
        Some(k) => cells(line.take(k)).push(line.skip(k + 1)),
    }
}

#[via_fn]
proof fn cells_decreases(line: Seq<char>) {
    line.index_of_last_ensures('\t');
}

/// Whether a line shows the numbers, each behind a tabulator.
pub open spec fn shows(line: Seq<char>, numbers: Seq<int>) -> bool {
    &&& line.len() > 0
    &&& line[0] == '\t'
    &&& cells(line).len() == numbers.len()
    &&& forall|k: int|
        0 <= k < numbers.len() ==> {
            &&& text::number_in(#[trigger] cells(line)[k]) == numbers[k]
            &&& cells(line)[k] == text::decimal(numbers[k], 0)
        }
}

/// The line of the numbers.
spec fn row(numbers: Seq<int>) -> Seq<char>
    decreases numbers.len(),
{
    if numbers.len() == 0 {
        Seq::empty()
    } else {
        row(numbers.drop_last()) + dump::cell(numbers.last())
    }
}

/// A number in decimal has neither a tabulator nor a line break.
proof fn lemma_decimal_is_plain(n: int)
    ensures
        !text::decimal(n, 0).contains('\t'),
        !text::decimal(n, 0).contains('\n'),
{
    text::law_decimal_spells_the_number(n, 0);
    let s = text::decimal(n, 0);
    assert forall|i: int| 0 <= i < s.len() implies s[i] != '\t' && s[i] != '\n' by {
        if n < 0 && i > 0 || n >= 0 {
            assert('0' <= s[i] <= '9');
        }
    }
}

/// The line of the numbers shows them.
proof fn lemma_row_shows(numbers: Seq<int>)
    ensures
        cells(row(numbers)).len() == numbers.len(),
        forall|k: int|
            0 <= k < numbers.len() ==> #[trigger] cells(row(numbers))[k] == text::decimal(
                numbers[k],
                0,
            ),
        !row(numbers).contains('\n'),
        numbers.len() > 0 ==> shows(row(numbers), numbers),
    decreases numbers.len(),
{
    let line = row(numbers);
    if numbers.len() == 0 {
        line.index_of_last_ensures('\t');
    } else {
        reveal_strlit("\t");
        let front = numbers.drop_last();
        let n = numbers.last();
        lemma_row_shows(front);
        lemma_decimal_is_plain(n);
        let before = row(front);
        let last = text::decimal(n, 0);
        assert(line =~= before + seq!['\t'] + last);
        line.index_of_last_ensures('\t');
        let k = before.len() as int;
        assert(line[k] == '\t');
        assert(line.contains('\t'));
        assert forall|i: int| k < i < line.len() implies line[i] != '\t' by {
            assert(line[i] == last[i - k - 1]);
        }
        assert(line.index_of_last('\t') == Some(k));
        assert(line.take(k) =~= before);
        assert(line.skip(k + 1) =~= last);
        if line.contains('\n') {
            let i = choose|i: int| 0 <= i < line.len() && line[i] == '\n';
            if i < k {
                assert(before[i] == '\n');
            } else if i > k {
                assert(last[i - k - 1] == '\n');
            }
        }
        assert forall|j: int| 0 <= j < numbers.len() implies #[trigger] cells(line)[j]
            == text::decimal(numbers[j], 0) by {
            if j < front.len() {
                assert(cells(line)[j] == cells(before)[j]);
            }
        }
        assert forall|j: int| 0 <= j < numbers.len() implies text::number_in(
            #[trigger] cells(line)[j],
        ) == numbers[j] by {
            text::law_decimal_spells_the_number(numbers[j], 0);
        }
        if front.len() == 0 {
            assert(line[0] == '\t');
        } else {
            assert(line[0] == before[0]);
        }
    }
}

/// The lines of two lists of names are those of the first and then those of the second.
proof fn lemma_lines_add(a: Seq<Seq<char>>, b: Seq<Seq<char>>)
    ensures
        laws::lines(a + b) == laws::lines(a) + laws::lines(b),
    decreases b.len(),
{
    if b.len() == 0 {
        assert(a + b =~= a);
        assert(laws::lines(a) + laws::lines(b) =~= laws::lines(a));
    } else {
        lemma_lines_add(a, b.drop_last());
        assert((a + b).drop_last() =~= a + b.drop_last());
        assert((a + b).last() == b.last());
        assert(laws::lines(a + b) =~= laws::lines(a) + laws::lines(b));
    }
}

/// The line of a heading.
proof fn lemma_heading(heading: Seq<char>)
    ensures
        laws::lines(seq![heading]) == heading + "\n"@,
{
    let one = seq![heading];
    assert(one.drop_last() =~= Seq::empty());
    assert(laws::lines(one.drop_last()) =~= Seq::empty());
    assert(laws::lines(one) =~= heading + "\n"@);
}

/// The lines for a list of bytes.
spec fn disk_rows(list: Seq<u8>, n: int) -> Seq<Seq<char>> {
    Seq::new(n as nat, |i: int| row(seq![i, list[i] as int]))
}

/// The numbers in the line for entry `i` of a directory.
pub open spec fn entry_numbers(index: IndexView, dir: DirectoryView, i: int) -> Seq<int> {
    let room = dir.room_numbers[i] as int;
    seq![
        i,
        room,
        dir.offsets[i] as int,
        dir.glob_sizes[i] as int,
        index.lfl_disks[room] as int,
        index.lfl_offsets[room] + dir.offsets[i],
    ]
}

/// The lines for a directory.
spec fn entry_rows(index: IndexView, dir: DirectoryView, n: int) -> Seq<Seq<char>> {
    Seq::new(n as nat, |i: int| row(entry_numbers(index, dir, i)))
}

/// The text of a list of bytes is made of its lines.
proof fn lemma_disk_rows(list: Seq<u8>, n: int)
    requires
        0 <= n,
    ensures
        dump::disk_lines(list, n) == laws::lines(disk_rows(list, n)),
    decreases n,
{
    let rows = disk_rows(list, n);
    if n == 0 {
        assert(laws::lines(rows) =~= Seq::empty());
    } else {
        lemma_disk_rows(list, n - 1);
        assert(rows.drop_last() =~= disk_rows(list, n - 1));
        let numbers = seq![n - 1, list[n - 1] as int];
        reveal_with_fuel(row, 3);
        assert(numbers.drop_last() =~= seq![n - 1]);
        assert(numbers.drop_last().drop_last() =~= Seq::empty());
        assert(row(numbers) =~= dump::cell(n - 1) + dump::cell(list[n - 1] as int));
        assert(rows.last() == row(numbers));
        assert(dump::disk_lines(list, n) =~= laws::lines(rows));
    }
}

/// The line of six numbers is made of six cells.
proof fn lemma_six_cells(a: int, b: int, c: int, d: int, e: int, f: int)
    ensures
        row(seq![a, b, c, d, e, f]) == dump::cell(a) + dump::cell(b) + dump::cell(c) + dump::cell(d)
            + dump::cell(e) + dump::cell(f),
{
    assert(seq![a, b, c, d, e, f].drop_last() =~= seq![a, b, c, d, e]);
    assert(seq![a, b, c, d, e].drop_last() =~= seq![a, b, c, d]);
    assert(seq![a, b, c, d].drop_last() =~= seq![a, b, c]);
    assert(seq![a, b, c].drop_last() =~= seq![a, b]);
    assert(seq![a, b].drop_last() =~= seq![a]);
    assert(seq![a].drop_last() =~= Seq::<int>::empty());
    assert(row(Seq::<int>::empty()) =~= Seq::empty());
    assert(row(seq![a]) =~= dump::cell(a));
    assert(row(seq![a, b]) == row(seq![a]) + dump::cell(b));
    assert(row(seq![a, b, c]) == row(seq![a, b]) + dump::cell(c));
    assert(row(seq![a, b, c, d]) == row(seq![a, b, c]) + dump::cell(d));
    assert(row(seq![a, b, c, d, e]) == row(seq![a, b, c, d]) + dump::cell(e));
}

/// The text of a directory is made of its lines.
proof fn lemma_entry_rows(index: IndexView, dir: DirectoryView, n: int)
    requires
        0 <= n,
    ensures
        dump::entry_lines(index, dir, n) == laws::lines(entry_rows(index, dir, n)),
    decreases n,
{
    let rows = entry_rows(index, dir, n);
    if n == 0 {
        assert(laws::lines(rows) =~= Seq::empty());
    } else {
        lemma_entry_rows(index, dir, n - 1);
        assert(rows.drop_last() =~= entry_rows(index, dir, n - 1));
        let i = n - 1;
        let room = dir.room_numbers[i] as int;
        lemma_six_cells(
            i,
            room,
            dir.offsets[i] as int,
            dir.glob_sizes[i] as int,
            index.lfl_disks[room] as int,
            index.lfl_offsets[room] + dir.offsets[i],
        );
        assert(rows.last() == row(entry_numbers(index, dir, i)));
        assert(dump::entry_line(index, dir, i) == rows.last() + "\n"@);
        assert(dump::entry_lines(index, dir, n) =~= laws::lines(rows));
    }
}

/// All lines of the index as text.
spec fn all_rows(index: IndexView) -> Seq<Seq<char>> {
    let disks = disk_rows(index.lfl_disks, index.lfl_disks.len() as int);
    seq!["lfl_disks:"@] + disks + seq!["lfl_offsets:"@] + disks + seq!["scripts:"@] + entry_rows(
        index,
        index.scripts,
        index.scripts.room_numbers.len() as int,
    ) + seq!["sounds:"@] + entry_rows(
        index,
        index.sounds,
        index.sounds.room_numbers.len() as int,
    )
}

/// The index as text is made of its lines.
proof fn lemma_all_rows(index: IndexView)
    ensures
        dump::index_text(index) == laws::lines(all_rows(index)),
{
    let n = index.lfl_disks.len() as int;
    let disks = disk_rows(index.lfl_disks, n);
    let scripts = entry_rows(index, index.scripts, index.scripts.room_numbers.len() as int);
    let sounds = entry_rows(index, index.sounds, index.sounds.room_numbers.len() as int);
    lemma_disk_rows(index.lfl_disks, n);
    lemma_entry_rows(index, index.scripts, index.scripts.room_numbers.len() as int);
    lemma_entry_rows(index, index.sounds, index.sounds.room_numbers.len() as int);
    let (h1, h2, h3, h4) = (
        seq!["lfl_disks:"@],
        seq!["lfl_offsets:"@],
        seq!["scripts:"@],
        seq!["sounds:"@],
    );
    lemma_heading("lfl_disks:"@);
    lemma_heading("lfl_offsets:"@);
    lemma_heading("scripts:"@);
    lemma_heading("sounds:"@);
    lemma_lines_add(h1, disks);
    lemma_lines_add(h1 + disks, h2);
    lemma_lines_add(h1 + disks + h2, disks);
    lemma_lines_add(h1 + disks + h2 + disks, h3);
    lemma_lines_add(h1 + disks + h2 + disks + h3, scripts);
    lemma_lines_add(h1 + disks + h2 + disks + h3 + scripts, h4);
    lemma_lines_add(h1 + disks + h2 + disks + h3 + scripts + h4, sounds);
    lemma_headings_are_lines();
}

/// The headings end their lines.
proof fn lemma_headings_are_lines()
    ensures
        "lfl_disks:\n"@ == "lfl_disks:"@ + "\n"@,
        "lfl_offsets:\n"@ == "lfl_offsets:"@ + "\n"@,
        "scripts:\n"@ == "scripts:"@ + "\n"@,
        "sounds:\n"@ == "sounds:"@ + "\n"@,
        !"lfl_disks:"@.contains('\n') && !"lfl_offsets:"@.contains('\n') && !"scripts:"@.contains(
            '\n',
        ) && !"sounds:"@.contains('\n'),
        "lfl_offsets:"@[0] != '\t' && "scripts:"@[0] != '\t' && "sounds:"@[0] != '\t',
{
    reveal_strlit("\n");
    reveal_strlit("lfl_disks:");
    reveal_strlit("lfl_disks:\n");
    reveal_strlit("lfl_offsets:");
    reveal_strlit("lfl_offsets:\n");
    reveal_strlit("scripts:");
    reveal_strlit("scripts:\n");
    reveal_strlit("sounds:");
    reveal_strlit("sounds:\n");
    assert("lfl_disks:\n"@ =~= "lfl_disks:"@ + "\n"@);
    assert("lfl_offsets:\n"@ =~= "lfl_offsets:"@ + "\n"@);
    assert("scripts:\n"@ =~= "scripts:"@ + "\n"@);
    assert("sounds:\n"@ =~= "sounds:"@ + "\n"@);
}

/// Where the lines of the index as text stand, and that none of them has a line break.
proof fn lemma_rows_stand(index: IndexView)
    ensures
        ({
            let t = all_rows(index);
            let n = index.lfl_disks.len() as int;
            let s = index.scripts.room_numbers.len() as int;
            let m = index.sounds.room_numbers.len() as int;
            &&& t.len() == 4 + 2 * n + s + m
            &&& t[0] == "lfl_disks:"@
            &&& t[1 + n] == "lfl_offsets:"@
            &&& t[2 + 2 * n] == "scripts:"@
            &&& t[3 + 2 * n + s] == "sounds:"@
            &&& forall|i: int|
                0 <= i < n ==> #[trigger] t[1 + i] == row(seq![i, index.lfl_disks[i] as int])
            &&& forall|i: int|
                0 <= i < n ==> #[trigger] t[2 + n + i] == row(seq![i, index.lfl_disks[i] as int])
            &&& forall|i: int|
                0 <= i < s ==> #[trigger] t[3 + 2 * n + i] == row(
                    entry_numbers(index, index.scripts, i),
                )
            &&& forall|i: int|
                0 <= i < m ==> #[trigger] t[4 + 2 * n + s + i] == row(
                    entry_numbers(index, index.sounds, i),
                )
        }),
        forall|j: int|
            0 <= j < all_rows(index).len() ==> !(#[trigger] all_rows(index)[j]).contains('\n'),
{
    let t = all_rows(index);
    let n = index.lfl_disks.len() as int;
    let s = index.scripts.room_numbers.len() as int;
    let m = index.sounds.room_numbers.len() as int;
    lemma_headings_are_lines();
    assert forall|j: int| 0 <= j < t.len() implies !(#[trigger] t[j]).contains('\n') by {
        if 1 <= j < 1 + n {
            lemma_row_shows(seq![j - 1, index.lfl_disks[j - 1] as int]);
        } else if 2 + n <= j < 2 + 2 * n {
            lemma_row_shows(seq![j - 2 - n, index.lfl_disks[j - 2 - n] as int]);
        } else if 3 + 2 * n <= j < 3 + 2 * n + s {
            lemma_row_shows(entry_numbers(index, index.scripts, j - 3 - 2 * n));
        } else if 4 + 2 * n + s <= j {
            lemma_row_shows(entry_numbers(index, index.sounds, j - 4 - 2 * n - s));
        }
    }
}

/// What an index holds can be read back from its text. Under its heading each room has a line that
/// shows its number and its disk, and the same lines stand under the next heading. Each script, and
/// each sound, has a line that shows its number, its room, where it stands in the room, its size,
/// the disk of the room, and where it stands on the disk. Every line is ended.
pub proof fn law_index_is_read_back_from_its_text(index: IndexView)
    ensures
        dump::index_text(index).len() > 0,
        dump::index_text(index).last() == '\n',
        ({
            let t = rebuild::text_lines(dump::index_text(index));
            let n = index.lfl_disks.len() as int;
            let s = index.scripts.room_numbers.len() as int;
            let m = index.sounds.room_numbers.len() as int;
            &&& t.len() == 4 + 2 * n + s + m
            &&& t[0] == "lfl_disks:"@
            &&& t[1 + n] == "lfl_offsets:"@
            &&& t[2 + 2 * n] == "scripts:"@
            &&& t[3 + 2 * n + s] == "sounds:"@
            &&& forall|i: int|
                0 <= i < n ==> shows(#[trigger] t[1 + i], seq![i, index.lfl_disks[i] as int])
            &&& forall|i: int|
                0 <= i < n ==> shows(#[trigger] t[2 + n + i], seq![i, index.lfl_disks[i] as int])
            &&& forall|i: int|
                0 <= i < s ==> shows(
                    #[trigger] t[3 + 2 * n + i],
                    entry_numbers(index, index.scripts, i),
                )
            &&& forall|i: int|
                0 <= i < m ==> shows(
                    #[trigger] t[4 + 2 * n + s + i],
                    entry_numbers(index, index.sounds, i),
                )
        }),
{
    let t = all_rows(index);
    let n = index.lfl_disks.len() as int;
    let s = index.scripts.room_numbers.len() as int;
    let m = index.sounds.room_numbers.len() as int;
    lemma_all_rows(index);
    lemma_rows_stand(index);
    rebuild::lemma_lines_read_back(t);
    assert forall|i: int| 0 <= i < n implies shows(
        #[trigger] t[1 + i],
        seq![i, index.lfl_disks[i] as int],
    ) by {
        lemma_row_shows(seq![i, index.lfl_disks[i] as int]);
    }
    assert forall|i: int| 0 <= i < n implies shows(
        #[trigger] t[2 + n + i],
        seq![i, index.lfl_disks[i] as int],
    ) by {
        lemma_row_shows(seq![i, index.lfl_disks[i] as int]);
    }
    assert forall|i: int| 0 <= i < s implies shows(
        #[trigger] t[3 + 2 * n + i],
        entry_numbers(index, index.scripts, i),
    ) by {
        lemma_row_shows(entry_numbers(index, index.scripts, i));
    }
    assert forall|i: int| 0 <= i < m implies shows(
        #[trigger] t[4 + 2 * n + s + i],
        entry_numbers(index, index.sounds, i),
    ) by {
        lemma_row_shows(entry_numbers(index, index.sounds, i));
    }
}

/// Indexes with the same text have the same disks.
pub proof fn law_different_disks_have_different_texts(a: IndexView, b: IndexView)
    requires
        dump::index_text(a) == dump::index_text(b),
    ensures
        a.lfl_disks == b.lfl_disks,
{
    law_index_is_read_back_from_its_text(a);
    law_index_is_read_back_from_its_text(b);
    lemma_headings_are_lines();
    let t = rebuild::text_lines(dump::index_text(a));
    let (n, k) = (a.lfl_disks.len() as int, b.lfl_disks.len() as int);
    if n < k {
        assert(shows(t[1 + n], seq![n, b.lfl_disks[n] as int]));
    }
    if k < n {
        assert(shows(t[1 + k], seq![k, a.lfl_disks[k] as int]));
    }
    assert forall|i: int| 0 <= i < n implies a.lfl_disks[i] == b.lfl_disks[i] by {
        let x = seq![i, a.lfl_disks[i] as int];
        let y = seq![i, b.lfl_disks[i] as int];
        assert(shows(t[1 + i], x) && shows(t[1 + i], y));
        assert(text::number_in(cells(t[1 + i])[1]) == x[1]);
        assert(text::number_in(cells(t[1 + i])[1]) == y[1]);
    }
    assert(a.lfl_disks =~= b.lfl_disks);
}

/// Whether every entry of a directory has a size, names a room that is listed, and stands where a
/// 32-bit offset reaches.
pub open spec fn all_reached(index: IndexView, dir: DirectoryView) -> bool {
    &&& dir.room_numbers.len() <= dir.glob_sizes.len()
    &&& forall|i: int|
        0 <= i < dir.room_numbers.len() ==> #[trigger] numbering::reached(
            index.lfl_disks,
            index.lfl_offsets,
            dir.room_numbers,
            dir.offsets,
            i,
        )
}

/// An index can be shown as text exactly if every script and every sound has a size, names a room
/// that is listed, and stands where a 32-bit offset reaches.
pub proof fn law_what_can_be_shown(index: IndexView)
    ensures
        dump::dumpable(index) <==> all_reached(index, index.scripts) && all_reached(
            index,
            index.sounds,
        ),
{
    lemma_complete_is_reached(index, index.scripts);
    lemma_complete_is_reached(index, index.sounds);
}

/// A directory is complete exactly if every entry is reached and has a size.
proof fn lemma_complete_is_reached(index: IndexView, dir: DirectoryView)
    ensures
        dump::directory_complete(index, dir) <==> all_reached(index, dir),
{
    if dump::directory_complete(index, dir) {
        assert forall|i: int| 0 <= i < dir.room_numbers.len() implies #[trigger] numbering::reached(
            index.lfl_disks,
            index.lfl_offsets,
            dir.room_numbers,
            dir.offsets,
            i,
        ) by {
            assert(lookup::entry_placed(index, dir, i));
        }
        if dir.room_numbers.len() > 0 {
            assert(lookup::entry_placed(index, dir, dir.room_numbers.len() - 1));
        }
    }
    if all_reached(index, dir) {
        assert forall|i: int| 0 <= i < dir.room_numbers.len() implies #[trigger]
            lookup::entry_placed(index, dir, i) && i < dir.glob_sizes.len() by {
            assert(numbering::reached(
                index.lfl_disks,
                index.lfl_offsets,
                dir.room_numbers,
                dir.offsets,
                i,
            ));
        }
    }
}

} // verus!
