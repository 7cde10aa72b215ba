//! The files of a game, as they are called on disk.
use vstd::prelude::*;
use vstd::string::*;

verus! {

/// Whether a path names the index of a game.
pub open spec fn is_index_path(path: Seq<char>) -> bool {
    path.len() >= 3 && path.skip(path.len() - 3) == "he0"@
}

/// What the paths of all files of a game start with, from the path of its index.
pub open spec fn base(path: Seq<char>) -> Seq<char> {
    path.take(path.len() - 3)
}

/// The path of the file that holds a disk. The disks are lettered from `a` on.
pub open spec fn disk_file(base: Seq<char>, disk: u8) -> Seq<char> {
    base + "("@ + seq![(disk + 0x60) as char] + ")"@
}

/// Gives what the paths of all files of a game start with, if `path` is the path of its index.
pub fn game_base(path: &str) -> (r: Option<String>)
    ensures
        match r {
            Some(s) => is_index_path(path@) && s@ == base(path@),
            None => !is_index_path(path@),
        },
{
    proof {
        reveal_strlit("he0");
    }
    let n: usize = path.unicode_len();
    if n < 3 {
        return None;
    }
    let ghost end = path@.skip(n - 3);
    assert(end[0] == path@[n - 3] && end[1] == path@[n - 2] && end[2] == path@[n - 1]);
    if path.get_char(n - 3) == 'h' && path.get_char(n - 2) == 'e' && path.get_char(n - 1) == '0' {
        assert(end =~= "he0"@);
        assert(path@.take(n - 3) =~= path@.subrange(0, n - 3));
        Some(path.substring_char(0, n - 3).to_owned())
    } else {
        None
    }
}

/// Gives the path of the file that holds a disk.
pub fn disk_path(base: &str, disk_number: u8) -> (r: String)
    requires
        disk_number + 0x61 <= u8::MAX,
    ensures
        r@ == disk_file(base@, disk_number),
{
    let mut path: String = base.to_owned();
    path.append("(");
    let letter: u8 = disk_number + 0x60;
    path.push(letter as char);
    path.append(")");
    assert(path@ =~= disk_file(base@, disk_number));
    path
}

/// A path is that of an index if and only if it ends in `he0`, and then it is what the paths of all
/// files start with, and `he0` behind it.
pub proof fn law_index_paths_end_in_he0(path: Seq<char>, front: Seq<char>)
    ensures
        is_index_path(front + seq!['h', 'e', '0']),
        base(front + seq!['h', 'e', '0']) == front,
        is_index_path(path) ==> path == base(path) + seq!['h', 'e', '0'],
{
    reveal_strlit("he0");
    let end = seq!['h', 'e', '0'];
    assert("he0"@ =~= end);
    let whole = front + end;
    assert(whole.skip(whole.len() - 3) =~= end);
    assert(whole.take(whole.len() - 3) =~= front);
    if is_index_path(path) {
        assert(path =~= path.take(path.len() - 3) + path.skip(path.len() - 3));
    }
}

/// The letter of a disk in the path of its file is as far behind `a` as the disk is behind the first.
pub proof fn law_disks_are_lettered(front: Seq<char>, disk: u8)
    requires
        disk + 0x61 <= u8::MAX,
    ensures
        ({
            let path = disk_file(front, disk);
            let n = front.len() as int;
            &&& path.len() == n + 3
            &&& path.take(n) == front
            &&& path[n] == '('
            &&& path[n + 1] as int - 'a' as int == disk - 1
            &&& path[n + 2] == ')'
        }),
{
    reveal_strlit("(");
    reveal_strlit(")");
    assert(disk_file(front, disk).take(front.len() as int) =~= front);
}

} // verus!
