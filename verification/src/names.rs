//! The names of the blocks that are treated in a way of their own.
use vstd::prelude::*;
use vstd::utf8::*;

verus! {

/// `DISK`: lists the disk of each room.
pub const DISK: [u8; 4] = [0x44, 0x49, 0x53, 0x4b];

/// `DLFL`: lists the offset of each room.
pub const DLFL: [u8; 4] = [0x44, 0x4c, 0x46, 0x4c];

/// `DIRS`: lists the scripts.
pub const DIRS: [u8; 4] = [0x44, 0x49, 0x52, 0x53];

/// `DIRN`: lists the sounds.
pub const DIRN: [u8; 4] = [0x44, 0x49, 0x52, 0x4e];

/// `DIRT`: lists the talkies.
pub const DIRT: [u8; 4] = [0x44, 0x49, 0x52, 0x54];

/// `LECF`: holds the rooms of a disk.
pub const LECF: [u8; 4] = [0x4c, 0x45, 0x43, 0x46];

/// `LFLF`: holds a room and what belongs to it.
pub const LFLF: [u8; 4] = [0x4c, 0x46, 0x4c, 0x46];

/// `DIGI`: holds a digital sound.
pub const DIGI: [u8; 4] = [0x44, 0x49, 0x47, 0x49];

/// `TALK`: holds a speech sound.
pub const TALK: [u8; 4] = [0x54, 0x41, 0x4c, 0x4b];

/// `TLKE`: holds a talkie.
pub const TLKE: [u8; 4] = [0x54, 0x4c, 0x4b, 0x45];

/// `SCRP`: a global script.
pub const SCRP: [u8; 4] = [0x53, 0x43, 0x52, 0x50];

/// `LSC2`: a local script, behind its number.
pub const LSC2: [u8; 4] = [0x4c, 0x53, 0x43, 0x32];

/// `CDHD`: an object header, which starts with the object's number.
pub const CDHD: [u8; 4] = [0x43, 0x44, 0x48, 0x44];

/// `ENCD`: the script that runs when a room is entered.
pub const ENCD: [u8; 4] = [0x45, 0x4e, 0x43, 0x44];

/// `EXCD`: the script that runs when a room is left.
pub const EXCD: [u8; 4] = [0x45, 0x58, 0x43, 0x44];

/// `VERB`: the scripts of an object's verbs.
pub const VERB: [u8; 4] = [0x56, 0x45, 0x52, 0x42];

/// Whether two block names are the same.
pub fn same_id(a: &[u8; 4], b: &[u8; 4]) -> (r: bool)
    ensures
        r == (a@ == b@),
{
    let r: bool = a[0] == b[0] && a[1] == b[1] && a[2] == b[2] && a[3] == b[3];
    assert(r ==> a@ =~= b@);
    r
}

/// The names are the bytes of their texts.
pub proof fn law_names_are_spelled()
    ensures
        DISK@ == encode_utf8("DISK"@),
        DLFL@ == encode_utf8("DLFL"@),
        DIRS@ == encode_utf8("DIRS"@),
        DIRN@ == encode_utf8("DIRN"@),
        DIRT@ == encode_utf8("DIRT"@),
        LECF@ == encode_utf8("LECF"@),
        LFLF@ == encode_utf8("LFLF"@),
        DIGI@ == encode_utf8("DIGI"@),
        TALK@ == encode_utf8("TALK"@),
        TLKE@ == encode_utf8("TLKE"@),
        SCRP@ == encode_utf8("SCRP"@),
        LSC2@ == encode_utf8("LSC2"@),
        CDHD@ == encode_utf8("CDHD"@),
        ENCD@ == encode_utf8("ENCD"@),
        EXCD@ == encode_utf8("EXCD"@),
        VERB@ == encode_utf8("VERB"@),
{
    reveal_strlit("DISK");
    is_ascii_chars_encode_utf8("DISK"@);
    assert(DISK@ =~= encode_utf8("DISK"@));
    reveal_strlit("DLFL");
    is_ascii_chars_encode_utf8("DLFL"@);
    assert(DLFL@ =~= encode_utf8("DLFL"@));
    reveal_strlit("DIRS");
    is_ascii_chars_encode_utf8("DIRS"@);
    assert(DIRS@ =~= encode_utf8("DIRS"@));
    reveal_strlit("DIRN");
    is_ascii_chars_encode_utf8("DIRN"@);
    assert(DIRN@ =~= encode_utf8("DIRN"@));
    reveal_strlit("DIRT");
    is_ascii_chars_encode_utf8("DIRT"@);
    assert(DIRT@ =~= encode_utf8("DIRT"@));
    reveal_strlit("LECF");
    is_ascii_chars_encode_utf8("LECF"@);
    assert(LECF@ =~= encode_utf8("LECF"@));
    reveal_strlit("LFLF");
    is_ascii_chars_encode_utf8("LFLF"@);
    assert(LFLF@ =~= encode_utf8("LFLF"@));
    reveal_strlit("DIGI");
    is_ascii_chars_encode_utf8("DIGI"@);
    assert(DIGI@ =~= encode_utf8("DIGI"@));
    reveal_strlit("TALK");
    is_ascii_chars_encode_utf8("TALK"@);
    assert(TALK@ =~= encode_utf8("TALK"@));
    reveal_strlit("TLKE");
    is_ascii_chars_encode_utf8("TLKE"@);
    assert(TLKE@ =~= encode_utf8("TLKE"@));
    reveal_strlit("SCRP");
    is_ascii_chars_encode_utf8("SCRP"@);
    assert(SCRP@ =~= encode_utf8("SCRP"@));
    reveal_strlit("LSC2");
    is_ascii_chars_encode_utf8("LSC2"@);
    assert(LSC2@ =~= encode_utf8("LSC2"@));
    reveal_strlit("CDHD");
    is_ascii_chars_encode_utf8("CDHD"@);
    assert(CDHD@ =~= encode_utf8("CDHD"@));
    reveal_strlit("ENCD");
    is_ascii_chars_encode_utf8("ENCD"@);
    assert(ENCD@ =~= encode_utf8("ENCD"@));
    reveal_strlit("EXCD");
    is_ascii_chars_encode_utf8("EXCD"@);
    assert(EXCD@ =~= encode_utf8("EXCD"@));
    reveal_strlit("VERB");
    is_ascii_chars_encode_utf8("VERB"@);
    assert(VERB@ =~= encode_utf8("VERB"@));
}

} // verus!
