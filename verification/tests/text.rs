use scumm_extract::dump::{can_dump_index, dump_index};
use scumm_extract::error::ExtractError;
use scumm_extract::files::{disk_path, game_base};
use scumm_extract::index::{Directory, Index};
use scumm_extract::text::{format_id_num, parent_path, push_decimal, push_digits};

fn decimal(n: i32, width: u64) -> String {
    let mut s = String::new();
    push_decimal(&mut s, n, width);
    s
}

#[test]
fn numbers_are_filled_up_with_zeros() {
    for n in [0, 1, 9, 10, 99, 100, 12345, i32::MAX, -1, -9, -10, -123, i32::MIN] {
        assert_eq!(decimal(n, 0), format!("{}", n));
        assert_eq!(decimal(n, 2), format!("{:02}", n));
        assert_eq!(decimal(n, 4), format!("{:04}", n));
    }
    assert_eq!(decimal(7, 2), "07");
    assert_eq!(decimal(-5, 4), "-005");
    let mut s = "x".to_string();
    push_digits(&mut s, u64::MAX);
    assert_eq!(s, "x18446744073709551615");
}

#[test]
fn block_names_are_text_and_number() {
    assert_eq!(format_id_num(b"LFLF", 3), Some("LFLF_03".to_string()));
    assert_eq!(format_id_num(b"SCRP", 1234), Some("SCRP_1234".to_string()));
    assert_eq!(format_id_num("é__".as_bytes(), -1), Some("é___-1".to_string()));
    assert_eq!(format_id_num(&[0xff, b'A', b'B', b'C'], 1), None);
}

#[test]
fn different_blocks_have_different_names() {
    let ids: [&[u8]; 4] = [b"ABC_", b"ABC0", "é__".as_bytes(), "_é_".as_bytes()];
    let mut names = Vec::new();
    for id in ids {
        for number in [-10, -1, 0, 1, 9, 10, 100] {
            names.push(format_id_num(id, number).unwrap());
        }
    }
    let count = names.len();
    names.sort();
    names.dedup();
    assert_eq!(names.len(), count);
}

#[test]
fn a_path_is_cut_at_its_last_slash() {
    assert_eq!(parent_path("./LECF_01/LFLF_02"), "./LECF_01");
    assert_eq!(parent_path("./é/b"), "./é");
    assert_eq!(parent_path("/"), "");
}

#[test]
fn the_index_path_gives_the_disk_paths() {
    let base = game_base("dir/game.he0").unwrap();
    assert_eq!(base, "dir/game.");
    assert_eq!(disk_path(&base, 1), "dir/game.(a)");
    assert_eq!(disk_path(&base, 2), "dir/game.(b)");
    assert_eq!(game_base("he0").as_deref(), Some(""));
    assert_eq!(game_base("game.he1"), None);
    assert_eq!(game_base("game.HE0"), None);
    assert_eq!(game_base("e0"), None);
}

#[test]
fn every_error_has_its_text() {
    let texts = [
        (ExtractError::UnexpectedEof, "failed to fill whole buffer"),
        (ExtractError::OutOfRange, "out of range integral type conversion attempted"),
        (ExtractError::IndexIncomplete, "index incomplete"),
        (ExtractError::LflNotInIndex, "LFL not in index"),
        (ExtractError::SoundNotInIndex, "sound not in index"),
        (ExtractError::TalkieNotInIndex, "talkie not in index"),
        (ExtractError::ScriptNotInIndex, "script missing from index"),
        (ExtractError::LocalScriptHeader, "local script missing header"),
        (ExtractError::ObjectHeader, "bad object header"),
        (ExtractError::MisalignedBlockEnd, "misaligned block end"),
        (ExtractError::WrongLength, "bug: block reader read wrong length"),
    ];
    for (error, text) in texts {
        assert_eq!(error.message(), text);
    }
}

fn sample_index() -> Index {
    Index {
        lfl_disks: vec![0, 1, 2],
        lfl_offsets: vec![0, 100, 200],
        scripts: Directory {
            room_numbers: vec![1, 2],
            offsets: vec![5, -6],
            glob_sizes: vec![70, 80],
        },
        sounds: Directory { room_numbers: vec![0], offsets: vec![-1], glob_sizes: vec![3] },
        talkies: Directory { room_numbers: vec![99], offsets: vec![], glob_sizes: vec![] },
    }
}

#[test]
fn an_index_is_dumped() {
    let index = sample_index();
    assert!(can_dump_index(&index));
    let mut w = "> ".to_string();
    dump_index(&mut w, &index);
    assert_eq!(
        w,
        "> lfl_disks:\n\t0\t0\n\t1\t1\n\t2\t2\n\
         lfl_offsets:\n\t0\t0\n\t1\t1\n\t2\t2\n\
         scripts:\n\t0\t1\t5\t70\t1\t105\n\t1\t2\t-6\t80\t2\t194\n\
         sounds:\n\t0\t0\t-1\t3\t0\t-1\n"
    );
}

#[test]
fn an_index_that_does_not_tell_enough_cannot_be_dumped() {
    let mut index = sample_index();
    index.sounds.room_numbers[0] = 3;
    assert!(!can_dump_index(&index));
    let mut index = sample_index();
    index.scripts.glob_sizes.pop();
    assert!(!can_dump_index(&index));
    let mut index = sample_index();
    index.scripts.offsets.pop();
    assert!(!can_dump_index(&index));
    let mut index = sample_index();
    index.scripts.offsets[0] = i32::MAX;
    assert!(!can_dump_index(&index));
    let mut index = sample_index();
    index.lfl_offsets.truncate(2);
    assert!(!can_dump_index(&index));
}
