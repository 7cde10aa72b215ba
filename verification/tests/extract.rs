use scumm_extract::error::{ExtractError, Fault, Stop};
use scumm_extract::extract::{extract, try_extract, Container, Extractor};
use scumm_extract::index::{Directory, Index};
use scumm_extract::output::{Output, Scope, ScriptOutput};
use std::collections::HashMap;

fn block(id: &[u8; 4], content: &[u8]) -> Vec<u8> {
    let mut out = id.to_vec();
    out.extend_from_slice(&(content.len() as i32 + 8).to_be_bytes());
    out.extend_from_slice(content);
    out
}

fn nested(id: &[u8; 4], blocks: &[Vec<u8>]) -> Vec<u8> {
    block(id, &blocks.concat())
}

fn mask(data: &[u8]) -> Vec<u8> {
    data.iter().map(|b| b ^ 0x69).collect()
}

fn directory(entries: &[(u8, i32)]) -> Directory {
    Directory {
        room_numbers: entries.iter().map(|e| e.0).collect(),
        offsets: entries.iter().map(|e| e.1).collect(),
        glob_sizes: entries.iter().map(|_| 0).collect(),
    }
}

/// Room 5 of disk 1 has its content at offset 16: behind the headers of disk and room.
fn game_index() -> Index {
    Index {
        lfl_disks: vec![0, 0, 0, 0, 0, 1],
        lfl_offsets: vec![0, 0, 0, 0, 0, 16],
        scripts: directory(&[]),
        sounds: directory(&[]),
        talkies: directory(&[]),
    }
}

/// A disk with one room.
fn disk(blocks: &[Vec<u8>]) -> Vec<u8> {
    nested(b"LECF", &[nested(b"LFLF", blocks)])
}

fn line(out: &Output) -> String {
    match out {
        Output::Block(file) => format!("{} {:?}", file.path, file.data),
        Output::Listing(file) => {
            format!("{} {}", file.path, std::str::from_utf8(&file.data).unwrap())
        }
        Output::Script(s) => {
            format!("{} {:?} {:?} {} {}", s.stem, s.code, s.scope, s.number, s.publish)
        }
    }
}

fn run(index: &Index, data: &[u8]) -> (Vec<String>, Result<(), Stop>) {
    let (outs, end) = try_extract(index, 1, false, &mask(data));
    (outs.iter().map(line).collect(), end)
}

fn error(e: ExtractError) -> Result<(), Stop> {
    Err(Stop::Error(e))
}

fn fault(f: Fault) -> Result<(), Stop> {
    Err(Stop::Fault(f))
}

#[test]
fn an_empty_file_gives_an_empty_list() {
    let (outs, end) = extract(&game_index(), 1, false, &[]);
    assert_eq!(end, Ok(()));
    assert_eq!(outs.iter().map(line).collect::<Vec<_>>(), vec!["./.map "]);
}

#[test]
fn a_room_is_unpacked() {
    let data = disk(&[
        block(b"RMHD", &[1, 2, 3]),
        block(b"ENCD", &[10]),
        block(b"EXCD", &[11, 12]),
        block(b"LSC2", &[0xd2, 4, 0, 0, 9, 8]),
        nested(
            b"OBCD",
            &[
                block(b"CDHD", &[0x2a, 1, 7]),
                block(b"VERB", &[1, 15, 0, 2, 17, 0, 0, 0xa1, 0xa2, 0xa3, 0xa4, 0xa5]),
                block(b"OBNA", &[]),
            ],
        ),
        block(b"RMHD", &[4]),
    ]);
    let (outs, end) = run(&game_index(), &data);
    assert_eq!(end, Ok(()));
    assert_eq!(
        outs,
        vec![
            "./LECF_01/LFLF_05/RMHD_01.bin [1, 2, 3]",
            "./LECF_01/LFLF_05/ENCD_01.bin [10]",
            "./LECF_01/LFLF_05/ENCD_01 [10] RoomEnter(5) 1 false",
            "./LECF_01/LFLF_05/EXCD_01.bin [11, 12]",
            "./LECF_01/LFLF_05/EXCD_01 [11, 12] RoomExit(5) 1 false",
            "./LECF_01/LFLF_05/LSC2_1234.bin [210, 4, 0, 0, 9, 8]",
            "./LECF_01/LFLF_05/LSC2_1234 [9, 8] RoomLocal(5, 1234) 1234 false",
            "./LECF_01/LFLF_05/OBCD_01/CDHD_298.bin [42, 1, 7]",
            "./LECF_01/LFLF_05/OBCD_01/VERB_01.bin [1, 15, 0, 2, 17, 0, 0, 161, 162, 163, 164, 165]",
            "./LECF_01/LFLF_05/OBCD_01/VERB_01 [161, 162] Verb(5, 298) 1 false",
            "./LECF_01/LFLF_05/OBCD_01/VERB_02 [163, 164, 165] Verb(5, 298) 2 false",
            "./LECF_01/LFLF_05/OBCD_01/OBNA_01.bin []",
            "./LECF_01/LFLF_05/OBCD_01/.map CDHD_298\nVERB_01\nOBNA_01\n",
            "./LECF_01/LFLF_05/RMHD_02.bin [4]",
            "./LECF_01/LFLF_05/.map RMHD_01\nENCD_01\nEXCD_01\nLSC2_1234\nOBCD_01\nRMHD_02\n",
            "./LECF_01/.map LFLF_05\n",
            "./.map LECF_01\n",
        ]
    );
}

#[test]
fn scripts_and_sounds_have_their_numbers_from_the_index() {
    let mut index = game_index();
    // headers at 16, 26 and 50
    index.scripts = directory(&[(0, 0), (0, 1), (5, 0)]);
    index.sounds = directory(&[(0, 0), (5, 10)]);
    index.talkies = directory(&[(5, 34)]);
    let data = disk(&[
        block(b"SCRP", &[1, 2]),
        nested(b"DIGI", &[block(b"HSHD", &[0; 8])]),
        nested(b"TLKE", &[block(b"TEXT", &[0; 1])]),
    ]);
    let (outs, end) = run(&index, &data);
    assert_eq!(end, Ok(()));
    assert_eq!(
        outs,
        vec![
            "./LECF_01/LFLF_05/SCRP_02.bin [1, 2]",
            "./LECF_01/LFLF_05/SCRP_02 [1, 2] Global(2) 2 false",
            "./LECF_01/LFLF_05/DIGI_01/HSHD_01.bin [0, 0, 0, 0, 0, 0, 0, 0]",
            "./LECF_01/LFLF_05/DIGI_01/.map HSHD_01\n",
            "./LECF_01/LFLF_05/TLKE_00/TEXT_01.bin [0]",
            "./LECF_01/LFLF_05/TLKE_00/.map TEXT_01\n",
            "./LECF_01/LFLF_05/.map SCRP_02\nDIGI_01\nTLKE_00\n",
            "./LECF_01/.map LFLF_05\n",
            "./.map LECF_01\n",
        ]
    );
}

#[test]
fn raw_blocks_of_container_kinds_are_counted() {
    let data = [block(b"LECF", &[1]), block(b"DIGI", &[2]), block(b"DIGI", &[3])].concat();
    let (outs, end) = run(&game_index(), &data);
    assert_eq!(end, Ok(()));
    assert_eq!(
        outs,
        vec![
            "./LECF_01.bin [1]",
            "./DIGI_01.bin [2]",
            "./DIGI_02.bin [3]",
            "./.map LECF_01\nDIGI_01\nDIGI_02\n",
        ]
    );
}

#[test]
fn the_disk_number_names_the_disk() {
    let data = nested(b"LECF", &[block(b"ABCD", &[])]);
    let (outs, end) = try_extract(&game_index(), 2, true, &mask(&data));
    assert_eq!(end, Ok(()));
    assert_eq!(line(&outs[0]), "./LECF_02/ABCD_01.bin []");
}

#[test]
fn content_is_taken_for_blocks_by_its_first_bytes() {
    let flat = |content: &[u8]| {
        let (outs, end) = run(&game_index(), &block(b"TEST", content));
        assert_eq!(end, Ok(()));
        outs.len() == 2 && outs[0].ends_with(&format!("{:?}", content))
    };
    assert!(flat(&[b'A', b'B', b'C', b'D', 0, 0, 0]));
    assert!(flat(&[b'A', b'B', b'C', 31, 0, 0, 0, 8]));
    assert!(flat(&[b'A', b'B', b'C', 127, 0, 0, 0, 8]));
    assert!(flat(&[b'A', b'B', b'C', b'D', 1, 0, 0, 0]));
    assert!(flat(&[b'A', b'B', b'C', b'D', 255, 255, 255, 255]));
    let (outs, _) = run(&game_index(), &block(b"TEST", &[b' ', b'~', b'C', b'D', 0, 0, 0, 8]));
    assert_eq!(outs, vec!["./TEST_01/ ~CD_01.bin []", "./TEST_01/.map  ~CD_01\n", "./.map TEST_01\n"]);
}

#[test]
fn a_name_with_a_slash_leaves_its_front_on_the_path() {
    let data = [nested(b"a/bc", &[block(b"ABCD", &[])]), block(b"EFGH", &[])].concat();
    let (outs, end) = run(&game_index(), &data);
    assert_eq!(end, Ok(()));
    assert_eq!(
        outs,
        vec![
            "./a/bc_01/ABCD_01.bin []",
            "./a/bc_01/.map ABCD_01\n",
            "./a/EFGH_01.bin []",
            "./a/.map a/bc_01\nEFGH_01\n",
        ]
    );
}

#[test]
fn the_object_and_the_room_hold_in_their_container_only() {
    let data = nested(
        b"LECF",
        &[
            nested(b"LFLF", &[nested(b"OBCD", &[block(b"CDHD", &[9, 0])]), block(b"VERB", &[3, 12, 0, 0])]),
            block(b"ENCD", &[1]),
        ],
    );
    let (outs, end) = run(&game_index(), &data);
    assert_eq!(end, Ok(()));
    assert_eq!(outs[3], "./LECF_01/LFLF_05/VERB_03 [] Verb(5, 0) 3 false");
    assert_eq!(outs[6], "./LECF_01/ENCD_01 [1] RoomEnter(5) 1 false");
    let (outs, _) = run(&game_index(), &[data, block(b"EXCD", &[])].concat());
    assert_eq!(outs[9], "./EXCD_01 [] RoomExit(0) 1 false");
}

#[test]
fn a_second_verb_block_is_unpacked_like_the_first() {
    let verb = block(b"VERB", &[1, 12, 0, 0, 7]);
    let (outs, end) = run(&game_index(), &[verb.clone(), verb].concat());
    assert_eq!(end, Ok(()));
    assert_eq!(
        outs,
        vec![
            "./VERB_01.bin [1, 12, 0, 0, 7]",
            "./VERB_01 [7] Verb(0, 0) 1 false",
            "./VERB_02.bin [1, 12, 0, 0, 7]",
            "./VERB_01 [7] Verb(0, 0) 1 false",
            "./.map VERB_01\nVERB_02\n",
        ]
    );
}

#[test]
fn resources_that_the_index_does_not_know_are_refused() {
    let child = block(b"ABCD", &[]);
    let ends = [
        (b"LFLF", ExtractError::LflNotInIndex),
        (b"DIGI", ExtractError::SoundNotInIndex),
        (b"TALK", ExtractError::SoundNotInIndex),
        (b"TLKE", ExtractError::TalkieNotInIndex),
    ];
    for (id, e) in ends {
        assert_eq!(run(&game_index(), &nested(id, &[child.clone()])), (vec![], error(e)));
    }
    let (outs, end) = run(&game_index(), &[child, block(b"SCRP", &[1])].concat());
    assert_eq!(outs, vec!["./ABCD_01.bin []"]);
    assert_eq!(end, error(ExtractError::ScriptNotInIndex));
    let (_, end) = extract(&game_index(), 1, false, &mask(&block(b"SCRP", &[1])));
    assert_eq!(end, Err(ExtractError::ScriptNotInIndex));
}

#[test]
fn short_headers_are_refused() {
    let (outs, end) = run(&game_index(), &block(b"LSC2", &[1, 2, 3]));
    assert_eq!((outs, end), (vec![], error(ExtractError::LocalScriptHeader)));
    let (outs, end) = run(&game_index(), &block(b"CDHD", &[1]));
    assert_eq!((outs, end), (vec![], error(ExtractError::ObjectHeader)));
}

#[test]
fn a_negative_script_number_keeps_its_sign() {
    let (outs, end) = run(&game_index(), &block(b"LSC2", &[0xfb, 0xff, 0xff, 0xff]));
    assert_eq!(end, Ok(()));
    assert_eq!(outs[1], "./LSC2_-5 [] RoomLocal(0, -5) -5 false");
}

#[test]
fn data_that_ends_early_is_refused() {
    let eof = error(ExtractError::UnexpectedEof);
    let whole = [block(b"ABCD", &[1, 2]), block(b"EFGH", &[0; 20])].concat();
    // inside a header
    let (outs, end) = run(&game_index(), &whole[..17]);
    assert_eq!((outs, end), (vec!["./ABCD_01.bin [1, 2]".to_string()], eof));
    // where the first bytes of the content are looked at
    let (outs, end) = run(&game_index(), &whole[..20]);
    assert_eq!((outs, end), (vec!["./ABCD_01.bin [1, 2]".to_string()], eof));
    // inside the content: what there is of it is still filed
    let (outs, end) = run(&game_index(), &whole[..28]);
    assert_eq!(outs[1], "./EFGH_01.bin [0, 0, 0, 0, 0, 0, 0, 0, 0, 0]");
    assert_eq!(end, error(ExtractError::WrongLength));
}

#[test]
fn a_block_that_overruns_its_container_is_refused() {
    let mut data = b"LECF\x00\x00\x00\x12".to_vec();
    data.extend(block(b"ABCD", &[1, 2, 3, 4]));
    let (outs, end) = run(&game_index(), &data);
    assert_eq!(outs, vec!["./LECF_01/ABCD_01.bin [1, 2, 3, 4]"]);
    assert_eq!(end, error(ExtractError::MisalignedBlockEnd));
}

#[test]
fn a_negative_length_is_refused() {
    let (outs, end) = run(&game_index(), b"ABCD\x80\x00\x00\x00");
    assert_eq!((outs, end), (vec![], error(ExtractError::OutOfRange)));
}

#[test]
fn faults_are_told_apart() {
    let short = [block(b"ABCD", &[]), b"EFGH\x00\x00\x00\x07".to_vec()].concat();
    let (outs, end) = run(&game_index(), &short);
    assert_eq!(outs, vec!["./ABCD_01.bin []"]);
    assert_eq!(end, fault(Fault::BlockTooShort));
    // content that looks like a block, but is none
    let (outs, end) = run(&game_index(), &block(b"ABCD", b"TEXT\x00\x00\x00\x00"));
    assert_eq!((outs, end), (vec![], fault(Fault::BlockTooShort)));
    let (outs, end) = run(&game_index(), &block(&[0xff, 1, 2, 3], &[]));
    assert_eq!((outs, end), (vec![], fault(Fault::BlockIdNotText)));
    let (outs, end) =
        run(&game_index(), &nested(&[0xff, 1, 2, 3], &[block(b"ABCD", &[])]));
    assert_eq!((outs, end), (vec![], fault(Fault::BlockIdNotText)));
    let mut index = game_index();
    index.scripts = directory(&[(77, 0)]);
    let (outs, end) = run(&index, &block(b"SCRP", &[]));
    assert_eq!((outs, end), (vec![], fault(Fault::IndexEntry)));
}

#[test]
fn a_verb_whose_code_lies_outside_its_block_is_a_fault() {
    let range = fault(Fault::VerbRange);
    // before the content, behind it, and ending before it starts
    for content in [&[1u8, 7, 0, 0][..], &[1, 13, 0, 0][..], &[1, 20, 0, 2, 19, 0, 0][..]] {
        let (outs, end) = run(&game_index(), &block(b"VERB", content));
        assert_eq!((outs.len(), end), (1, range));
    }
    // the next one before the content
    let (outs, end) = run(&game_index(), &block(b"VERB", &[1, 8, 0, 2, 7, 0, 0]));
    assert_eq!((outs.len(), end), (1, range));
    // the first is still put out
    for third in [1, 8] {
        let content = [1, 8, 0, 2, 9, 0, 3, third, 0];
        let (outs, end) = run(&game_index(), &block(b"VERB", &content));
        assert_eq!(outs[1], "./VERB_01 [1] Verb(0, 0) 1 false");
        assert_eq!((outs.len(), end), (2, range));
    }
}

#[test]
fn an_unfinished_verb_entry_ends_the_table() {
    let (outs, end) = run(&game_index(), &block(b"VERB", &[1, 11, 0, 2, 9]));
    assert_eq!(end, Ok(()));
    assert_eq!(outs[1], "./VERB_01 [2, 9] Verb(0, 0) 1 false");
    assert_eq!(outs.len(), 3);
}

#[test]
fn publishing_only_marks_the_scripts() {
    let data = mask(&disk(&[block(b"ENCD", &[10]), block(b"RMHD", &[1])]));
    let (plain, plain_end) = try_extract(&game_index(), 1, false, &data);
    let (marked, marked_end) = try_extract(&game_index(), 1, true, &data);
    assert_eq!(plain_end, marked_end);
    assert_eq!(plain.len(), marked.len());
    for (a, b) in plain.iter().zip(&marked) {
        match (a, b) {
            (Output::Script(s), Output::Script(t)) => {
                assert!(!s.publish && t.publish);
                assert_eq!((&s.stem, &s.code, s.scope, s.number), (&t.stem, &t.code, t.scope, t.number));
            }
            _ => assert_eq!(line(a), line(b)),
        }
    }
}

#[test]
fn nothing_of_the_data_is_lost() {
    let contents: [&[u8]; 3] = [&[1, 2, 3], &[], &[0xff; 9]];
    let data = disk(&[
        block(b"AAAA", contents[0]),
        nested(b"BBBB", &[block(b"AAAA", contents[1])]),
        block(b"AAAA", contents[2]),
    ]);
    let (outs, end) = try_extract(&game_index(), 1, false, &mask(&data));
    assert_eq!(end, Ok(()));
    let filed: Vec<Vec<u8>> = outs
        .into_iter()
        .filter_map(|out| match out {
            Output::Block(file) => Some(file.data),
            _ => None,
        })
        .collect();
    assert_eq!(filed, contents);
    // and six headers
    assert_eq!(data.len(), 6 * 8 + filed.concat().len());
}

fn script(scope: Scope, number: i32, publish: bool) -> ScriptOutput {
    ScriptOutput { stem: "./a/SCRP_01".to_string(), code: vec![], scope, number, publish }
}

#[test]
fn a_script_has_a_disassembly_and_a_decompilation() {
    let s = script(Scope::Global(1), 1, false);
    let file = s.disassembly_file("é");
    assert_eq!((file.path.as_str(), file.data), ("./a/SCRP_01.s", vec![0xc3, 0xa9]));
    let files = s.decompiled_files("text", Some("name"));
    assert_eq!(files.len(), 1);
    assert_eq!(files[0].path, "./a/SCRP_01.scu");
    assert_eq!(files[0].data, b"text");
}

#[test]
fn the_disassembly_comes_first() {
    let paths = |publish: bool| -> Vec<String> {
        let s = script(Scope::Global(1), 1, publish);
        s.files("asm", "src", Some("boot")).into_iter().map(|file| file.path).collect()
    };
    assert_eq!(paths(false), vec!["./a/SCRP_01.s", "./a/SCRP_01.scu"]);
    assert_eq!(
        paths(true),
        vec!["./a/SCRP_01.s", "./a/SCRP_01.scu", "scripts/scr0001 boot.scu"]
    );
    let files = script(Scope::Global(1), 1, true).files("asm", "src", None);
    assert_eq!(files[0].data, b"asm");
    assert_eq!(files[1].data, b"src");
    assert_eq!(files[2].data, b"src");
}

#[test]
fn published_scripts_are_called_after_their_scope() {
    let cases = [
        (Scope::Global(7), None, "scripts/scr0007.scu"),
        (Scope::Global(12345), Some("boot"), "scripts/scr12345 boot.scu"),
        (Scope::RoomLocal(3, 2001), None, "scripts/03/lsc2001.scu"),
        (Scope::RoomEnter(3), Some("come in"), "scripts/03/enter come in.scu"),
        (Scope::RoomExit(123), None, "scripts/123/exit.scu"),
        (Scope::Verb(4, 56), None, "scripts/04/obj0056 verb09.scu"),
    ];
    for (scope, name, path) in cases {
        let files = script(scope, 9, true).decompiled_files("x", name);
        assert_eq!(files.len(), 2);
        assert_eq!(files[0].path, "./a/SCRP_01.scu");
        assert_eq!(files[1].path, path);
        assert_eq!(files[1].data, b"x");
    }
}

/// A container in which two blocks of kind `ABCD` were counted.
fn sample_container() -> Container {
    Container {
        path: ".".to_string(),
        room: 3,
        object: 4,
        counts: HashMap::from([(0x41424344, 2)]),
        map: "ABCD_01\nABCD_02\n".to_string(),
    }
}

#[test]
fn a_refused_block_leaves_the_container_as_it_was() {
    let index = game_index();
    let extractor = Extractor { index: &index, disk_number: 1, publish: false, data: &[] };
    let refused: [(&[u8; 4], &[u8], ExtractError); 3] = [
        (b"LSC2", &[1, 0, 0], ExtractError::LocalScriptHeader),
        (b"CDHD", &[1], ExtractError::ObjectHeader),
        (b"SCRP", &[], ExtractError::ScriptNotInIndex),
    ];
    for (id, content, e) in refused {
        let mut c = sample_container();
        let mut outs = Vec::new();
        assert_eq!(extractor.extract_flat(&mut c, &mut outs, id, 8, content), error(e));
        assert!(outs.is_empty());
        assert_eq!((c.path.as_str(), c.room, c.object), (".", 3, 4));
        assert_eq!(c.counts, sample_container().counts);
        assert_eq!(c.map, sample_container().map);
    }
}

#[test]
fn raw_content_changes_only_what_it_is_about() {
    let index = game_index();
    let extractor = Extractor { index: &index, disk_number: 1, publish: false, data: &[] };
    let after = |id: &[u8; 4], content: &[u8]| {
        let mut c = sample_container();
        assert_eq!(extractor.extract_flat(&mut c, &mut Vec::new(), id, 8, content), Ok(()));
        assert_eq!((c.path.as_str(), c.room), (".", 3));
        c
    };
    let c = after(b"CDHD", &[0, 1]);
    assert_eq!((c.object, c.counts), (256, sample_container().counts));
    let c = after(b"LSC2", &[7, 0, 0, 0]);
    assert_eq!((c.object, c.counts), (4, sample_container().counts));
    let c = after(b"ABCD", &[]);
    assert_eq!((c.object, c.counts), (4, HashMap::from([(0x41424344, 3)])));
    let c = after(b"ABCE", &[]);
    assert_eq!(c.counts, HashMap::from([(0x41424344, 2), (0x41424345, 1)]));
    assert_eq!(c.map, "ABCD_01\nABCD_02\nABCE_01\n");
}

#[test]
fn a_script_is_put_out_behind_what_is_there() {
    let index = game_index();
    let extractor = Extractor { index: &index, disk_number: 1, publish: true, data: &[] };
    let mut outs = Vec::new();
    let c = sample_container();
    extractor.output_script(&c, &mut outs, b"SCRP", 7, Scope::Global(7), &[1, 2]);
    extractor.output_script(&c, &mut outs, b"SCRP", 8, Scope::Global(8), &[]);
    let lines: Vec<String> = outs.iter().map(line).collect();
    assert_eq!(lines, ["./SCRP_07 [1, 2] Global(7) 7 true", "./SCRP_08 [] Global(8) 8 true"]);
}
