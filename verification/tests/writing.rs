use scumm_extract::error::{ExtractError, Stop};
use scumm_extract::extract::try_extract;
use scumm_extract::index::{Directory, Index};
use scumm_extract::writing::{Action, Failure, Writing};
use std::collections::HashMap;

fn block(id: &[u8; 4], content: &[u8]) -> Vec<u8> {
    let mut out = id.to_vec();
    out.extend_from_slice(&(content.len() as i32 + 8).to_be_bytes());
    out.extend_from_slice(content);
    out
}

fn mask(data: &[u8]) -> Vec<u8> {
    data.iter().map(|b| b ^ 0x69).collect()
}

fn empty_index() -> Index {
    let empty = || Directory { room_numbers: vec![], offsets: vec![], glob_sizes: vec![] };
    Index {
        lfl_disks: vec![],
        lfl_offsets: vec![],
        scripts: empty(),
        sounds: empty(),
        talkies: empty(),
    }
}

/// Writes what the data comes to. The file whose number is `fails` cannot be written.
fn write_all(
    data: &[u8],
    fails: Option<usize>,
) -> (Vec<(String, Vec<u8>)>, Result<(), Failure<String>>) {
    write_marked(data, fails, true)
}

fn write_marked(
    data: &[u8],
    fails: Option<usize>,
    publish: bool,
) -> (Vec<(String, Vec<u8>)>, Result<(), Failure<String>>) {
    let (outs, end) = try_extract(&empty_index(), 1, publish, &mask(data));
    let mut writing = Writing::new(outs, end);
    let mut calls = Vec::new();
    loop {
        match writing.action() {
            Action::Write(file) => {
                let r = if fails == Some(calls.len()) {
                    Err(format!("no {}", file.path))
                } else {
                    Ok(())
                };
                calls.push((file.path.clone(), file.data.clone()));
                writing.wrote(r);
            }
            Action::Script(script) => {
                let disasm = format!("asm {:?}", script.code);
                writing.texts(&disasm, "src", Some("name"));
            }
            Action::Finish => break,
        }
    }
    (calls, writing.finish())
}

fn paths(calls: &[(String, Vec<u8>)]) -> Vec<&str> {
    calls.iter().map(|(path, _)| path.as_str()).collect()
}

const FILES: [&str; 6] = [
    "./AAAA_01.bin",
    "./ENCD_01.bin",
    "./ENCD_01.s",
    "./ENCD_01.scu",
    "scripts/00/enter name.scu",
    "./.map",
];

#[test]
fn files_are_written_in_order() {
    let data = [block(b"AAAA", &[1]), block(b"ENCD", &[2, 3])].concat();
    let (calls, end) = write_all(&data, None);
    assert!(end.is_ok());
    assert_eq!(paths(&calls), FILES);
    assert_eq!(calls[0].1, [1]);
    assert_eq!(calls[2].1, b"asm [2, 3]");
    assert_eq!(calls[4].1, b"src");
    assert_eq!(calls[5].1, b"AAAA_01\nENCD_01\n");
}

#[test]
fn the_first_failed_write_ends_the_run() {
    let data = [block(b"AAAA", &[1]), block(b"ENCD", &[2, 3])].concat();
    for k in 0..FILES.len() {
        let (calls, end) = write_all(&data, Some(k));
        assert_eq!(paths(&calls), FILES[..k + 1]);
        match end {
            Err(Failure::Write(error)) => assert_eq!(error, format!("no {}", FILES[k])),
            _ => panic!("the run did not fail"),
        }
    }
}

#[test]
fn publishing_only_adds_files() {
    let data = [block(b"AAAA", &[1]), block(b"ENCD", &[2, 3]), block(b"EXCD", &[4])].concat();
    let (more, _) = write_marked(&data, None, true);
    let (less, _) = write_marked(&data, None, false);
    assert_eq!(more.len(), less.len() + 2);
    let kept: Vec<(String, Vec<u8>)> =
        more.into_iter().filter(|(path, _)| !path.starts_with("scripts/")).collect();
    assert_eq!(kept, less);
    assert!(less.iter().all(|(path, _)| path.starts_with("./")));
}

#[test]
fn what_comes_before_a_stop_is_written() {
    let data = [block(b"AAAA", &[1]), block(b"SCRP", &[])].concat();
    let (calls, end) = write_all(&data, None);
    assert_eq!(paths(&calls), ["./AAAA_01.bin"]);
    match end {
        Err(Failure::Stop(stop)) => assert_eq!(stop, Stop::Error(ExtractError::ScriptNotInIndex)),
        _ => panic!("the run did not stop"),
    }
}

fn rebuild(files: &HashMap<String, Vec<u8>>, path: &str) -> Vec<u8> {
    let list = std::str::from_utf8(&files[&format!("{}/.map", path)]).unwrap();
    let mut out = Vec::new();
    for name in list.lines() {
        let own = format!("{}/{}", path, name);
        let content = match files.get(&format!("{}.bin", own)) {
            Some(content) => content.clone(),
            None => rebuild(files, &own),
        };
        let mut id = [0; 4];
        id.copy_from_slice(&name.as_bytes()[..4]);
        out.extend(block(&id, &content));
    }
    out
}

#[test]
fn a_disk_is_rebuilt_from_its_files() {
    let inner = [block(b"AAAA", &[1]), block("é__".as_bytes().try_into().unwrap(), &[])].concat();
    let outer = [block(b"BBBB", &inner), block(b"AAAA", &[2; 9]), block(b"BBBB", &inner)].concat();
    let data = [block(b"LECF", &outer), block(b"ENCD", &[3, 4])].concat();
    let (calls, end) = write_all(&data, None);
    assert!(end.is_ok());
    let files: HashMap<String, Vec<u8>> = calls.into_iter().collect();
    assert_eq!(rebuild(&files, "."), data);
}
