use scumm_extract::bytes::{unmask, NICE};
use scumm_extract::error::{ExtractError, Fault, Stop};
use scumm_extract::index::{read_index, try_read_index, Directory, Index};
use scumm_extract::lookup::{find_lfl_number, find_object_number};

fn block(id: &[u8; 4], content: &[u8]) -> Vec<u8> {
    let mut out = id.to_vec();
    out.extend_from_slice(&(content.len() as i32 + 8).to_be_bytes());
    out.extend_from_slice(content);
    out
}

fn mask(data: &[u8]) -> Vec<u8> {
    data.iter().map(|b| b ^ 0x69).collect()
}

fn bytes_list(list: &[u8]) -> Vec<u8> {
    let mut out = (list.len() as i16).to_le_bytes().to_vec();
    out.extend_from_slice(list);
    out
}

fn numbers_list(list: &[i32]) -> Vec<u8> {
    let mut out = (list.len() as i16).to_le_bytes().to_vec();
    for n in list {
        out.extend_from_slice(&n.to_le_bytes());
    }
    out
}

fn directory_content(rooms: &[u8], offsets: &[i32], sizes: &[i32]) -> Vec<u8> {
    let mut out = bytes_list(rooms);
    for n in offsets.iter().chain(sizes) {
        out.extend_from_slice(&n.to_le_bytes());
    }
    out
}

fn sample_blocks() -> Vec<Vec<u8>> {
    vec![
        block(b"MAXS", &[1, 2, 3]),
        block(b"DIRS", &directory_content(&[1, 2], &[0x01020304, -1], &[7, -8])),
        block(b"DISK", &bytes_list(&[0, 1, 2])),
        block(b"DLFL", &numbers_list(&[0, 0x12345678, -2])),
        block(b"DIRN", &directory_content(&[1], &[5], &[6])),
        block(b"DIRT", &directory_content(&[], &[], &[])),
    ]
}

fn file_of(blocks: &[Vec<u8>]) -> Vec<u8> {
    mask(&blocks.concat())
}

fn stop_of(data: &[u8]) -> Stop {
    match try_read_index(data) {
        Ok(_) => panic!("the index was read"),
        Err(stop) => stop,
    }
}

#[test]
fn an_index_is_read_back() {
    let index = read_index(&file_of(&sample_blocks())).unwrap();
    assert_eq!(index.lfl_disks, vec![0, 1, 2]);
    assert_eq!(index.lfl_offsets, vec![0, 0x12345678, -2]);
    assert_eq!(index.scripts.room_numbers, vec![1, 2]);
    assert_eq!(index.scripts.offsets, vec![0x01020304, -1]);
    assert_eq!(index.scripts.glob_sizes, vec![7, -8]);
    assert_eq!(index.sounds.room_numbers, vec![1]);
    assert_eq!(index.sounds.offsets, vec![5]);
    assert_eq!(index.sounds.glob_sizes, vec![6]);
    assert!(index.talkies.room_numbers.is_empty());
    assert!(index.talkies.offsets.is_empty());
    assert!(index.talkies.glob_sizes.is_empty());
}

#[test]
fn the_count_is_two_bytes_little_endian() {
    let list: Vec<u8> = (0..0x0102).map(|i| (i % 251) as u8).collect();
    let mut blocks = sample_blocks();
    let mut content = vec![0x02, 0x01];
    content.extend_from_slice(&list);
    blocks.push(block(b"DISK", &content));
    assert_eq!(read_index(&file_of(&blocks)).unwrap().lfl_disks, list);
}

#[test]
fn bytes_behind_a_list_are_ignored() {
    let mut blocks = sample_blocks();
    let mut content = bytes_list(&[9]);
    content.extend_from_slice(&[1, 2, 3]);
    blocks.push(block(b"DISK", &content));
    assert_eq!(read_index(&file_of(&blocks)).unwrap().lfl_disks, vec![9]);
}

#[test]
fn the_last_block_of_a_kind_counts() {
    let mut blocks = sample_blocks();
    blocks.push(block(b"DLFL", &numbers_list(&[42])));
    blocks.push(block(b"XXXX", &[]));
    assert_eq!(read_index(&file_of(&blocks)).unwrap().lfl_offsets, vec![42]);
}

#[test]
fn the_order_of_the_blocks_does_not_matter() {
    let first = read_index(&file_of(&sample_blocks())).unwrap();
    let mut blocks = sample_blocks();
    blocks.reverse();
    blocks.insert(0, block(b"DISK", &bytes_list(&[9])));
    blocks.insert(3, block(b"MAXS", &[]));
    let second = read_index(&file_of(&blocks)).unwrap();
    assert_eq!(format!("{:?}", first), format!("{:?}", second));
}

#[test]
fn each_list_is_needed() {
    for missing in 1..6 {
        let mut blocks = sample_blocks();
        blocks.remove(missing);
        assert_eq!(stop_of(&file_of(&blocks)), Stop::Error(ExtractError::IndexIncomplete));
    }
    assert_eq!(stop_of(&[]), Stop::Error(ExtractError::IndexIncomplete));
    let mut blocks = sample_blocks();
    blocks.remove(0);
    assert!(try_read_index(&file_of(&blocks)).is_ok());
}

#[test]
fn a_short_index_is_refused() {
    let whole = sample_blocks().concat();
    let eof = Stop::Error(ExtractError::UnexpectedEof);
    assert_eq!(stop_of(&mask(&whole[..3])), eof);
    assert_eq!(stop_of(&mask(&whole[..7])), eof);
    assert_eq!(stop_of(&mask(&whole[..10])), eof);
    assert_eq!(stop_of(&mask(&whole[..whole.len() - 1])), eof);
    assert_eq!(stop_of(&mask(&block(b"DISK", &[1]))), eof);
    assert_eq!(stop_of(&mask(&block(b"DISK", &[2, 0, 1]))), eof);
    assert_eq!(stop_of(&mask(&block(b"DLFL", &[1, 0, 1, 2, 3]))), eof);
    assert_eq!(stop_of(&mask(&block(b"DIRS", &[]))), eof);
    assert_eq!(stop_of(&mask(&block(b"DIRS", &[1, 0, 1, 0, 0, 0, 0, 0, 0, 0]))), eof);
}

#[test]
fn negative_numbers_are_refused() {
    let range = Stop::Error(ExtractError::OutOfRange);
    assert_eq!(stop_of(&mask(&block(b"DISK", &[0xff, 0xff]))), range);
    assert_eq!(stop_of(&mask(&block(b"DLFL", &[0x00, 0x80]))), range);
    assert_eq!(stop_of(&mask(&block(b"DIRT", &[0x00, 0x80]))), range);
    assert_eq!(stop_of(&mask(b"DISK\xff\xff\xff\xff")), range);
    assert_eq!(read_index(&mask(b"DISK\x80\x00\x00\x00")).err(), Some(ExtractError::OutOfRange));
}

#[test]
fn a_length_that_does_not_cover_the_header_is_a_fault() {
    for len in 0..8u8 {
        let data = [b'D', b'I', b'S', b'K', 0, 0, 0, len];
        assert_eq!(stop_of(&mask(&data)), Stop::Fault(Fault::BlockTooShort));
    }
}

#[test]
fn the_mask_is_its_own_inverse() {
    assert_eq!(NICE, 0x69);
    let data: Vec<u8> = (0..=255).collect();
    let once = unmask(&data, NICE);
    assert_eq!(once[0], 0x69);
    assert_eq!(once[0x69], 0);
    assert_eq!(unmask(&once, NICE), data);
}

fn lookup_index() -> Index {
    let empty = || Directory { room_numbers: vec![], offsets: vec![], glob_sizes: vec![] };
    Index {
        lfl_disks: vec![0, 1, 2, 1, 1],
        lfl_offsets: vec![0, 16, 16, 200, 200],
        scripts: Directory {
            room_numbers: vec![1, 2, 3, 1],
            offsets: vec![8, 8, -176, 9],
            glob_sizes: vec![0, 0, 0, 0],
        },
        sounds: empty(),
        talkies: empty(),
    }
}

#[test]
fn the_first_room_at_a_place_is_found() {
    let index = lookup_index();
    assert_eq!(find_lfl_number(1, 16, &index), Ok(Some(1)));
    assert_eq!(find_lfl_number(2, 16, &index), Ok(Some(2)));
    assert_eq!(find_lfl_number(1, 200, &index), Ok(Some(3)));
    assert_eq!(find_lfl_number(1, 201, &index), Ok(None));
    assert_eq!(find_lfl_number(1, 1 << 40, &index), Ok(None));
}

#[test]
fn a_room_without_an_offset_is_a_fault() {
    let mut index = lookup_index();
    index.lfl_offsets.truncate(2);
    assert_eq!(find_lfl_number(1, 16, &index), Ok(Some(1)));
    assert_eq!(find_lfl_number(2, 16, &index), Err(Stop::Fault(Fault::IndexEntry)));
    assert_eq!(find_lfl_number(0, 5, &index), Ok(None));
}

#[test]
fn the_first_object_at_a_place_is_found() {
    let index = lookup_index();
    assert_eq!(find_object_number(&index, &index.scripts, 1, 24), Ok(Some(0)));
    assert_eq!(find_object_number(&index, &index.scripts, 2, 24), Ok(Some(1)));
    assert_eq!(find_object_number(&index, &index.scripts, 1, 25), Ok(Some(3)));
    assert_eq!(find_object_number(&index, &index.scripts, 3, 24), Ok(None));
    assert_eq!(find_object_number(&index, &index.sounds, 1, 24), Ok(None));
}

#[test]
fn a_broken_entry_only_matters_before_the_hit() {
    let mut index = lookup_index();
    index.scripts.room_numbers[2] = 99;
    assert_eq!(find_object_number(&index, &index.scripts, 1, 24), Ok(Some(0)));
    let fault = Err(Stop::Fault(Fault::IndexEntry));
    assert_eq!(find_object_number(&index, &index.scripts, 1, 25), fault);
    assert_eq!(find_object_number(&index, &index.scripts, 1, 1 << 31), Ok(None));
    index.scripts.room_numbers[2] = 3;
    index.scripts.offsets[2] = i32::MAX;
    assert_eq!(find_object_number(&index, &index.scripts, 1, 25), fault);
    index.scripts.offsets.truncate(2);
    assert_eq!(find_object_number(&index, &index.scripts, 1, 25), fault);
}
