use pfview::block::Block;
use pfview::error::PfError;
use pfview::image::{ModTime, PennFat};

const T0: ModTime = ModTime { secs: 1_700_000_000, nanos: 5 };
const T1: ModTime = ModTime { secs: 1_700_000_001, nanos: 0 };

/// An image with block size 256 and one FAT block: 128 entries, 127 data blocks.
fn small_image() -> Vec<u8> {
    let mut bytes = vec![0u8; 32768];
    bytes[0] = 0;
    bytes[1] = 1;
    bytes
}

fn set_entry(bytes: &mut [u8], i: usize, value: u16) {
    bytes[2 * i] = (value & 0xFF) as u8;
    bytes[2 * i + 1] = (value >> 8) as u8;
}

fn fill_block(bytes: &mut [u8], n: usize, value: u8) {
    let start = 256 + (n - 1) * 256;
    for b in &mut bytes[start..start + 256] {
        *b = value;
    }
}

#[test]
fn geometry_of_small_image() {
    let fs = PennFat::load(small_image(), T0).unwrap();
    assert_eq!(fs.block_size(), 256);
    assert_eq!(fs.fat_size(), 256);
    assert_eq!(fs.num_fat_entries(), 128);
    assert_eq!(fs.data_block_count(), 127);
    assert_eq!(fs.last_update_time(), T0);
}

#[test]
fn load_rejects_one_byte_short_or_long() {
    let mut short = small_image();
    short.pop();
    assert!(matches!(PennFat::load(short, T0), Err(PfError::FileSize)));
    let mut long = small_image();
    long.push(0);
    assert!(matches!(PennFat::load(long, T0), Err(PfError::FileSize)));
}

#[test]
fn load_rejects_bad_headers() {
    assert!(matches!(PennFat::load(vec![], T0), Err(PfError::FileSize)));
    assert!(matches!(PennFat::load(vec![0], T0), Err(PfError::FileSize)));
    assert!(matches!(PennFat::load(vec![0, 0], T0), Err(PfError::FileSize)));
    let mut bad_code = small_image();
    bad_code[0] = 8;
    assert!(matches!(PennFat::load(bad_code, T0), Err(PfError::FileSize)));
}

#[test]
fn geometry_with_larger_blocks() {
    // block size 512, two FAT blocks: 1024 bytes of FAT, 511 data blocks
    let mut bytes = vec![0u8; 1024 + 511 * 512];
    bytes[0] = 1;
    bytes[1] = 2;
    let fs = PennFat::load(bytes, T0).unwrap();
    assert_eq!(fs.block_size(), 512);
    assert_eq!(fs.fat_size(), 1024);
    assert_eq!(fs.num_fat_entries(), 512);
    assert_eq!(fs.data_block_count(), 511);
}

#[test]
fn data_block_count_is_capped() {
    // block size 1024, 129 FAT blocks: 66048 entries, capped at 0xFFFE data blocks
    let fat = 1024usize * 129;
    let mut bytes = vec![0u8; fat + 0xFFFE * 1024];
    bytes[0] = 2;
    bytes[1] = 129;
    set_entry(&mut bytes, 0xFFFF, 7);
    set_entry(&mut bytes, 0x10000, 8);
    let fs = PennFat::load(bytes, T0).unwrap();
    assert_eq!(fs.block_size(), 1024);
    assert_eq!(fs.num_fat_entries(), 66048);
    assert_eq!(fs.data_block_count(), 0xFFFE);
    // entries whose index does not fit a block number are not listed
    assert_eq!(fs.get_fat_table(), vec![(0, 0x8102), (0xFFFF, 7)]);
    assert!(fs.get_block(0xFFFE).is_ok());
    assert!(matches!(fs.get_block(0xFFFF), Err(PfError::InvalidBlockNumber(0xFFFF, 0xFFFE))));
}

#[test]
fn fat_table_lists_nonzero_entries_in_order() {
    let mut bytes = small_image();
    set_entry(&mut bytes, 3, 0xFFFF);
    set_entry(&mut bytes, 1, 2);
    set_entry(&mut bytes, 2, 3);
    set_entry(&mut bytes, 127, 9);
    let fs = PennFat::load(bytes, T0).unwrap();
    let table = fs.get_fat_table();
    // entry 0 holds the header bytes 0x00 0x01
    assert_eq!(table, vec![(0, 0x0100), (1, 2), (2, 3), (3, 0xFFFF), (127, 9)]);
    assert!(table.iter().all(|&(_, v)| v != 0));
}

#[test]
fn block_bounds() {
    let mut bytes = small_image();
    fill_block(&mut bytes, 1, 0xAA);
    fill_block(&mut bytes, 127, 0x55);
    let fs = PennFat::load(bytes, T0).unwrap();
    let count = fs.data_block_count();
    assert!(matches!(fs.get_block(0), Err(PfError::InvalidBlockNumber(0, 127))));
    match fs.get_block(count + 1) {
        Err(PfError::InvalidBlockNumber(n, max)) => {
            assert_eq!(n, 128);
            assert_eq!(max, count);
        }
        _ => panic!("block past the end accepted"),
    }
    let first = fs.get_block(1).unwrap();
    assert_eq!(first.data, vec![0xAA; 256]);
    let last = fs.get_block(count).unwrap();
    assert_eq!(last.data, vec![0x55; 256]);
}

#[test]
fn file_of_two_blocks() {
    let mut bytes = small_image();
    set_entry(&mut bytes, 5, 9);
    set_entry(&mut bytes, 9, 0xFFFF);
    fill_block(&mut bytes, 5, 1);
    fill_block(&mut bytes, 9, 2);
    fill_block(&mut bytes, 6, 3);
    let fs = PennFat::load(bytes, T0).unwrap();
    let file = fs.get_file(5).unwrap();
    let mut expected = vec![1u8; 256];
    expected.extend(vec![2u8; 256]);
    assert_eq!(file, expected);
}

#[test]
fn file_of_one_block() {
    let mut bytes = small_image();
    set_entry(&mut bytes, 4, 0xFFFF);
    fill_block(&mut bytes, 4, 7);
    let fs = PennFat::load(bytes, T0).unwrap();
    assert_eq!(fs.get_file(4).unwrap(), vec![7u8; 256]);
}

#[test]
fn file_with_free_link_fails() {
    let mut bytes = small_image();
    set_entry(&mut bytes, 5, 0);
    let fs = PennFat::load(bytes, T0).unwrap();
    assert!(matches!(fs.get_file(5), Err(PfError::InvalidBlockNumber(0, 127))));
    assert!(matches!(fs.get_file(200), Err(PfError::InvalidBlockNumber(200, 127))));
}

#[test]
fn file_with_cycle_fails() {
    let mut bytes = small_image();
    set_entry(&mut bytes, 5, 6);
    set_entry(&mut bytes, 6, 5);
    let fs = PennFat::load(bytes, T0).unwrap();
    assert!(matches!(fs.get_file(5), Err(PfError::CyclicChain)));
}

#[test]
fn reload_twice_takes_fresh_bytes_once() {
    let mut fs = PennFat::load(small_image(), T0).unwrap();
    assert!(!fs.needs_reload(T0));
    assert!(fs.needs_reload(T1));
    let mut fresh = small_image();
    set_entry(&mut fresh, 1, 0xFFFF);
    fs.reload(T1, fresh).unwrap();
    assert_eq!(fs.last_update_time(), T1);
    let table = fs.get_fat_table();
    assert_eq!(table, vec![(0, 0x0100), (1, 0xFFFF)]);
    assert!(!fs.needs_reload(T1));
    // the same time again: nothing is taken, even bytes that differ
    fs.reload(T1, small_image()).unwrap();
    assert_eq!(fs.get_fat_table(), table);
    assert_eq!(fs.last_update_time(), T1);
    assert_eq!(fs.block_size(), 256);
    assert_eq!(fs.data_block_count(), 127);
}

#[test]
fn reload_of_wrong_length_fails() {
    let mut fs = PennFat::load(small_image(), T0).unwrap();
    let mut fresh = small_image();
    fresh.pop();
    assert!(matches!(fs.reload(T1, fresh), Err(PfError::FileSize)));
    assert_eq!(fs.last_update_time(), T0);
}

#[test]
fn block_as_raw_text() {
    let block = Block { data: vec![0x41, 0x00, 0xB0, 0xB1, 0x20, 0x1F, 0x7E] };
    assert_eq!(block.as_raw(), "A.\u{b0}. .~");
}
