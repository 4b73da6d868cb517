use pfview::block::{Block, Dentry};

fn record(name: &str, size: u32, first_block: u16, type_: u8, perm: u8, mtime: u64) -> Vec<u8> {
    let mut r = vec![0u8; 64];
    r[..name.len()].copy_from_slice(name.as_bytes());
    r[32..36].copy_from_slice(&size.to_le_bytes());
    r[36..38].copy_from_slice(&first_block.to_le_bytes());
    r[38] = type_;
    r[39] = perm;
    r[40..48].copy_from_slice(&mtime.to_le_bytes());
    for (i, b) in r[48..64].iter_mut().enumerate() {
        *b = 0xC0 + i as u8;
    }
    r
}

#[test]
fn dentry_record_round_trip() {
    let r = record("notes.txt", 0x0102_0304, 0xBEEF, 1, 6, 1_000);
    let d = Dentry::parse(&r);
    assert_eq!(d.size, 0x0102_0304);
    assert_eq!(d.first_block, 0xBEEF);
    assert_eq!(d.type_, 1);
    assert_eq!(d.perm, 6);
    assert_eq!(d.mtime, 1_000);
    assert_eq!(&d.name[..9], b"notes.txt");
    assert_eq!(d._reserved[0], 0xC0);
    assert_eq!(d._reserved[15], 0xCF);
    let expected_name = format!("notes.txt{}", "\0".repeat(23));
    assert_eq!(d.name_text(), expected_name);
}

#[test]
fn mtime_boundary() {
    let past = Dentry::parse(&record("a", 0, 0, 0, 0, 253402300800000));
    assert_eq!(past.mtime_text(), "invalid");
    let last = Dentry::parse(&record("a", 0, 0, 0, 0, 253402300799000));
    assert_eq!(last.mtime_text(), "9999-12-31 23:59:59");
    let epoch = Dentry::parse(&record("a", 0, 0, 0, 0, 0));
    assert_eq!(epoch.mtime_text(), "1970-01-01 00:00:00");
}

#[test]
fn dentry_description() {
    let d = Dentry::parse(&record("hello", 1234, 5, 1, 6, 1_000));
    let expected = format!(
        "name: hello{}, size: 1234, first_block: 5, type: 1, perm: 6, mtime: 1970-01-01 00:00:01,",
        "\0".repeat(27)
    );
    assert_eq!(d.describe(), expected);
    let big = Dentry::parse(&record("x", u32::MAX, 0, 0, 255, u64::MAX));
    let expected = format!(
        "name: x{}, size: 4294967295, first_block: 0, type: 0, perm: 255, mtime: invalid,",
        "\0".repeat(31)
    );
    assert_eq!(big.describe(), expected);
}

#[test]
fn lossy_name() {
    let mut r = record("", 0, 0, 0, 0, 0);
    r[0] = b'a';
    r[1] = 0xFF;
    r[2] = b'b';
    let d = Dentry::parse(&r);
    let expected = format!("a\u{FFFD}b{}", "\0".repeat(29));
    assert_eq!(d.name_text(), expected);
}

#[test]
fn block_as_dentries() {
    let mut data = record("one", 1, 2, 0, 7, 10);
    data.extend(record("two", 3, 4, 1, 5, 20));
    data.extend(vec![9u8; 10]);
    let block = Block { data };
    let entries = block.as_dentries();
    assert_eq!(entries.len(), 2);
    assert_eq!(entries[0].size, 1);
    assert_eq!(entries[0].first_block, 2);
    assert_eq!(entries[1].size, 3);
    assert_eq!(entries[1].first_block, 4);
    assert_eq!(entries[1].type_, 1);
    assert_eq!(entries[1].mtime, 20);
    assert!(Block { data: vec![0u8; 63] }.as_dentries().is_empty());
    assert_eq!(Block { data: vec![0u8; 256] }.as_dentries().len(), 4);
}

#[test]
fn mtime_validity_threshold() {
    assert!(Dentry::parse(&record("a", 0, 0, 0, 0, 253402300799000)).mtime_is_valid());
    assert!(!Dentry::parse(&record("a", 0, 0, 0, 0, 253402300800000)).mtime_is_valid());
    assert!(!Dentry::parse(&record("a", 0, 0, 0, 0, 253402300799001)).mtime_is_valid());
}

#[test]
fn description_with_given_texts() {
    let d = Dentry::parse(&record("f", 10, 20, 2, 3, 0));
    assert_eq!(
        d.describe_with("file", "then"),
        "name: file, size: 10, first_block: 20, type: 2, perm: 3, mtime: then,"
    );
    assert_eq!(
        d.describe_with("", ""),
        "name: , size: 10, first_block: 20, type: 2, perm: 3, mtime: ,"
    );
}
