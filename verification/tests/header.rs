use packit::header::PackItHeader;
use packit::layout::{ENTRY_FIELDS_SIZE, ENTRY_TYPE_FILE, HEADER_SIZE, MAX_NAME_LEN};

#[test]
fn new_header_holds_magic_and_size() {
    let header = PackItHeader::new();
    assert_eq!(header.magic(), [0x50, 0x4b, 0x49, 0x54]);
    assert_eq!(&header.magic(), b"PKIT");
    assert_eq!(header.header_size(), 8);
}

#[test]
fn header_size_is_the_size_of_its_two_fields() {
    let header = PackItHeader::new();
    let fields =
        std::mem::size_of_val(&header.magic()) + std::mem::size_of_val(&header.header_size());
    assert_eq!(header.header_size() as usize, fields);
    assert_eq!(HEADER_SIZE, 8);
}

#[test]
fn header_is_written_as_eight_bytes() {
    let mut out = Vec::new();
    PackItHeader::new().write(&mut out);
    assert_eq!(out, vec![0x50, 0x4b, 0x49, 0x54, 8, 0, 0, 0]);
}

#[test]
fn header_is_appended_after_what_is_there() {
    let mut out = vec![1, 2, 3];
    PackItHeader::new().write(&mut out);
    assert_eq!(out, vec![1, 2, 3, 0x50, 0x4b, 0x49, 0x54, 8, 0, 0, 0]);
}

#[test]
fn header_written_twice_is_the_same() {
    let mut first = Vec::new();
    let mut second = Vec::new();
    PackItHeader::new().write(&mut first);
    PackItHeader::new().write(&mut second);
    assert_eq!(first, second);
}

#[test]
fn format_constants() {
    assert_eq!(ENTRY_TYPE_FILE, 1);
    assert_eq!(MAX_NAME_LEN, 65535);
    assert_eq!(ENTRY_FIELDS_SIZE, 12);
}
