use packit::entry::{begin_entry, name_len, pack_file, put_bytes, source_path, FormatError};

#[test]
fn name_len_counts_bytes() {
    assert_eq!(name_len("a.txt"), Ok(5));
    assert_eq!(name_len("sub/b.txt"), Ok(9));
    assert_eq!(name_len(""), Ok(0));
}

#[test]
fn name_len_counts_utf8_bytes_not_characters() {
    assert_eq!(name_len("é"), Ok(2));
    assert_eq!(name_len("日本語.txt"), Ok(13));
}

#[test]
fn name_of_65535_bytes_fits() {
    let name = "a".repeat(65535);
    assert_eq!(name_len(&name), Ok(65535));
}

#[test]
fn name_of_65536_bytes_is_too_long() {
    let name = "a".repeat(65536);
    assert_eq!(name_len(&name), Err(FormatError::PathTooLong { len: 65536 }));
}

#[test]
fn name_too_long_by_bytes_though_not_by_characters() {
    let name = "é".repeat(40000);
    assert_eq!(name.chars().count(), 40000);
    assert_eq!(name_len(&name), Err(FormatError::PathTooLong { len: 80000 }));
}

#[test]
fn begin_entry_writes_fields_and_name() {
    let mut out = Vec::new();
    assert_eq!(begin_entry(&mut out, "a.txt", 3), Ok(()));
    assert_eq!(
        out,
        vec![1, 0, 5, 0, 3, 0, 0, 0, 0, 0, 0, 0, b'a', b'.', b't', b'x', b't']
    );
}

#[test]
fn begin_entry_writes_a_large_content_length() {
    let mut out = Vec::new();
    assert_eq!(begin_entry(&mut out, "x", 0x0102_0304_0506_0708), Ok(()));
    assert_eq!(out, vec![1, 0, 1, 0, 8, 7, 6, 5, 4, 3, 2, 1, b'x']);
}

#[test]
fn begin_entry_refuses_a_long_name_and_writes_nothing() {
    let mut out = vec![7, 7];
    let name = "n".repeat(70000);
    assert_eq!(
        begin_entry(&mut out, &name, 3),
        Err(FormatError::PathTooLong { len: 70000 })
    );
    assert_eq!(out, vec![7, 7]);
}

#[test]
fn pack_file_writes_one_entry() {
    let mut out = Vec::new();
    assert_eq!(pack_file(&mut out, "a.txt", b"xyz"), Ok(()));
    assert_eq!(
        out,
        vec![
            1, 0, 5, 0, 3, 0, 0, 0, 0, 0, 0, 0, b'a', b'.', b't', b'x', b't', b'x', b'y', b'z'
        ]
    );
}

#[test]
fn pack_file_with_empty_content() {
    let mut out = Vec::new();
    assert_eq!(pack_file(&mut out, "sub/b.txt", b""), Ok(()));
    let mut expected = vec![1, 0, 9, 0, 0, 0, 0, 0, 0, 0, 0, 0];
    expected.extend_from_slice(b"sub/b.txt");
    assert_eq!(out, expected);
}

#[test]
fn pack_file_is_begin_entry_then_content() {
    let content: Vec<u8> = (0..=255u8).cycle().take(3000).collect();
    let mut whole = Vec::new();
    assert_eq!(pack_file(&mut whole, "dir/data.bin", &content), Ok(()));
    let mut pieces = Vec::new();
    assert_eq!(begin_entry(&mut pieces, "dir/data.bin", 3000), Ok(()));
    for chunk in content.chunks(1024) {
        put_bytes(&mut pieces, chunk);
    }
    assert_eq!(whole, pieces);
    assert_eq!(whole.len(), 12 + 12 + 3000);
    assert_eq!(&whole[4..12], &3000u64.to_le_bytes());
}

#[test]
fn pack_file_at_the_name_limit() {
    let name = "p".repeat(65535);
    let mut out = Vec::new();
    assert_eq!(pack_file(&mut out, &name, b"!"), Ok(()));
    assert_eq!(out.len(), 12 + 65535 + 1);
    assert_eq!(&out[..4], &[1, 0, 0xff, 0xff]);
    assert_eq!(&out[12..12 + 65535], name.as_bytes());
    assert_eq!(out[12 + 65535], b'!');
}

#[test]
fn pack_file_over_the_name_limit() {
    let name = "p".repeat(65536);
    let mut out = vec![1, 2, 3];
    assert_eq!(
        pack_file(&mut out, &name, b"!"),
        Err(FormatError::PathTooLong { len: 65536 })
    );
    assert_eq!(out, vec![1, 2, 3]);
}

#[test]
fn pack_file_writes_the_name_as_utf8() {
    let mut out = Vec::new();
    assert_eq!(pack_file(&mut out, "é", &[1]), Ok(()));
    assert_eq!(out, vec![1, 0, 2, 0, 1, 0, 0, 0, 0, 0, 0, 0, 0xc3, 0xa9, 1]);
}

#[test]
fn put_bytes_appends() {
    let mut out = vec![1];
    put_bytes(&mut out, &[2, 3]);
    put_bytes(&mut out, &[]);
    put_bytes(&mut out, &[4]);
    assert_eq!(out, vec![1, 2, 3, 4]);
}

#[test]
fn source_path_joins_root_and_path() {
    assert_eq!(source_path("/pkg", "a.txt"), "/pkg/a.txt");
    assert_eq!(source_path("/pkg", "sub/b.txt"), "/pkg/sub/b.txt");
    assert_eq!(source_path("rel/dir", "x"), "rel/dir/x");
    assert_eq!(source_path("", "x"), "/x");
    assert_eq!(source_path("/pkg", ""), "/pkg/");
}
