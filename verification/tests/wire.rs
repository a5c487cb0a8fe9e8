use packit::wire::{put_u16_le, put_u32_le, put_u64_le};

#[test]
fn u16_is_written_low_byte_first() {
    let mut out = Vec::new();
    put_u16_le(&mut out, 0x1234);
    assert_eq!(out, vec![0x34, 0x12]);
}

#[test]
fn u16_limits() {
    let mut out = Vec::new();
    put_u16_le(&mut out, 0);
    put_u16_le(&mut out, u16::MAX);
    put_u16_le(&mut out, 1);
    put_u16_le(&mut out, 256);
    assert_eq!(out, vec![0, 0, 0xff, 0xff, 1, 0, 0, 1]);
}

#[test]
fn u32_is_written_low_byte_first() {
    let mut out = Vec::new();
    put_u32_le(&mut out, 0x0102_0304);
    assert_eq!(out, vec![4, 3, 2, 1]);
    assert_eq!(out, 0x0102_0304u32.to_le_bytes().to_vec());
}

#[test]
fn u32_limits() {
    let mut out = Vec::new();
    put_u32_le(&mut out, 8);
    put_u32_le(&mut out, u32::MAX);
    assert_eq!(out, vec![8, 0, 0, 0, 0xff, 0xff, 0xff, 0xff]);
}

#[test]
fn u64_is_written_low_byte_first() {
    let mut out = Vec::new();
    put_u64_le(&mut out, 0x0102_0304_0506_0708);
    assert_eq!(out, vec![8, 7, 6, 5, 4, 3, 2, 1]);
}

#[test]
fn u64_limits() {
    let mut out = Vec::new();
    put_u64_le(&mut out, 3);
    put_u64_le(&mut out, u64::MAX);
    put_u64_le(&mut out, 1 << 40);
    let mut expected = vec![3, 0, 0, 0, 0, 0, 0, 0];
    expected.extend_from_slice(&[0xff; 8]);
    expected.extend_from_slice(&[0, 0, 0, 0, 0, 1, 0, 0]);
    assert_eq!(out, expected);
}

#[test]
fn fields_agree_with_the_standard_encoding() {
    for x in [0u64, 1, 255, 256, 65535, 65536, 0xdead_beef, u64::MAX - 1, u64::MAX] {
        let mut out = Vec::new();
        put_u64_le(&mut out, x);
        assert_eq!(out, x.to_le_bytes().to_vec());
        let mut out = Vec::new();
        put_u32_le(&mut out, x as u32);
        assert_eq!(out, (x as u32).to_le_bytes().to_vec());
        let mut out = Vec::new();
        put_u16_le(&mut out, x as u16);
        assert_eq!(out, (x as u16).to_le_bytes().to_vec());
    }
}

#[test]
fn fields_are_appended_after_what_is_there() {
    let mut out = vec![9, 9];
    put_u16_le(&mut out, 1);
    put_u32_le(&mut out, 2);
    put_u64_le(&mut out, 3);
    assert_eq!(out, vec![9, 9, 1, 0, 2, 0, 0, 0, 3, 0, 0, 0, 0, 0, 0, 0]);
}
