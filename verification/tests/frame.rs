use bezirke::frame::{frame_header, frame_len};

#[test]
fn frame_len_reads_big_endian() {
    assert_eq!(frame_len([0, 0, 1, 2]), 258);
    assert_eq!(frame_len([0x12, 0x34, 0x56, 0x78]), 0x1234_5678);
    assert_eq!(frame_len([0xff, 0xff, 0xff, 0xff]), u32::MAX);
    assert_eq!(frame_len([0, 0, 0, 0]), 0);
}

#[test]
fn frame_header_writes_big_endian() {
    assert_eq!(frame_header(258), [0, 0, 1, 2]);
    assert_eq!(frame_header(0x1234_5678), [0x12, 0x34, 0x56, 0x78]);
    assert_eq!(frame_header(0), [0, 0, 0, 0]);
}

#[test]
fn frame_header_matches_u32_cast() {
    for len in [0usize, 1, 255, 256, 65535, 65536, 16_777_216, 4_294_967_295] {
        assert_eq!(frame_header(len), (len as u32).to_be_bytes());
    }
}

#[test]
fn frame_header_truncates_like_a_cast() {
    let big: u64 = 0x1_0000_0005;
    if let Ok(len) = usize::try_from(big) {
        assert_eq!(frame_header(len), [0, 0, 0, 5]);
        assert_eq!(frame_header(len), (len as u32).to_be_bytes());
    }
}

#[test]
fn header_round_trip() {
    for len in [0usize, 7, 300, 70_000, 20_000_000, 4_000_000_000] {
        assert_eq!(frame_len(frame_header(len)) as usize, len);
    }
    for header in [[1u8, 2, 3, 4], [0, 0, 0, 9], [255, 0, 255, 0]] {
        assert_eq!(frame_header(frame_len(header) as usize), header);
    }
}
