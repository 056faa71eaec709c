use capnpack::{pack, unpack};

fn roundtrip(data: &[u8]) {
    let packed = pack(data);
    assert_eq!(unpack(&packed, data.len()).unwrap(), data);
    assert_eq!(unpack(&packed, 0).unwrap(), data);
}

#[test]
fn readme_example_round_trips() {
    let data = vec![1, 0, 0, 0, 2, 3, 4, 5];
    let packed = pack(&data);
    assert_eq!(packed, vec![0xF1, 1, 2, 3, 4, 5]);
    let packed = vec![0xF1, 1, 2, 3, 4, 5];
    assert_eq!(unpack(&packed, 8).unwrap(), data);
}

#[test]
fn readme_short_tail_sets_filler_bits() {
    assert_eq!(pack(&[0, 0, 1, 2, 0]), vec![0b11101100, 1, 2]);
    assert_eq!(unpack(&[0b11101100, 1, 2], 5).unwrap(), vec![0, 0, 1, 2, 0]);
}

#[test]
fn empty_input() {
    assert_eq!(pack(&[]), Vec::<u8>::new());
    assert_eq!(unpack(&[], 0).unwrap(), Vec::<u8>::new());
}

#[test]
fn short_all_non_zero_tail() {
    assert_eq!(pack(&[1, 2, 3]), vec![0xff, 1, 2, 3]);
    assert_eq!(unpack(&[0xff, 1, 2, 3], 3).unwrap(), vec![1, 2, 3]);
}

#[test]
fn short_all_zero_tail() {
    assert_eq!(pack(&[0, 0, 0]), vec![0b11111000]);
    assert_eq!(unpack(&[0b11111000], 3).unwrap(), vec![0, 0, 0]);
}

#[test]
fn zero_run_is_capped() {
    // 8 zeros, then at most 248 more in one run: 256 zeros in the first group.
    let d = vec![0u8; 300];
    let e = vec![0x00, 255, 0x00, 7 + 36];
    assert_eq!(pack(&d), e);
    assert_eq!(unpack(&e, 0).unwrap(), d);
}

#[test]
fn zero_run_then_tail() {
    let mut d = vec![0u8; 10];
    d.push(7);
    assert_eq!(pack(&d), vec![0x00, 9, 0xff, 7]);
    roundtrip(&d);
}

#[test]
fn literal_run_is_capped() {
    let d: Vec<u8> = (0..400u32).map(|i| (i % 255) as u8 + 1).collect();
    let packed = pack(&d);
    assert_eq!(packed[0], 0xff);
    assert_eq!(&packed[1..9], &d[0..8]);
    assert_eq!(packed[9], 248);
    roundtrip(&d);
}

#[test]
fn mixed_word() {
    let d = [0, 7, 0, 0, 0, 0, 0, 9];
    assert_eq!(pack(&d), vec![0b10000010, 7, 9]);
    roundtrip(&d);
}

#[test]
fn round_trips_on_assorted_inputs() {
    let mut seed: u32 = 12345;
    for len in 0..200usize {
        for density in [0u32, 1, 3, 5, 8] {
            let mut d = Vec::new();
            for _ in 0..len {
                seed = seed.wrapping_mul(1103515245).wrapping_add(12345);
                let r = (seed >> 16) % 8;
                let b = if r < density { ((seed >> 8) % 255) as u8 + 1 } else { 0 };
                d.push(b);
            }
            roundtrip(&d);
        }
    }
}

#[test]
fn hint_does_not_change_result() {
    let e = vec![0x00, 20, 0b11110000, 0xaa];
    let a = unpack(&e, 0).unwrap();
    let b = unpack(&e, 4096).unwrap();
    assert_eq!(a, b);
    assert_eq!(a, vec![vec![0u8; 21], vec![0, 0, 0, 0, 0xaa]].concat());
}

#[test]
fn zero_tag_without_count_is_eof() {
    let err = unpack(&[0x00], 10).unwrap_err();
    assert_eq!(format!("{:?}", err), "UnexpectedEOF(0)");
    assert_eq!(err.to_string(), "Tag 0 expected more bytes, but got EOF!");
}

#[test]
fn literal_count_beyond_input_is_eof() {
    let e = vec![0xff, 1, 2, 3, 4, 5, 6, 7, 8, 5, 1, 2];
    let err = unpack(&e, 10).unwrap_err();
    assert_eq!(format!("{:?}", err), "UnexpectedEOF(255)");
    assert_eq!(err.to_string(), "Tag 255 expected more bytes, but got EOF!");
}

#[test]
fn short_literal_is_taken_whole() {
    // fewer than 9 bytes after a 0xff tag: they are all the data
    assert_eq!(unpack(&[0xff, 9, 8, 7], 0).unwrap(), vec![9, 8, 7]);
}

#[test]
fn tagged_word_missing_bytes_is_eof() {
    let err = unpack(&[0x03, 1], 10).unwrap_err();
    assert_eq!(format!("{:?}", err), "UnexpectedEOF(3)");
    assert_eq!(err.to_string(), "Tag 3 expected more bytes, but got EOF!");
}

#[test]
fn main_example_input() {
    let data = vec![0xff, 0x01, 0x02, 0x03, 0x04, 0x05, 0x06, 0x07, 0x08, 0xC3];
    let r = unpack(&data, 1024);
    assert!(r.is_err());
    assert_eq!(r.unwrap_err().to_string(), "Tag 255 expected more bytes, but got EOF!");
}

#[test]
fn error_message_two_digits() {
    // tag 0b00001100 = 12: two set bits, one byte left
    let err = unpack(&[12, 5], 0).unwrap_err();
    assert_eq!(err.to_string(), "Tag 12 expected more bytes, but got EOF!");
}
