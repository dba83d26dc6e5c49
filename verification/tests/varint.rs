use storage_core::varint::{read_varint, write_varint, VarintRead};

fn written(value: u128) -> Vec<u8> {
    let mut out = Vec::new();
    write_varint(&mut out, value);
    out
}

#[test]
fn small_numbers_take_one_byte() {
    assert_eq!(written(0), vec![0]);
    assert_eq!(written(1), vec![1]);
    assert_eq!(written(127), vec![127]);
}

#[test]
fn larger_numbers_take_more_bytes() {
    assert_eq!(written(128), vec![0x80, 0x01]);
    assert_eq!(written(300), vec![0xac, 0x02]);
    assert_eq!(written(16384), vec![0x80, 0x80, 0x01]);
    assert_eq!(written(u64::MAX as u128).len(), 10);
    assert_eq!(written(u128::MAX).len(), 19);
}

#[test]
fn writing_appends() {
    let mut out = vec![9u8, 9];
    write_varint(&mut out, 300);
    assert_eq!(out, vec![9, 9, 0xac, 0x02]);
}

#[test]
fn reading_gives_back_what_was_written() {
    for value in [0u128, 1, 127, 128, 255, 300, 16383, 16384, 1 << 40, u64::MAX as u128, u128::MAX] {
        let mut bytes = vec![0xffu8, 0x7f];
        let start = bytes.len();
        write_varint(&mut bytes, value);
        let next = bytes.len();
        bytes.push(0x55);
        assert_eq!(read_varint(&bytes, start), VarintRead::Value { value, next });
    }
}

#[test]
fn reading_stops_at_the_end() {
    assert_eq!(read_varint(&[], 0), VarintRead::Incomplete);
    assert_eq!(read_varint(&[0x80], 0), VarintRead::Incomplete);
    assert_eq!(read_varint(&[0x05, 0x80, 0xff], 1), VarintRead::Incomplete);
    assert_eq!(read_varint(&[0x05], 1), VarintRead::Incomplete);
}

#[test]
fn padded_numbers_are_read() {
    assert_eq!(read_varint(&[0x85, 0x80, 0x00], 0), VarintRead::Value { value: 5, next: 3 });
}

#[test]
fn numbers_beyond_128_bits_are_told_apart() {
    let mut bytes = vec![0xffu8; 18];
    bytes.push(0x03);
    assert_eq!(read_varint(&bytes, 0), VarintRead::Value { value: u128::MAX, next: 19 });
    let mut bytes = vec![0xffu8; 18];
    bytes.push(0x04);
    assert_eq!(read_varint(&bytes, 0), VarintRead::TooLarge { next: 19 });
    let mut bytes = vec![0x80u8; 19];
    bytes.push(0x01);
    assert_eq!(read_varint(&bytes, 0), VarintRead::TooLarge { next: 20 });
    let mut bytes = vec![0x80u8; 25];
    bytes.push(0x00);
    assert_eq!(read_varint(&bytes, 0), VarintRead::Value { value: 0, next: 26 });
}
