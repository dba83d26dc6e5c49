use storage_core::delta::decode::{read_instruction, Parsed};
use storage_core::delta::encode::{DeltaDiff, Similarity};
use storage_core::delta::index::{common_len, ChunkIndex};
use storage_core::errors::DecodeError;
use storage_core::{delta_decode, delta_encode, delta_encode_rate};

fn round_trip(old: &[u8], new: &[u8]) -> Vec<u8> {
    let delta = delta_encode(old, new);
    assert_eq!(delta_decode(old, &delta), Ok(new.to_vec()));
    delta
}

#[test]
fn round_trip_of_two_empty_strings() {
    assert_eq!(round_trip(b"", b""), Vec::<u8>::new());
}

#[test]
fn round_trip_from_an_empty_base() {
    let delta = round_trip(b"", b"brand new content");
    let mut expected = vec![34u8];
    expected.extend_from_slice(b"brand new content");
    assert_eq!(delta, expected);
}

#[test]
fn round_trip_to_an_empty_target() {
    assert_eq!(round_trip(b"something that goes away", b""), Vec::<u8>::new());
}

#[test]
fn round_trip_of_equal_strings() {
    let text = b"the quick brown fox jumps over the lazy dog";
    assert_eq!(round_trip(text, text), vec![87u8, 0u8]);
}

#[test]
fn equal_short_strings_are_one_copy() {
    assert_eq!(round_trip(b"ab", b"ab"), vec![5u8, 0u8]);
    assert_eq!(delta_encode_rate(b"ab", b"ab"), Similarity { matched: 2, total: 2 });
}

#[test]
fn hello_world_goodbye() {
    let old = b"Hello, world!";
    let new = b"Hello, world! Goodbye.";
    let delta = round_trip(old, new);
    let mut expected = vec![27u8, 0u8, 18u8];
    expected.extend_from_slice(b" Goodbye.");
    assert_eq!(delta, expected);
    let rate = delta_encode_rate(old, new);
    assert_eq!(rate, Similarity { matched: 13, total: 22 });
    assert!(rate.matched as f64 / rate.total as f64 > 0.5);
}

#[test]
fn insertion_in_the_middle() {
    let old = b"0123456789abcdefghij";
    let new = b"0123456789--abcdefghij";
    let delta = round_trip(old, new);
    assert_eq!(delta, vec![21u8, 0, 4, b'-', b'-', 21, 10]);
    assert_eq!(delta_encode_rate(old, new), Similarity { matched: 20, total: 22 });
}

#[test]
fn short_matches_stay_literal() {
    let old = b"abcXYZ";
    let new = b"abc-XYZ";
    let delta = round_trip(old, new);
    let mut expected = vec![14u8];
    expected.extend_from_slice(b"abc-XYZ");
    assert_eq!(delta, expected);
    assert_eq!(delta_encode_rate(old, new), Similarity { matched: 0, total: 7 });
}

#[test]
fn the_earliest_of_equal_matches_is_copied() {
    let old = b"wxyz----wxyz";
    let new = b"wxyz";
    assert_eq!(round_trip(old, new), vec![9u8, 0]);
    let old = b"wxy_----wxyz";
    assert_eq!(round_trip(old, new), vec![9u8, 8]);
}

#[test]
fn the_longest_match_is_copied() {
    let old = b"abcd....abcdefgh";
    let new = b"abcdefgh";
    assert_eq!(round_trip(old, new), vec![17u8, 8]);
}

#[test]
fn large_offsets_and_lengths_take_more_bytes() {
    let mut old: Vec<u8> = Vec::new();
    for n in 0..300u32 {
        old.push((n % 7) as u8 + b'a');
        old.push((n % 11) as u8 + b'0');
    }
    old.extend_from_slice(b"THE TAIL OF THE BASE");
    let new = b"THE TAIL OF THE BASE".to_vec();
    let delta = round_trip(&old, &new);
    assert_eq!(delta, vec![41u8, 0xd8, 0x04]);
    let new: Vec<u8> = old[..200].to_vec();
    let delta = round_trip(&old, &new);
    assert_eq!(delta, vec![0x91, 0x03, 0x00]);
}

#[test]
fn round_trip_of_shuffled_blocks() {
    let mut old: Vec<u8> = Vec::new();
    for n in 0..2000u32 {
        old.push((n.wrapping_mul(2654435761) >> 24) as u8);
    }
    let mut new: Vec<u8> = Vec::new();
    new.extend_from_slice(&old[1500..]);
    new.extend_from_slice(b"something new in between");
    new.extend_from_slice(&old[..700]);
    new.extend_from_slice(&old[600..900]);
    let delta = round_trip(&old, &new);
    assert!(delta.len() < 60);
    let rate = delta_encode_rate(&old, &new);
    assert_eq!(rate.total, new.len());
    assert!(rate.matched >= 1500);
    assert!(rate.matched <= rate.total);
}

#[test]
fn round_trip_of_repetitive_data() {
    let old = vec![0u8; 500];
    let mut new = vec![0u8; 300];
    new.push(1);
    new.extend_from_slice(&[0u8; 400]);
    let delta = round_trip(&old, &new);
    assert_eq!(delta, vec![0xd9, 0x04, 0, 2, 1, 0xa1, 0x06, 0]);
}

#[test]
fn similarity_is_a_share() {
    assert_eq!(delta_encode_rate(b"", b""), Similarity { matched: 1, total: 1 });
    assert_eq!(delta_encode_rate(b"gone", b""), Similarity { matched: 1, total: 1 });
    assert_eq!(delta_encode_rate(b"", b"all new"), Similarity { matched: 0, total: 7 });
    assert_eq!(delta_encode_rate(b"same text", b"same text"), Similarity { matched: 9, total: 9 });
    assert_eq!(
        delta_encode_rate(b"nothing in common", b"XXXXXXXXXX"),
        Similarity { matched: 0, total: 10 }
    );
}

#[test]
fn diff_session_gives_delta_and_rate() {
    let differ = DeltaDiff::new(b"Hello, world!", b"Hello, world! Goodbye.");
    assert_eq!(differ.encode(), delta_encode(b"Hello, world!", b"Hello, world! Goodbye."));
    assert_eq!(differ.get_ssam_rate(), Similarity { matched: 13, total: 22 });
}

#[test]
fn copy_beyond_the_base_is_out_of_range() {
    let base = b"0123456789";
    assert_eq!(delta_decode(base, &[9, 11]), Err(DecodeError::OutOfRange));
    assert_eq!(delta_decode(base, &[9, 7]), Err(DecodeError::OutOfRange));
    assert_eq!(delta_decode(base, &[23, 0]), Err(DecodeError::OutOfRange));
    assert_eq!(delta_decode(base, &[3, 10]), Err(DecodeError::OutOfRange));
    assert_eq!(delta_decode(base, &[1, 11]), Err(DecodeError::OutOfRange));
    assert_eq!(delta_decode(b"", &[3, 0]), Err(DecodeError::OutOfRange));
    assert_eq!(delta_decode(base, &[9, 6]), Ok(b"6789".to_vec()));
    assert_eq!(delta_decode(base, &[1, 10]), Ok(Vec::new()));
}

#[test]
fn copy_beyond_the_base_after_good_instructions() {
    let base = b"0123456789";
    let delta = [4, b'a', b'b', 5, 1, 9, 200, 1, 2, b'z'];
    assert_eq!(delta_decode(base, &delta), Err(DecodeError::OutOfRange));
}

#[test]
fn huge_numbers_are_out_of_range() {
    let base = b"0123456789";
    let mut delta = vec![3u8];
    delta.extend_from_slice(&[0xff; 30]);
    delta.push(0x7f);
    assert_eq!(delta_decode(base, &delta), Err(DecodeError::OutOfRange));
    let mut delta = vec![0xffu8; 30];
    delta.push(0x7f);
    delta.push(0);
    assert_eq!(delta_decode(base, &delta), Err(DecodeError::OutOfRange));
}

#[test]
fn delta_that_stops_early_is_truncated() {
    let base = b"0123456789";
    assert_eq!(delta_decode(base, &[6, b'a', b'b']), Err(DecodeError::Truncated));
    assert_eq!(delta_decode(base, &[9]), Err(DecodeError::Truncated));
    assert_eq!(delta_decode(base, &[0x80]), Err(DecodeError::Truncated));
    assert_eq!(delta_decode(base, &[9, 0x80]), Err(DecodeError::Truncated));
    assert_eq!(delta_decode(base, &[2, b'a', 9, 0, 4]), Err(DecodeError::Truncated));
    let mut delta = vec![0xfeu8; 30];
    delta.push(0x7f);
    delta.push(b'a');
    assert_eq!(delta_decode(base, &delta), Err(DecodeError::Truncated));
}

#[test]
fn the_first_failing_instruction_decides() {
    let base = b"0123456789";
    assert_eq!(delta_decode(base, &[9, 8, 6, b'a']), Err(DecodeError::OutOfRange));
    assert_eq!(delta_decode(base, &[5, 2, 6, b'a']), Err(DecodeError::Truncated));
    assert_eq!(delta_decode(base, &[5, 2, 8, b'a', 9, 8]), Err(DecodeError::Truncated));
}

#[test]
fn hand_made_delta() {
    let base = b"0123456789";
    let delta = [7, 2, 6, b'a', b'b', b'c', 0, 5, 0x80, 0x00, 3, 9];
    assert_eq!(delta_decode(base, &delta), Ok(b"234abc019".to_vec()));
}

#[test]
fn reading_single_instructions() {
    let delta = [7, 2, 6, b'a', b'b', b'c', 9];
    assert!(matches!(
        read_instruction(&delta, 0),
        Parsed::Copy { offset: Some(2), len: Some(3), next: 2 }
    ));
    assert!(matches!(read_instruction(&delta, 2), Parsed::Insert { from: 3, to: 6 }));
    assert!(matches!(read_instruction(&delta, 6), Parsed::Incomplete));
}

#[test]
fn index_finds_the_earliest_longest_match() {
    let old = b"abcd....abcdefgh-abcdefgh";
    let index = ChunkIndex::build(old);
    assert_eq!(index.longest(old, b"abcdefgh", 0), Some((8, 8)));
    assert_eq!(index.longest(old, b"__abcd__", 2), Some((0, 4)));
    assert_eq!(index.longest(old, b"__abc", 2), None);
    assert_eq!(index.longest(old, b"zzzzzz", 0), None);
    assert_eq!(index.longest(b"abc", b"abcabc", 0), None);
    assert_eq!(common_len(old, 8, b"abcdefZ", 0), 6);
    assert_eq!(common_len(old, 25, b"abc", 0), 0);
}

#[test]
fn long_runs_of_one_byte_are_fast() {
    let old = vec![0u8; 200_000];
    let mut new = vec![0u8; 200_000];
    new.push(1);
    new.extend_from_slice(&[0u8; 100_000]);
    let delta = round_trip(&old, &new);
    assert_eq!(delta, vec![0x81, 0xb5, 0x18, 0, 2, 1, 0xc1, 0x9a, 0x0c, 0]);
    assert_eq!(delta_encode_rate(&old, &new), Similarity { matched: 300_000, total: 300_001 });
    let longer = vec![0u8; 300_000];
    assert_eq!(round_trip(&old, &longer), vec![0x81, 0xb5, 0x18, 0, 0xc1, 0x9a, 0x0c, 0]);
}
