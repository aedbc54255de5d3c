use unsourcemap::{decode_vlq, VLQError};

const ALPHABET: &[u8] = b"ABCDEFGHIJKLMNOPQRSTUVWXYZabcdefghijklmnopqrstuvwxyz0123456789+/";

fn encode(n: i64) -> String {
    let mut v: u64 = if n < 0 { ((-n) as u64) * 2 + 1 } else { (n as u64) * 2 };
    let mut out = String::new();
    loop {
        let mut digit = v % 32;
        v /= 32;
        if v > 0 {
            digit += 32;
        }
        out.push(ALPHABET[digit as usize] as char);
        if v == 0 {
            break;
        }
    }
    out
}

#[test]
fn round_trip_small_values() {
    for n in -5000i64..=5000 {
        assert_eq!(decode_vlq(&encode(n)).unwrap(), vec![n as i32], "n = {}", n);
    }
}

#[test]
fn round_trip_extremes() {
    for n in [i32::MIN as i64, i32::MIN as i64 + 1, -1_000_000_007, 1 << 30, i32::MAX as i64] {
        assert_eq!(decode_vlq(&encode(n)).unwrap(), vec![n as i32], "n = {}", n);
    }
}

#[test]
fn empty_segment_decodes_to_nothing() {
    assert_eq!(decode_vlq("").unwrap(), Vec::<i32>::new());
}

#[test]
fn character_outside_alphabet_is_invalid() {
    assert_eq!(decode_vlq("!"), Err(VLQError::InvalidCharacter));
    assert_eq!(decode_vlq("AA=A"), Err(VLQError::InvalidCharacter));
    assert_eq!(decode_vlq("AAé"), Err(VLQError::InvalidCharacter));
}

#[test]
fn only_continuation_characters_is_incomplete() {
    assert_eq!(decode_vlq("g"), Err(VLQError::IncompleteSequence));
    assert_eq!(decode_vlq("gggg"), Err(VLQError::IncompleteSequence));
    assert_eq!(decode_vlq("AA/"), Err(VLQError::IncompleteSequence));
}

#[test]
fn known_encodings() {
    assert_eq!(decode_vlq("A").unwrap(), vec![0]);
    assert_eq!(decode_vlq("C").unwrap(), vec![1]);
    assert_eq!(decode_vlq("D").unwrap(), vec![-1]);
    assert_eq!(decode_vlq("B").unwrap(), vec![0]);
    assert_eq!(decode_vlq("2H").unwrap(), vec![123]);
    assert_eq!(decode_vlq("AAgBC").unwrap(), vec![0, 0, 16, 1]);
    assert_eq!(decode_vlq("AACA").unwrap(), vec![0, 0, 1, 0]);
    assert_eq!(decode_vlq("+/////D").unwrap(), vec![i32::MAX]);
}

#[test]
fn numbers_beyond_i32_are_out_of_range() {
    assert_eq!(decode_vlq(&encode(i32::MAX as i64 + 1)), Err(VLQError::ValueOutOfRange));
    assert_eq!(decode_vlq(&encode(i32::MIN as i64 - 1)), Err(VLQError::ValueOutOfRange));
    assert_eq!(decode_vlq(&encode(1 << 40)), Err(VLQError::ValueOutOfRange));
}

#[test]
fn long_runs_of_zero_digits_are_accepted() {
    assert_eq!(decode_vlq("ggggggggggggA").unwrap(), vec![0]);
    assert_eq!(decode_vlq("ggggggggggggC"), Err(VLQError::ValueOutOfRange));
}
