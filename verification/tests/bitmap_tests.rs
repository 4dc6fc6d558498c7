use parser_core::bitmap::{bitmap_set_bits, pad_to_words};

#[test]
fn pad_adds_zero_bytes_to_a_word() {
    assert_eq!(pad_to_words(b"abc"), vec![b'a', b'b', b'c', 0]);
    assert_eq!(pad_to_words(b"abcde"), vec![b'a', b'b', b'c', b'd', b'e', 0, 0, 0]);
}

#[test]
fn pad_keeps_whole_words() {
    assert_eq!(pad_to_words(b"abcd"), b"abcd".to_vec());
    assert_eq!(pad_to_words(b""), Vec::<u8>::new());
}

#[test]
fn set_bits_are_listed_in_order() {
    assert_eq!(bitmap_set_bits(&[0b101, 1 << 31]), vec![0, 2, 63]);
}

#[test]
fn set_bits_of_empty_and_full_words() {
    assert_eq!(bitmap_set_bits(&[0, 0]), Vec::<u32>::new());
    let all: Vec<u32> = (32u32..64).collect();
    assert_eq!(bitmap_set_bits(&[0, u32::MAX]), all);
}
