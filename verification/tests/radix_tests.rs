use ir_convert::common::CodecError;
use ir_convert::radix::{bytes_to_digits, digits_to_bytes, magnitude_text, twos_complement};

#[test]
fn digits_to_bytes_reads_least_significant_first() {
    // "FF" read right to left: two digits of value 15 in base 16
    assert_eq!(digits_to_bytes(&vec![15, 15], 16), Ok(vec![0xFF]));
    // "123" in base 10, right to left
    assert_eq!(digits_to_bytes(&vec![3, 2, 1], 10), Ok(vec![123]));
    // a large magnitude spreads over several bytes
    assert_eq!(digits_to_bytes(&vec![0, 0, 0, 1], 10), Ok(vec![0xE8, 0x03]));
}

#[test]
fn digits_to_bytes_drops_leading_zero_digits() {
    assert_eq!(digits_to_bytes(&vec![1, 0, 0], 10), Ok(vec![1]));
    assert_eq!(digits_to_bytes(&vec![0, 0], 16), Ok(vec![]));
}

#[test]
fn digits_to_bytes_rejects_a_digit_at_the_base() {
    assert_eq!(digits_to_bytes(&vec![7, 8], 8), Err(CodecError::InvalidDigit));
    assert_eq!(digits_to_bytes(&vec![2], 2), Err(CodecError::InvalidDigit));
}

#[test]
fn bytes_to_digits_inverts_digits_to_bytes() {
    let digits: Vec<u8> = vec![3, 2, 1];
    let bytes = digits_to_bytes(&digits, 10).unwrap();
    assert_eq!(bytes_to_digits(&bytes, 10), digits);

    let digits16: Vec<u8> = vec![0xA, 0xB, 0xC];
    let bytes16 = digits_to_bytes(&digits16, 16).unwrap();
    assert_eq!(bytes_to_digits(&bytes16, 16), digits16);
}

#[test]
fn bytes_to_digits_handles_zero_and_empty() {
    assert_eq!(bytes_to_digits(&vec![], 10), Vec::<u8>::new());
    assert_eq!(bytes_to_digits(&vec![0, 0], 10), Vec::<u8>::new());
}

#[test]
fn magnitude_text_renders_all_bases() {
    assert_eq!(magnitude_text(&vec![255], 16), b"FF".to_vec());
    assert_eq!(magnitude_text(&vec![255], 2), b"11111111".to_vec());
    assert_eq!(magnitude_text(&vec![232, 3], 10), b"1000".to_vec());
    assert_eq!(magnitude_text(&vec![], 10), b"0".to_vec());
    assert_eq!(magnitude_text(&vec![0], 10), b"0".to_vec());
}

#[test]
fn twos_complement_wraps_at_the_width() {
    assert_eq!(twos_complement(&vec![1], 1), vec![0xFF]);
    assert_eq!(twos_complement(&vec![1], 2), vec![0xFF, 0xFF]);
    assert_eq!(twos_complement(&vec![], 2), vec![0x00, 0x00]);
    assert_eq!(twos_complement(&vec![0x80], 1), vec![0x80]);
}
