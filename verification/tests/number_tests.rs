use ti82_link::number::{decimal_digit_list, decode_real_raw, encode_integer, encode_real_raw, parse_real_parts};

#[test]
fn decode_real_splits_digits_exponent_and_sign() {
    let bytes = [0x80, 0x82, 0x31, 0x41, 0x59, 0x26, 0x53, 0x58, 0x97];
    let (digits, exponent, negative) = decode_real_raw(&bytes).unwrap();
    assert_eq!(digits, [3, 1, 4, 1, 5, 9, 2, 6, 5, 3, 5, 8, 9, 7]);
    assert_eq!(exponent, 2);
    assert!(negative);
}

#[test]
fn decode_real_reads_negative_exponent() {
    let bytes = [0x00, 0x7D, 0x12, 0, 0, 0, 0, 0, 0];
    let (_, exponent, negative) = decode_real_raw(&bytes).unwrap();
    assert_eq!(exponent, -3);
    assert!(!negative);
}

#[test]
fn decode_real_refuses_wrong_length() {
    assert!(decode_real_raw(&[0u8; 8]).is_none());
    assert!(decode_real_raw(&[0u8; 10]).is_none());
    assert!(decode_real_raw(&[]).is_none());
}

#[test]
fn encode_real_places_sign_exponent_and_mantissa() {
    let r = encode_real_raw(&[0x12, 0x34, 0x56, 0x78, 0x90, 0x12, 0x34], -5, true);
    assert_eq!(r, [0x80, 0x7B, 0x12, 0x34, 0x56, 0x78, 0x90, 0x12, 0x34]);
    let r = encode_real_raw(&[0; 7], 127, false);
    assert_eq!(r, [0x00, 0xFF, 0, 0, 0, 0, 0, 0, 0]);
}

#[test]
fn decode_after_encode_real_gives_fields_back() {
    let mantissa = [0x98, 0x76, 0x54, 0x32, 0x10, 0x01, 0x23];
    let bytes = encode_real_raw(&mantissa, -128, false);
    let (digits, exponent, negative) = decode_real_raw(&bytes).unwrap();
    assert_eq!(digits, [9, 8, 7, 6, 5, 4, 3, 2, 1, 0, 0, 1, 2, 3]);
    assert_eq!(exponent, -128);
    assert!(!negative);
}

#[test]
fn encode_after_decode_real_gives_bytes_back() {
    let bytes = [0x80, 0x84, 0x12, 0x34, 0x56, 0x78, 0x9A, 0xBC, 0xDE];
    let (digits, exponent, negative) = decode_real_raw(&bytes).unwrap();
    let mut packed = [0u8; 7];
    for k in 0..7 {
        packed[k] = digits[2 * k] * 16 + digits[2 * k + 1];
    }
    assert_eq!(encode_real_raw(&packed, exponent, negative), bytes);
}

#[test]
fn encode_integer_forty_two() {
    assert_eq!(encode_integer(42), [0x00, 0x81, 0x42, 0, 0, 0, 0, 0, 0]);
}

#[test]
fn encode_integer_zero() {
    assert_eq!(encode_integer(0), [0x00, 0x80, 0, 0, 0, 0, 0, 0, 0]);
}

#[test]
fn encode_integer_negative() {
    assert_eq!(encode_integer(-7), [0x80, 0x80, 0x70, 0, 0, 0, 0, 0, 0]);
    assert_eq!(encode_integer(-1000), [0x80, 0x83, 0x10, 0, 0, 0, 0, 0, 0]);
}

#[test]
fn encode_integer_extremes() {
    assert_eq!(encode_integer(i32::MAX), [0x00, 0x89, 0x21, 0x47, 0x48, 0x36, 0x47, 0, 0]);
    assert_eq!(encode_integer(i32::MIN), [0x80, 0x89, 0x21, 0x47, 0x48, 0x36, 0x48, 0, 0]);
}

#[test]
fn encode_integer_digits_decode_back() {
    let (digits, exponent, negative) = decode_real_raw(&encode_integer(-90210)).unwrap();
    assert_eq!(digits, [9, 0, 2, 1, 0, 0, 0, 0, 0, 0, 0, 0, 0, 0]);
    assert_eq!(exponent, 4);
    assert!(negative);
}

#[test]
fn parse_real_parts_of_encoded_integer() {
    for v in [1, 9, 10, 42, 999, 123456, -5, -31415, 2147483647, -2147483648] {
        let p = parse_real_parts(&encode_integer(v)).unwrap();
        let magnitude = (v as i64).unsigned_abs() as u128;
        assert_eq!(p.mantissa as u128 * 10u128.pow(p.exponent as u32), magnitude * 10u128.pow(13));
        assert_eq!(p.negative, v < 0);
    }
}

#[test]
fn parse_real_parts_reads_mantissa_and_exponent() {
    let p = parse_real_parts(&[0x00, 0x82, 0x42, 0, 0, 0, 0, 0, 0]).unwrap();
    assert_eq!(p.mantissa, 42_000_000_000_000);
    assert_eq!(p.exponent, 2);
    assert!(!p.negative);
    let p = parse_real_parts(&[0x8F, 0x00, 0xFF, 0xFF, 0xFF, 0xFF, 0xFF, 0xFF, 0xFF]).unwrap();
    assert_eq!(p.mantissa, 166_666_666_666_665);
    assert_eq!(p.exponent, -128);
    assert!(p.negative);
    assert!(parse_real_parts(&[0u8; 5]).is_none());
}

#[test]
fn decimal_digits_of_numbers() {
    assert_eq!(decimal_digit_list(0), vec![0]);
    assert_eq!(decimal_digit_list(7), vec![7]);
    assert_eq!(decimal_digit_list(1200), vec![1, 2, 0, 0]);
    assert_eq!(decimal_digit_list(u64::MAX).len(), 20);
}
