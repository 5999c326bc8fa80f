use fairplay_auth::decimal::{read_decimal, write_decimal};
use fairplay_auth::hex::{read_hex_u128, write_hex};

fn decimal_of(n: u64) -> Vec<u8> {
    let mut out = Vec::new();
    write_decimal(&mut out, n);
    out
}

fn hex_of(n: u128, width: usize) -> Vec<u8> {
    let mut out = Vec::new();
    write_hex(&mut out, n, width);
    out
}

#[test]
fn writes_decimal_numbers() {
    assert_eq!(decimal_of(0), b"0".to_vec());
    assert_eq!(decimal_of(7), b"7".to_vec());
    assert_eq!(decimal_of(10), b"10".to_vec());
    assert_eq!(decimal_of(1700000000), b"1700000000".to_vec());
    assert_eq!(decimal_of(u64::MAX), b"18446744073709551615".to_vec());
}

#[test]
fn write_decimal_appends() {
    let mut out = b"exp=".to_vec();
    write_decimal(&mut out, 42);
    assert_eq!(out, b"exp=42".to_vec());
}

#[test]
fn reads_a_decimal_number_up_to_the_first_other_character() {
    assert_eq!(read_decimal(b"0", 0), Some((0, 1)));
    assert_eq!(read_decimal(b"1700000000,", 0), Some((1700000000, 10)));
    assert_eq!(read_decimal(b"ab123}", 2), Some((123, 5)));
    assert_eq!(read_decimal(b"18446744073709551615", 0), Some((u64::MAX, 20)));
}

#[test]
fn refuses_what_is_no_decimal_number() {
    assert_eq!(read_decimal(b"", 0), None);
    assert_eq!(read_decimal(b"abc", 0), None);
    assert_eq!(read_decimal(b"12", 2), None);
    assert_eq!(read_decimal(b"12", 3), None);
    assert_eq!(read_decimal(b"-1", 0), None);
    assert_eq!(read_decimal(b"+1", 0), None);
}

#[test]
fn refuses_a_leading_zero() {
    assert_eq!(read_decimal(b"007", 0), None);
    assert_eq!(read_decimal(b"00", 0), None);
    assert_eq!(read_decimal(b"0,", 0), Some((0, 1)));
}

#[test]
fn refuses_a_number_beyond_64_bits() {
    assert_eq!(read_decimal(b"18446744073709551616", 0), None);
    assert_eq!(read_decimal(b"99999999999999999999", 0), None);
    assert_eq!(read_decimal(b"184467440737095516150", 0), None);
}

#[test]
fn reading_undoes_writing_of_decimal_numbers() {
    for n in [0u64, 1, 9, 10, 99, 100, 12345, 1 << 32, u64::MAX - 1, u64::MAX] {
        let text = decimal_of(n);
        assert_eq!(read_decimal(&text, 0), Some((n, text.len())));
    }
}

#[test]
fn writes_hexadecimal_numbers_of_fixed_width() {
    assert_eq!(hex_of(0, 0), b"".to_vec());
    assert_eq!(hex_of(0, 4), b"0000".to_vec());
    assert_eq!(hex_of(0xbeef, 4), b"beef".to_vec());
    assert_eq!(hex_of(0xbeef, 8), b"0000beef".to_vec());
    assert_eq!(hex_of(0x1beef, 4), b"beef".to_vec());
    assert_eq!(
        hex_of(0x67e5504410b1426f9247bb680e5fe0c8, 32),
        b"67e5504410b1426f9247bb680e5fe0c8".to_vec()
    );
    assert_eq!(hex_of(u128::MAX, 32), b"ffffffffffffffffffffffffffffffff".to_vec());
}

#[test]
fn reads_thirty_two_hexadecimal_digits() {
    assert_eq!(
        read_hex_u128(b"67e5504410b1426f9247bb680e5fe0c8", 0),
        Some(0x67e5504410b1426f9247bb680e5fe0c8)
    );
    assert_eq!(read_hex_u128(b"xx00000000000000000000000000000000ff", 2), Some(0));
    assert_eq!(read_hex_u128(b"ffffffffffffffffffffffffffffffff", 0), Some(u128::MAX));
}

#[test]
fn refuses_what_is_no_hexadecimal_number() {
    assert_eq!(read_hex_u128(b"", 0), None);
    assert_eq!(read_hex_u128(b"67e5504410b1426f9247bb680e5fe0c", 0), None);
    assert_eq!(read_hex_u128(b"67e5504410b1426f9247bb680e5fe0c8", 1), None);
    assert_eq!(read_hex_u128(b"67E5504410B1426F9247BB680E5FE0C8", 0), None);
    assert_eq!(read_hex_u128(b"67e5504410b1426f9247bb680e5fe0cg", 0), None);
    assert_eq!(read_hex_u128(b"67e55044-10b1-426f-9247-bb680e5fe0c8", 0), None);
    assert_eq!(read_hex_u128(b"67e5504410b1426f9247bb680e5fe0c8", usize::MAX), None);
}

#[test]
fn reading_undoes_writing_of_hexadecimal_numbers() {
    for n in [0u128, 1, 15, 16, 255, 1 << 64, u128::MAX - 1, u128::MAX] {
        assert_eq!(read_hex_u128(&hex_of(n, 32), 0), Some(n));
    }
}
