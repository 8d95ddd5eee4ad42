use cabarrus::decimal::{format_decimal, read_decimal, scan_digits};

#[test]
fn formats_without_leading_zeros() {
    assert_eq!(format_decimal(0), b"0".to_vec());
    assert_eq!(format_decimal(7), b"7".to_vec());
    assert_eq!(format_decimal(10), b"10".to_vec());
    assert_eq!(format_decimal(1048576), b"1048576".to_vec());
    assert_eq!(format_decimal(usize::MAX), usize::MAX.to_string().into_bytes());
}

#[test]
fn reads_what_it_formats() {
    for n in [0usize, 1, 9, 10, 11, 99, 100, 65535, 1 << 40, usize::MAX - 1, usize::MAX] {
        let text = format_decimal(n);
        assert_eq!(read_decimal(&text, 0, text.len()), Some(n));
    }
}

#[test]
fn reads_only_digits_that_fit() {
    assert_eq!(read_decimal(b"", 0, 0), None);
    assert_eq!(read_decimal(b"12a", 0, 3), None);
    assert_eq!(read_decimal(b"12a", 0, 2), Some(12));
    assert_eq!(read_decimal(b" 12", 0, 3), None);
    assert_eq!(read_decimal(b"-1", 0, 2), None);
    assert_eq!(read_decimal(b"0007", 0, 4), Some(7));
    assert_eq!(read_decimal(b"x42y", 1, 3), Some(42));
    let mut beyond = usize::MAX.to_string().into_bytes();
    let last = beyond.len() - 1;
    beyond[last] += 1;
    assert_eq!(read_decimal(&beyond, 0, beyond.len()), None);
    assert_eq!(read_decimal(b"99999999999999999999999999", 0, 26), None);
}

#[test]
fn scans_to_the_first_byte_that_is_no_digit() {
    assert_eq!(scan_digits(b"123,45", 0), 3);
    assert_eq!(scan_digits(b"123,45", 3), 3);
    assert_eq!(scan_digits(b"123,45", 4), 6);
    assert_eq!(scan_digits(b"", 0), 0);
    assert_eq!(scan_digits(b"/0:", 0), 0);
    assert_eq!(scan_digits(b"/0:", 1), 2);
}
