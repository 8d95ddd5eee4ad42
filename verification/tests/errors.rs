use cabarrus::errors::Error;
use cabarrus::numpy::read_matrix;
use cabarrus::text::{list_text, number_text};

#[test]
fn numbers_are_written_in_base_ten() {
    assert_eq!(number_text(0), "0");
    assert_eq!(number_text(48), "48");
    assert_eq!(number_text(usize::MAX), usize::MAX.to_string());
}

#[test]
fn bytes_are_listed_with_commas() {
    assert_eq!(list_text(&[]), "");
    assert_eq!(list_text(&[7]), "7");
    assert_eq!(list_text(&[0, 147, 255]), "0, 147, 255");
}

#[test]
fn size_message_names_shape_and_bytes() {
    let error = Error::SizeMismatch { rows: 3, cols: 40, actual: 957 };
    assert_eq!(
        error.message(),
        "The matrix file holds the wrong number of bytes for a 3x40 matrix: \
         8 bytes are needed for each element, but there are 957 bytes."
    );
    assert!(!error.is_format());
}

#[test]
fn format_message_shows_the_bytes_twice() {
    let error = read_matrix(b"\x93NUMPY\x01\x00 oops".to_vec()).unwrap_err();
    assert!(error.is_format());
    assert_eq!(
        error.message(),
        "Expected an uncompressed numpy (.npy) file, but could not parse the header. \
         The first hundred bytes look like:\n\n\u{fffd}NUMPY\u{1}\u{0} oops\n\n\
         As bytes, the header is as follows:\n\n\
         [147, 78, 85, 77, 80, 89, 1, 0, 32, 111, 111, 112, 115]\n\n\
         It should look something like this example, where . are non-printable characters: \
         .NUMPY..{'descr': '<f8', 'fortran_order': False, 'shape': (34,27)}\n\
         Only two-dimensional matrices of little-endian 64-bit floats in row-major order \
         are supported."
    );
}

#[test]
fn format_message_of_nothing() {
    let text = Error::Format(Vec::new()).message();
    assert!(text.contains("look like:\n\n\n\nAs bytes"));
    assert!(text.contains("follows:\n\n[]\n\nIt should"));
}
