//! Failures of the matrix codec.

use crate::text::{list_text, listed, lossy_text, number, number_text, to_text};
use vstd::prelude::*;
use vstd::string::*;

verus! {

/// Why a matrix file was turned down.
#[derive(Debug, PartialEq, Eq)]
pub enum Error {
    /// The bytes do not open with the header of a two-dimensional, row-major
    /// matrix of little-endian 64-bit floats. Carries the first bytes of the
    /// data (at most a hundred) so that the caller can show them.
    Format(Vec<u8>),
    /// The header is fine, but the bytes behind it are not the
    /// `rows * cols * 8` that its shape calls for.
    SizeMismatch { rows: usize, cols: usize, actual: usize },
}

/// What an [`Error`] says, with the dump as a sequence of bytes.
pub enum ErrorView {
    Format(Seq<u8>),
    SizeMismatch { rows: usize, cols: usize, actual: usize },
}

impl View for Error {
    type V = ErrorView;

    open spec fn view(&self) -> ErrorView {
        match *self {
            Error::Format(dump) => ErrorView::Format(dump@),
            Error::SizeMismatch { rows, cols, actual } => ErrorView::SizeMismatch {
                rows,
                cols,
                actual,
            },
        }
    }
}

/// What an error says, for people: for a header, what the data starts with,
/// as text and as numbers, and what a header looks like; for a size, the shape
/// and the number of bytes that were found.
pub open spec fn message_of(e: ErrorView) -> Seq<char> {
    match e {
        ErrorView::Format(dump) => "Expected an uncompressed numpy (.npy) file, but could not parse the header. The first hundred bytes look like:\n\n"@
            + lossy_text(dump) + "\n\nAs bytes, the header is as follows:\n\n["@ + listed(dump)
            + "]\n\nIt should look something like this example, where . are non-printable characters: .NUMPY..{'descr': '<f8', 'fortran_order': False, 'shape': (34,27)}\nOnly two-dimensional matrices of little-endian 64-bit floats in row-major order are supported."@,
        ErrorView::SizeMismatch { rows, cols, actual } => "The matrix file holds the wrong number of bytes for a "@
            + number(rows as nat) + "x"@ + number(cols as nat)
            + " matrix: 8 bytes are needed for each element, but there are "@ + number(
            actual as nat,
        ) + " bytes."@,
    }
}

impl Error {
    /// What the error says, for people.
    pub fn message(&self) -> (text: String)
        ensures
            text@ == message_of(self@),
    {
        match self {
            Error::Format(dump) => {
                let mut text = String::from_str(
                    "Expected an uncompressed numpy (.npy) file, but could not parse the header. The first hundred bytes look like:\n\n",
                );
                text.append(to_text(dump.as_slice()).as_str());
                text.append("\n\nAs bytes, the header is as follows:\n\n[");
                text.append(list_text(dump.as_slice()).as_str());
                text.append(
                    "]\n\nIt should look something like this example, where . are non-printable characters: .NUMPY..{'descr': '<f8', 'fortran_order': False, 'shape': (34,27)}\nOnly two-dimensional matrices of little-endian 64-bit floats in row-major order are supported.",
                );
                text
            },
            Error::SizeMismatch { rows, cols, actual } => {
                let mut text = String::from_str(
                    "The matrix file holds the wrong number of bytes for a ",
                );
                text.append(number_text(*rows).as_str());
                text.append("x");
                text.append(number_text(*cols).as_str());
                text.append(" matrix: 8 bytes are needed for each element, but there are ");
                text.append(number_text(*actual).as_str());
                text.append(" bytes.");
                text
            },
        }
    }

    /// Whether this is a complaint about the header.
    pub fn is_format(&self) -> (b: bool)
        ensures
            b == (self@ is Format),
    {
        match self {
            Error::Format(_) => true,
            Error::SizeMismatch { .. } => false,
        }
    }
}

} // verus!
