//! Matrices of 64-bit floats as `.npy` files: the header, the payload behind
//! it, and the region of a file that a memory mapping has to cover.
//!
//! The codec never looks inside an element. A matrix is its shape and its
//! elements' bytes, eight per element, row after row, in the order in which
//! the machine holds them; what is written is what is read, bit for bit.

use crate::decimal::{
    decimal_text, digits_end, format_decimal, lemma_decimal_round_trip, lemma_decimal_text_len,
    parse_decimal, read_decimal, scan_digits,
};
use crate::errors::{Error, ErrorView};
use vstd::prelude::*;
use vstd::slice::{slice_subrange, slice_to_vec};
use vstd::string::*;

verus! {

/// The ASCII space, which pads a header.
pub const SPACE: u8 = 32;

/// The line feed that ends a header.
pub const NEWLINE: u8 = 10;

/// How many bytes of a file that was turned down are kept for the complaint.
pub const DUMP_LIMIT: usize = 100;

/// How many bytes from the start of a file are enough to find its header when
/// the file is to be mapped rather than read.
pub const HEAD_LIMIT: usize = 128;

/// The size of one element.
pub const ELEMENT: usize = 8;

/// The eight bytes every file starts with: the magic string and version 1.0.
pub open spec fn magic() -> Seq<u8> {
    seq![0x93u8, 78u8, 85u8, 77u8, 80u8, 89u8, 1u8, 0u8]
}

/// `{'descr':`
pub open spec fn key_descr() -> Seq<u8> {
    "{'descr':".spec_bytes()
}

/// `'<f8',`
pub open spec fn val_descr() -> Seq<u8> {
    "'<f8',".spec_bytes()
}

/// `'fortran_order':`
pub open spec fn key_order() -> Seq<u8> {
    "'fortran_order':".spec_bytes()
}

/// `False,`
pub open spec fn val_order() -> Seq<u8> {
    "False,".spec_bytes()
}

/// `'shape':`
pub open spec fn key_shape() -> Seq<u8> {
    "'shape':".spec_bytes()
}

/// `(`
pub open spec fn shape_open() -> Seq<u8> {
    "(".spec_bytes()
}

/// `,`
pub open spec fn shape_comma() -> Seq<u8> {
    ",".spec_bytes()
}

/// `)}`
pub open spec fn shape_close() -> Seq<u8> {
    ")}".spec_bytes()
}

/// One space.
pub open spec fn gap() -> Seq<u8> {
    seq![32u8]
}

/// `n` spaces.
pub open spec fn spaces(n: nat) -> Seq<u8> {
    Seq::new(n, |i: int| 32u8)
}

/// The two bytes of `n`, low byte first.
pub open spec fn le16(n: u16) -> Seq<u8> {
    seq![(n % 256) as u8, (n / 256) as u8]
}

/// The dictionary that describes a `rows` by `cols` matrix, as it is written.
pub open spec fn descriptor(rows: nat, cols: nat) -> Seq<u8> {
    key_descr() + gap() + val_descr() + gap() + key_order() + gap() + val_order() + gap()
        + key_shape() + gap() + shape_open() + decimal_text(rows) + shape_comma() + decimal_text(
        cols,
    ) + shape_close()
}

/// How many spaces follow a descriptor of `len` bytes, so that the header
/// (magic, version, length field, descriptor, padding, line feed) ends on a
/// multiple of sixteen.
pub open spec fn padding(len: nat) -> nat {
    ((16 - (len + 11) % 16) % 16) as nat
}

/// Everything that stands before the elements of a `rows` by `cols` matrix.
pub open spec fn preamble(rows: nat, cols: nat) -> Seq<u8> {
    let d = descriptor(rows, cols);
    magic() + le16((d.len() + padding(d.len()) + 1) as u16) + d + spaces(padding(d.len()))
        + seq![10u8]
}

/// A matrix as the codec sees it.
pub struct MatrixModel {
    pub rows: nat,
    pub cols: nat,
    pub data: Seq<u8>,
}

/// The file that holds `m`.
pub open spec fn encode(m: MatrixModel) -> Seq<u8> {
    preamble(m.rows, m.cols) + m.data
}

/// What a header says: the shape, and where the elements start.
#[derive(Debug, Clone, Copy, PartialEq, Eq)]
pub struct Header {
    pub rows: usize,
    pub cols: usize,
    pub offset: usize,
}

/// Where `lit` ends if it stands in `s` at `at`.
pub open spec fn expect_at(s: Seq<u8>, at: int, lit: Seq<u8>) -> Option<int> {
    if 0 <= at && at + lit.len() <= s.len() && s.subrange(at, at + lit.len()) == lit {
        Some(at + lit.len())
    } else {
        None
    }
}

/// `at`, moved over the space that stands there, if one does.
pub open spec fn skip_gap(s: Seq<u8>, at: int) -> int {
    if 0 <= at < s.len() && s[at] == 32 {
        at + 1
    } else {
        at
    }
}

/// The first index at or after `at` that holds no space.
pub open spec fn spaces_end(s: Seq<u8>, at: int) -> int
    decreases s.len() - at,
{
    if 0 <= at < s.len() && s[at] == 32 {
        spaces_end(s, at + 1)
    } else {
        at
    }
}

/// Where `lit` ends if it stands behind `at`, after at most one space.
pub open spec fn expect_after(s: Seq<u8>, at: Option<int>, lit: Seq<u8>) -> Option<int> {
    match at {
        Some(p) => expect_at(s, skip_gap(s, p), lit),
        None => None,
    }
}

/// Where the dictionary starts: behind the magic string, the version and the
/// two bytes of the length field, whatever those two hold.
pub open spec fn dictionary_start(s: Seq<u8>) -> Option<int> {
    if s.len() >= 10 && s.subrange(0, 8) == magic() {
        Some(10)
    } else {
        None
    }
}

/// Where the first number of the shape starts: behind a dictionary that names
/// 64-bit little-endian floats in row-major order, up to the bracket that
/// opens its shape.
pub open spec fn shape_start(s: Seq<u8>) -> Option<int> {
    let stop0 = dictionary_start(s);
    let stop1 = match stop0 {
        Some(p) => expect_at(s, p, key_descr()),
        None => None,
    };
    let stop2 = expect_after(s, stop1, val_descr());
    let stop3 = expect_after(s, stop2, key_order());
    let stop4 = expect_after(s, stop3, val_order());
    let stop5 = expect_after(s, stop4, key_shape());
    expect_after(s, stop5, shape_open())
}

/// The header that `s` starts with, if it starts with one that this codec
/// takes: two numbers in the shape, each a run of digits that fits the
/// machine word, then spaces up to a line feed.
pub open spec fn parse_header(s: Seq<u8>) -> Option<Header> {
    match shape_start(s) {
        None => None,
        Some(r0) => {
            let r1 = digits_end(s, r0);
            match expect_at(s, r1, shape_comma()) {
                None => None,
                Some(p) => {
                    let c0 = skip_gap(s, p);
                    let c1 = digits_end(s, c0);
                    match expect_at(s, c1, shape_close()) {
                        None => None,
                        Some(p) => match expect_at(s, spaces_end(s, p), seq![10u8]) {
                            None => None,
                            Some(end) => match (
                                parse_decimal(s.subrange(r0, r1)),
                                parse_decimal(s.subrange(c0, c1)),
                            ) {
                                (Some(rows), Some(cols)) => Some(
                                    Header { rows, cols, offset: end as usize },
                                ),
                                _ => None,
                            },
                        },
                    }
                },
            }
        },
    }
}

/// The bytes of `s` that go into a complaint about it.
pub open spec fn dump_of(s: Seq<u8>) -> Seq<u8> {
    if s.len() <= 100 {
        s
    } else {
        s.take(100)
    }
}

/// What the bytes of a whole file decode to.
pub open spec fn decode(s: Seq<u8>) -> Result<MatrixModel, ErrorView> {
    match parse_header(s) {
        None => Err(ErrorView::Format(dump_of(s))),
        Some(h) => if s.len() - h.offset == h.rows * h.cols * 8 {
            Ok(MatrixModel { rows: h.rows as nat, cols: h.cols as nat, data: s.skip(h.offset as int) })
        } else {
            Err(
                ErrorView::SizeMismatch {
                    rows: h.rows,
                    cols: h.cols,
                    actual: (s.len() - h.offset) as usize,
                },
            )
        },
    }
}

/// The part of a file that holds the elements, as a mapping has to cover it.
pub struct Region {
    pub rows: usize,
    pub cols: usize,
    pub offset: usize,
    pub len: usize,
}

/// What the first bytes of a file of `file_len` bytes say about the region to
/// map.
pub open spec fn locate(head: Seq<u8>, file_len: usize) -> Result<Region, ErrorView> {
    match parse_header(head) {
        None => Err(ErrorView::Format(dump_of(head))),
        Some(h) => if h.offset <= file_len && file_len - h.offset == h.rows * h.cols * 8 {
            Ok(
                Region {
                    rows: h.rows,
                    cols: h.cols,
                    offset: h.offset,
                    len: (file_len - h.offset) as usize,
                },
            )
        } else {
            Err(
                ErrorView::SizeMismatch {
                    rows: h.rows,
                    cols: h.cols,
                    actual: if h.offset <= file_len {
                        (file_len - h.offset) as usize
                    } else {
                        0
                    },
                },
            )
        },
    }
}

/// A matrix in memory: its shape and the bytes of its elements, eight per
/// element, row after row.
#[derive(Debug, PartialEq, Eq)]
pub struct Matrix {
    rows: usize,
    cols: usize,
    data: Vec<u8>,
}

impl View for Matrix {
    type V = MatrixModel;

    closed spec fn view(&self) -> MatrixModel {
        MatrixModel { rows: self.rows as nat, cols: self.cols as nat, data: self.data@ }
    }
}

impl Matrix {
    #[verifier::type_invariant]
    spec fn well_formed(&self) -> bool {
        self.data@.len() == self.rows * self.cols * 8
    }

    /// A matrix of the given shape over the given bytes, where there are
    /// exactly as many bytes as the shape has room for.
    pub fn new(rows: usize, cols: usize, data: Vec<u8>) -> (m: Option<Matrix>)
        ensures
            m is Some <==> data@.len() == rows * cols * 8,
            m is Some ==> m.unwrap()@ == (MatrixModel {
                rows: rows as nat,
                cols: cols as nat,
                data: data@,
            }),
    {
        if fits(rows, cols, data.len()) {
            Some(Matrix { rows, cols, data })
        } else {
            None
        }
    }

    /// The number of rows.
    pub fn rows(&self) -> (n: usize)
        ensures
            n == self@.rows,
    {
        self.rows
    }

    /// The number of columns.
    pub fn cols(&self) -> (n: usize)
        ensures
            n == self@.cols,
    {
        self.cols
    }

    /// The bytes of the elements.
    pub fn data(&self) -> (bytes: &Vec<u8>)
        ensures
            bytes@ == self@.data,
            bytes@.len() == self@.rows * self@.cols * 8,
    {
        proof {
            use_type_invariant(self);
        }
        &self.data
    }

    /// Gives the bytes of the elements up.
    pub fn into_data(self) -> (bytes: Vec<u8>)
        ensures
            bytes@ == self@.data,
            bytes@.len() == self@.rows * self@.cols * 8,
    {
        proof {
            use_type_invariant(&self);
        }
        self.data
    }
}

/// Whether `len` bytes are what a `rows` by `cols` matrix takes.
pub fn fits(rows: usize, cols: usize, len: usize) -> (b: bool)
    ensures
        b == (len == rows * cols * 8),
{
    match rows.checked_mul(cols) {
        None => {
            assert(rows * cols * 8 > usize::MAX) by (nonlinear_arith)
                requires
                    rows * cols > usize::MAX,
            ;
            false
        },
        Some(cells) => match cells.checked_mul(ELEMENT) {
            None => false,
            Some(bytes) => bytes == len,
        },
    }
}

/// Whether `lit` stands in `input` at `at`; if so, where it ends.
fn expect(input: &[u8], at: usize, lit: &[u8]) -> (end: Option<usize>)
    requires
        at <= input.len(),
    ensures
        match end {
            Some(e) => expect_at(input@, at as int, lit@) == Some(e as int),
            None => expect_at(input@, at as int, lit@) is None,
        },
{
    if lit.len() > input.len() - at {
        return None;
    }
    let mut i: usize = 0;
    while i < lit.len()
        invariant
            at + lit.len() <= input.len(),
            i <= lit.len(),
            input@.subrange(at as int, at + i) == lit@.subrange(0, i as int),
        decreases lit.len() - i,
    {
        if input[at + i] != lit[i] {
            assert(input@.subrange(at as int, at + lit.len())[i as int] != lit@[i as int]);
            return None;
        }
        assert(input@.subrange(at as int, at + i + 1) =~= input@.subrange(at as int, at + i).push(
            input@[at + i],
        ));
        assert(lit@.subrange(0, i + 1) =~= lit@.subrange(0, i as int).push(lit@[i as int]));
        i += 1;
    }
    assert(lit@.subrange(0, lit.len() as int) =~= lit@);
    Some(at + lit.len())
}

/// Steps over one space, if `at` holds one.
fn step_gap(input: &[u8], at: usize) -> (next: usize)
    requires
        at <= input.len(),
    ensures
        next == skip_gap(input@, at as int),
        at <= next <= input.len(),
{
    if at < input.len() && input[at] == SPACE {
        at + 1
    } else {
        at
    }
}

/// Steps over all the spaces from `at` on.
fn step_spaces(input: &[u8], at: usize) -> (next: usize)
    requires
        at <= input.len(),
    ensures
        next == spaces_end(input@, at as int),
        at <= next <= input.len(),
{
    let mut next: usize = at;
    while next < input.len() && input[next] == SPACE
        invariant
            at <= next <= input.len(),
            spaces_end(input@, at as int) == spaces_end(input@, next as int),
        decreases input.len() - next,
    {
        next += 1;
    }
    next
}

/// Whether `lit` stands behind `at`, after at most one space; if so, where it
/// ends. Nothing, where the search had failed before.
fn expect_next(input: &[u8], at: Option<usize>, lit: &[u8]) -> (end: Option<usize>)
    requires
        at is Some ==> at.unwrap() <= input.len(),
    ensures
        match end {
            Some(e) => at is Some && expect_after(input@, Some(at.unwrap() as int), lit@) == Some(
                e as int,
            ) && e <= input.len(),
            None => at is None || expect_after(input@, Some(at.unwrap() as int), lit@) is None,
        },
{
    match at {
        None => None,
        Some(p) => {
            let q = step_gap(input, p);
            expect(input, q, lit)
        },
    }
}

/// Whether `input` opens with the magic string and has room for the length
/// field behind it.
fn find_dictionary(input: &[u8]) -> (start: Option<usize>)
    ensures
        match start {
            Some(p) => dictionary_start(input@) == Some(p as int) && p <= input.len(),
            None => dictionary_start(input@) is None,
        },
{
    let signature: [u8; 8] = [0x93u8, 78u8, 85u8, 77u8, 80u8, 89u8, 1u8, 0u8];
    assert(signature@ =~= magic());
    if input.len() < 10 {
        return None;
    }
    match expect(input, 0, signature.as_slice()) {
        None => None,
        Some(_) => Some(10),
    }
}

/// Reads the header that `input` starts with.
pub fn read_header(input: &[u8]) -> (header: Option<Header>)
    ensures
        header == parse_header(input@),
        header is Some ==> header.unwrap().offset <= input.len(),
{
    let stop0 = find_dictionary(input);
    let stop1 = match stop0 {
        None => None,
        Some(p) => expect(input, p, "{'descr':".as_bytes()),
    };
    let stop2 = expect_next(input, stop1, "'<f8',".as_bytes());
    let stop3 = expect_next(input, stop2, "'fortran_order':".as_bytes());
    let stop4 = expect_next(input, stop3, "False,".as_bytes());
    let stop5 = expect_next(input, stop4, "'shape':".as_bytes());
    let stop6 = expect_next(input, stop5, "(".as_bytes());
    let r0 = match stop6 {
        None => {
            return None;
        },
        Some(p) => p,
    };
    let r1 = scan_digits(input, r0);
    let comma = expect(input, r1, ",".as_bytes());
    let c0 = match comma {
        None => {
            return None;
        },
        Some(p) => step_gap(input, p),
    };
    let c1 = scan_digits(input, c0);
    let close = match expect(input, c1, ")}".as_bytes()) {
        None => {
            return None;
        },
        Some(p) => step_spaces(input, p),
    };
    let line: [u8; 1] = [NEWLINE];
    assert(line@ =~= seq![10u8]);
    let end = match expect(input, close, line.as_slice()) {
        None => {
            return None;
        },
        Some(p) => p,
    };
    let rows = read_decimal(input, r0, r1);
    let cols = read_decimal(input, c0, c1);
    match (rows, cols) {
        (Some(rows), Some(cols)) => Some(Header { rows, cols, offset: end }),
        _ => None,
    }
}

/// The two bytes of `n`, low byte first, from `byteorder`'s
/// `LittleEndian::write_u16`: it stores `n` in little-endian order in the
/// first two bytes of the buffer it is given.
#[verifier::external_body]
fn u16_le(n: u16) -> (bytes: [u8; 2])
    ensures
        bytes@ == le16(n),
{
    let mut bytes = [0u8; 2];
    <byteorder::LittleEndian as byteorder::ByteOrder>::write_u16(&mut bytes, n);
    bytes
}

/// What the pieces of the dictionary hold.
pub proof fn lemma_pieces()
    ensures
        key_descr().len() == 9,
        val_descr().len() == 6,
        key_order().len() == 16,
        val_order().len() == 6,
        key_shape().len() == 8,
        shape_open().len() == 1,
        shape_comma() =~= seq![44u8],
        shape_close() =~= seq![41u8, 125u8],
{
    reveal_strlit("{'descr':");
    reveal_strlit("'<f8',");
    reveal_strlit("'fortran_order':");
    reveal_strlit("False,");
    reveal_strlit("'shape':");
    reveal_strlit("(");
    reveal_strlit(",");
    reveal_strlit(")}");
    assert(is_ascii("{'descr':"));
    assert(is_ascii("'<f8',"));
    assert(is_ascii("'fortran_order':"));
    assert(is_ascii("False,"));
    assert(is_ascii("'shape':"));
    assert(is_ascii("("));
    assert(is_ascii(","));
    assert(is_ascii(")}"));
    is_ascii_spec_bytes("{'descr':");
    is_ascii_spec_bytes("'<f8',");
    is_ascii_spec_bytes("'fortran_order':");
    is_ascii_spec_bytes("False,");
    is_ascii_spec_bytes("'shape':");
    is_ascii_spec_bytes("(");
    is_ascii_spec_bytes(",");
    is_ascii_spec_bytes(")}");
}

/// A descriptor is short: it fits the length field many times over.
pub proof fn lemma_descriptor_len(rows: nat, cols: nat)
    requires
        rows <= usize::MAX,
        cols <= usize::MAX,
    ensures
        descriptor(rows, cols).len() == 54 + decimal_text(rows).len() + decimal_text(cols).len(),
        56 <= descriptor(rows, cols).len() <= 94,
        preamble(rows, cols).len() == 11 + descriptor(rows, cols).len() + padding(
            descriptor(rows, cols).len(),
        ),
        preamble(rows, cols).len() % 16 == 0,
        preamble(rows, cols).len() <= 112,
{
    lemma_pieces();
    lemma_decimal_text_len(rows);
    lemma_decimal_text_len(cols);
    lemma_decimal_round_trip(rows);
    lemma_decimal_round_trip(cols);
}

/// Appends one space.
fn push_gap(text: &mut Vec<u8>)
    ensures
        final(text)@ == old(text)@ + gap(),
{
    text.push(SPACE);
    assert(text@ =~= old(text)@ + gap());
}

/// Writes the dictionary for a `rows` by `cols` matrix.
pub fn header_text(rows: usize, cols: usize) -> (text: Vec<u8>)
    ensures
        text@ == descriptor(rows as nat, cols as nat),
{
    let mut text: Vec<u8> = Vec::new();
    text.extend_from_slice("{'descr':".as_bytes());
    assert(text@ =~= key_descr());
    push_gap(&mut text);
    text.extend_from_slice("'<f8',".as_bytes());
    push_gap(&mut text);
    text.extend_from_slice("'fortran_order':".as_bytes());
    push_gap(&mut text);
    text.extend_from_slice("False,".as_bytes());
    push_gap(&mut text);
    text.extend_from_slice("'shape':".as_bytes());
    push_gap(&mut text);
    text.extend_from_slice("(".as_bytes());
    let r = format_decimal(rows);
    text.extend_from_slice(r.as_slice());
    text.extend_from_slice(",".as_bytes());
    let c = format_decimal(cols);
    text.extend_from_slice(c.as_slice());
    text.extend_from_slice(")}".as_bytes());
    text
}

/// Writes everything that stands before the elements of a `rows` by `cols`
/// matrix. Its length is a multiple of sixteen.
pub fn header_bytes(rows: usize, cols: usize) -> (bytes: Vec<u8>)
    ensures
        bytes@ == preamble(rows as nat, cols as nat),
        bytes@.len() % 16 == 0,
        32 <= bytes@.len() <= 112,
{
    let text = header_text(rows, cols);
    proof {
        lemma_descriptor_len(rows as nat, cols as nat);
    }
    let pad: usize = (16 - (text.len() + 11) % 16) % 16;
    let field: usize = text.len() + pad + 1;
    let signature: [u8; 8] = [0x93u8, 78u8, 85u8, 77u8, 80u8, 89u8, 1u8, 0u8];
    assert(signature@ =~= magic());
    let mut bytes: Vec<u8> = Vec::new();
    bytes.extend_from_slice(signature.as_slice());
    assert(bytes@ =~= magic());
    let length = u16_le(field as u16);
    bytes.extend_from_slice(length.as_slice());
    bytes.extend_from_slice(text.as_slice());
    let ghost stem = bytes@;
    let mut i: usize = 0;
    while i < pad
        invariant
            i <= pad,
            bytes@ == stem + spaces(i as nat),
        decreases pad - i,
    {
        bytes.push(SPACE);
        assert(bytes@ =~= stem + spaces((i + 1) as nat));
        i += 1;
    }
    bytes.push(NEWLINE);
    assert(bytes@ =~= stem + spaces(pad as nat) + seq![10u8]);
    bytes
}

/// The bytes of the file that holds `matrix`: the header, then the elements
/// as they are.
pub fn write_matrix(matrix: &Matrix) -> (bytes: Vec<u8>)
    ensures
        bytes@ == encode(matrix@),
{
    let mut bytes = header_bytes(matrix.rows, matrix.cols);
    bytes.extend_from_slice(matrix.data.as_slice());
    bytes
}

/// Copies out the bytes of `input` that go into a complaint about it.
fn dump(input: &[u8]) -> (bytes: Vec<u8>)
    ensures
        bytes@ == dump_of(input@),
{
    if input.len() <= DUMP_LIMIT {
        let bytes = slice_to_vec(input);
        bytes
    } else {
        let bytes = slice_to_vec(slice_subrange(input, 0, DUMP_LIMIT));
        bytes
    }
}

/// Decodes a whole file. The elements are the bytes behind the header, kept
/// as they are; they have to be exactly as many as the shape calls for.
pub fn read_matrix(content: Vec<u8>) -> (matrix: Result<Matrix, Error>)
    ensures
        match matrix {
            Ok(m) => decode(content@) == Ok::<MatrixModel, ErrorView>(m@),
            Err(e) => decode(content@) == Err::<MatrixModel, ErrorView>(e@),
        },
{
    let mut content = content;
    let ghost whole = content@;
    match read_header(content.as_slice()) {
        None => Err(Error::Format(dump(content.as_slice()))),
        Some(h) => {
            let actual = content.len() - h.offset;
            if fits(h.rows, h.cols, actual) {
                let data = content.split_off(h.offset);
                assert(data@ =~= whole.skip(h.offset as int));
                Ok(Matrix { rows: h.rows, cols: h.cols, data })
            } else {
                Err(Error::SizeMismatch { rows: h.rows, cols: h.cols, actual })
            }
        },
    }
}

/// An open matrix file: its shape, and the part of the file that holds the
/// elements and is to be mapped.
#[derive(Debug, PartialEq, Eq)]
pub struct MatFile {
    rows: usize,
    cols: usize,
    offset: usize,
    len: usize,
}

impl View for MatFile {
    type V = Region;

    closed spec fn view(&self) -> Region {
        Region { rows: self.rows, cols: self.cols, offset: self.offset, len: self.len }
    }
}

impl MatFile {
    #[verifier::type_invariant]
    spec fn well_formed(&self) -> bool {
        &&& self.len == self.rows * self.cols * 8
        &&& self.offset + self.len <= usize::MAX
    }

    /// The number of rows.
    pub fn rows(&self) -> (n: usize)
        ensures
            n == self@.rows,
    {
        self.rows
    }

    /// The number of columns.
    pub fn cols(&self) -> (n: usize)
        ensures
            n == self@.cols,
    {
        self.cols
    }

    /// Where in the file the elements start.
    pub fn offset(&self) -> (n: usize)
        ensures
            n == self@.offset,
            n + self@.len <= usize::MAX,
    {
        proof {
            use_type_invariant(self);
        }
        self.offset
    }

    /// How many bytes the elements take.
    pub fn len(&self) -> (n: usize)
        ensures
            n == self@.len,
            n == self@.rows * self@.cols * 8,
    {
        proof {
            use_type_invariant(self);
        }
        self.len
    }
}

/// Finds the region to map in a file of `file_len` bytes that starts with
/// `head`. The header has to lie within `head`, and the file has to end where
/// the elements do.
pub fn open_matrix_mmap(head: &[u8], file_len: usize) -> (file: Result<MatFile, Error>)
    ensures
        match file {
            Ok(f) => locate(head@, file_len) == Ok::<Region, ErrorView>(f@),
            Err(e) => locate(head@, file_len) == Err::<Region, ErrorView>(e@),
        },
{
    match read_header(head) {
        None => Err(Error::Format(dump(head))),
        Some(h) => {
            if h.offset <= file_len {
                let actual = file_len - h.offset;
                if fits(h.rows, h.cols, actual) {
                    Ok(MatFile { rows: h.rows, cols: h.cols, offset: h.offset, len: actual })
                } else {
                    Err(Error::SizeMismatch { rows: h.rows, cols: h.cols, actual })
                }
            } else {
                Err(Error::SizeMismatch { rows: h.rows, cols: h.cols, actual: 0 })
            }
        },
    }
}

/// A mapped region seen as a matrix: a shape, and the promise that the region
/// holds exactly the bytes of that shape, so that every element and every run
/// of rows lies within it.
#[derive(Debug, Clone, Copy, PartialEq, Eq)]
pub struct MatView {
    rows: usize,
    cols: usize,
}

/// The shape of a view.
pub struct Shape {
    pub rows: usize,
    pub cols: usize,
}

impl View for MatView {
    type V = Shape;

    closed spec fn view(&self) -> Shape {
        Shape { rows: self.rows, cols: self.cols }
    }
}

impl MatView {
    #[verifier::type_invariant]
    spec fn well_formed(&self) -> bool {
        self.rows * self.cols * 8 <= usize::MAX
    }

    /// The number of rows.
    pub fn rows(&self) -> (n: usize)
        ensures
            n == self@.rows,
    {
        self.rows
    }

    /// The number of columns.
    pub fn cols(&self) -> (n: usize)
        ensures
            n == self@.cols,
    {
        self.cols
    }

    /// How many bytes the region has.
    pub fn len(&self) -> (n: usize)
        ensures
            n == self@.rows * self@.cols * 8,
    {
        proof {
            use_type_invariant(self);
            lemma_cells(self.rows as int, self.cols as int, self.rows as int);
        }
        self.rows * self.cols * ELEMENT
    }

    /// Where in the region the element of row `row` and column `col` starts:
    /// its eight bytes lie wholly within the region. Nothing, where the matrix
    /// has no such element.
    pub fn cell(&self, row: usize, col: usize) -> (at: Option<usize>)
        ensures
            at is Some <==> row < self@.rows && col < self@.cols,
            at is Some ==> at.unwrap() == (row * self@.cols + col) * 8 && at.unwrap() + 8
                <= self@.rows * self@.cols * 8,
    {
        if row < self.rows && col < self.cols {
            proof {
                use_type_invariant(self);
                lemma_cells(self.rows as int, self.cols as int, row as int);
                lemma_cells(self.rows as int, self.cols as int, row as int + 1);
            }
            Some((row * self.cols + col) * ELEMENT)
        } else {
            None
        }
    }

    /// The bytes of the region that hold the `count` rows from `first` on, as
    /// a start and an end. Nothing, where the matrix has no such rows.
    pub fn band(&self, first: usize, count: usize) -> (span: Option<(usize, usize)>)
        ensures
            span is Some <==> first + count <= self@.rows,
            span is Some ==> span.unwrap().0 == first * self@.cols * 8 && span.unwrap().1 == (first
                + count) * self@.cols * 8 && span.unwrap().0 <= span.unwrap().1 <= self@.rows
                * self@.cols * 8,
    {
        if first <= self.rows && count <= self.rows - first {
            proof {
                use_type_invariant(self);
                lemma_cells(self.rows as int, self.cols as int, first as int);
                lemma_cells(self.rows as int, self.cols as int, first + count);
                lemma_cells(first + count, self.cols as int, first as int);
            }
            Some((first * self.cols * ELEMENT, (first + count) * self.cols * ELEMENT))
        } else {
            None
        }
    }
}

/// The rows up to `row` take no more room than all `rows` of them.
proof fn lemma_cells(rows: int, cols: int, row: int)
    requires
        0 <= row <= rows,
        0 <= cols,
    ensures
        0 <= row * cols <= rows * cols,
        row * cols * 8 <= rows * cols * 8,
        row * cols * 8 == row * (cols * 8),
        row < rows ==> row * cols + cols == (row + 1) * cols,
{
    assert(0 <= row * cols <= rows * cols) by (nonlinear_arith)
        requires
            0 <= row <= rows,
            0 <= cols,
    ;
    assert(row * cols * 8 == row * (cols * 8)) by (nonlinear_arith);
    assert(row * cols + cols == (row + 1) * cols) by (nonlinear_arith);
}

/// Looks at a mapping of `mapped` bytes as the matrix that `file` describes.
/// The mapping has to be as long as the region that was asked for.
pub fn read_matrix_mmap(file: &MatFile, mapped: usize) -> (view: Result<MatView, Error>)
    ensures
        match view {
            Ok(v) => mapped == file@.len && v@ == (Shape { rows: file@.rows, cols: file@.cols }),
            Err(e) => mapped != file@.len && e@ == (ErrorView::SizeMismatch {
                rows: file@.rows,
                cols: file@.cols,
                actual: mapped,
            }),
        },
{
    proof {
        use_type_invariant(file);
    }
    if mapped == file.len {
        Ok(MatView { rows: file.rows, cols: file.cols })
    } else {
        Err(Error::SizeMismatch { rows: file.rows, cols: file.cols, actual: mapped })
    }
}

/// Lays out the file of a `rows` by `cols` matrix that is still to be filled:
/// the header to write at its start, and the region behind it, which is to be
/// zero-filled and mapped. Nothing, where no file can be that large.
pub fn create_empty_mmap(rows: usize, cols: usize) -> (plan: Option<(Vec<u8>, MatFile)>)
    ensures
        plan is Some <==> preamble(rows as nat, cols as nat).len() + rows * cols * 8
            <= usize::MAX,
        plan is Some ==> {
            let (header, file) = plan.unwrap();
            &&& header@ == preamble(rows as nat, cols as nat)
            &&& file@ == (Region {
                rows,
                cols,
                offset: header@.len() as usize,
                len: (rows * cols * 8) as usize,
            })
        },
{
    let header = header_bytes(rows, cols);
    let cells = match rows.checked_mul(cols) {
        None => {
            assert(rows * cols * 8 > usize::MAX) by (nonlinear_arith)
                requires
                    rows * cols > usize::MAX,
            ;
            return None;
        },
        Some(n) => n,
    };
    let len = match cells.checked_mul(ELEMENT) {
        None => {
            return None;
        },
        Some(n) => n,
    };
    if len > usize::MAX - header.len() {
        return None;
    }
    let offset = header.len();
    Some((header, MatFile { rows, cols, offset, len }))
}

} // verus!
