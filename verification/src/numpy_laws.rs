//! What holds of the matrix codec as a whole: which headers it takes, that it
//! reads back what it wrote, and that mapping a file and reading it agree.

use crate::decimal::{
    all_digits, decimal_text, digits_end, is_digit, lemma_decimal_round_trip, lemma_digits_end,
    parse_decimal,
};
use crate::errors::ErrorView;
use crate::numpy::{
    decode, descriptor, dictionary_start, dump_of, encode, expect_after, expect_at, gap,
    key_descr, key_order, key_shape, le16, lemma_descriptor_len, lemma_pieces, locate, magic,
    padding, parse_header, preamble, shape_close, shape_comma, shape_open, shape_start, skip_gap,
    spaces, spaces_end, val_descr, val_order, Header, MatrixModel, Region,
};
use vstd::prelude::*;
use vstd::string::*;

verus! {

/// The choices a header leaves open: the two bytes of the length field,
/// whether a space stands at each of the six places that allow one, the digits
/// of the two numbers, and how many spaces pad the dictionary.
pub struct Layout {
    pub field: Seq<u8>,
    pub after_descr: bool,
    pub after_dtype: bool,
    pub after_order: bool,
    pub after_false: bool,
    pub after_shape: bool,
    pub rows: Seq<u8>,
    pub after_comma: bool,
    pub cols: Seq<u8>,
    pub pad: nat,
}

/// One space or nothing.
pub open spec fn opt_gap(present: bool) -> Seq<u8> {
    if present {
        gap()
    } else {
        Seq::<u8>::empty()
    }
}

/// The header with the choices of `l`: always 64-bit little-endian floats,
/// always row-major, always exactly two numbers in the shape.
pub open spec fn header_of(l: Layout) -> Seq<u8> {
    magic() + l.field + key_descr() + opt_gap(l.after_descr) + val_descr() + opt_gap(
        l.after_dtype,
    ) + key_order() + opt_gap(l.after_order) + val_order() + opt_gap(l.after_false) + key_shape()
        + opt_gap(l.after_shape) + shape_open() + l.rows + shape_comma() + opt_gap(l.after_comma)
        + l.cols + shape_close() + spaces(l.pad) + seq![10u8]
}

/// Whether the choices of `l` are ones a header can make: a length field of
/// two bytes, and numbers that are digits and fit the machine word.
pub open spec fn layout_ok(l: Layout) -> bool {
    &&& l.field.len() == 2
    &&& parse_decimal(l.rows) is Some
    &&& parse_decimal(l.cols) is Some
}

/// What a header with the choices of `l` says.
pub open spec fn header_meaning(l: Layout) -> Header {
    Header {
        rows: parse_decimal(l.rows).unwrap(),
        cols: parse_decimal(l.cols).unwrap(),
        offset: header_of(l).len() as usize,
    }
}

/// The layout that `preamble` writes.
pub open spec fn written_layout(rows: nat, cols: nat) -> Layout {
    let d = descriptor(rows, cols);
    Layout {
        field: le16((d.len() + padding(d.len()) + 1) as u16),
        after_descr: true,
        after_dtype: true,
        after_order: true,
        after_false: true,
        after_shape: true,
        rows: decimal_text(rows),
        after_comma: false,
        cols: decimal_text(cols),
        pad: padding(d.len()),
    }
}

proof fn lemma_first_bytes()
    ensures
        val_descr().len() > 0 && val_descr()[0] != 32,
        key_order().len() > 0 && key_order()[0] != 32,
        val_order().len() > 0 && val_order()[0] != 32,
        key_shape().len() > 0 && key_shape()[0] != 32,
        shape_open().len() > 0 && shape_open()[0] != 32,
{
    reveal_strlit("'<f8',");
    reveal_strlit("'fortran_order':");
    reveal_strlit("False,");
    reveal_strlit("'shape':");
    reveal_strlit("(");
    assert(vstd::string::is_ascii("'<f8',"));
    assert(vstd::string::is_ascii("'fortran_order':"));
    assert(vstd::string::is_ascii("False,"));
    assert(vstd::string::is_ascii("'shape':"));
    assert(vstd::string::is_ascii("("));
    vstd::string::is_ascii_spec_bytes("'<f8',");
    vstd::string::is_ascii_spec_bytes("'fortran_order':");
    vstd::string::is_ascii_spec_bytes("False,");
    vstd::string::is_ascii_spec_bytes("'shape':");
    vstd::string::is_ascii_spec_bytes("(");
}

proof fn lemma_stem(a: Seq<u8>, b: Seq<u8>, s: Seq<u8>)
    requires
        (a + b).is_prefix_of(s),
    ensures
        a.is_prefix_of(s),
        a.len() + b.len() <= s.len(),
        s.subrange(a.len() as int, (a.len() + b.len()) as int) == b,
        forall|i: int| 0 <= i < b.len() ==> s[a.len() + i] == b[i],
{
    let ab = a + b;
    assert(ab =~= s.subrange(0, ab.len() as int));
    assert forall|i: int| 0 <= i < b.len() implies s[a.len() + i] == b[i] by {
        assert(s[a.len() + i] == s.subrange(0, ab.len() as int)[a.len() + i]);
        assert(ab[a.len() + i] == b[i]);
    }
    assert(s.subrange(a.len() as int, (a.len() + b.len()) as int) =~= b);
    assert(a =~= s.subrange(0, a.len() as int)) by {
        assert forall|i: int| 0 <= i < a.len() implies a[i] == s[i] by {
            assert(s[i] == s.subrange(0, ab.len() as int)[i]);
            assert(ab[i] == a[i]);
        }
    }
}

proof fn lemma_expect_piece(s: Seq<u8>, a: Seq<u8>, lit: Seq<u8>)
    requires
        (a + lit).is_prefix_of(s),
    ensures
        expect_at(s, a.len() as int, lit) == Some((a.len() + lit.len()) as int),
        a.is_prefix_of(s),
{
    lemma_stem(a, lit, s);
}

proof fn lemma_gap_piece(s: Seq<u8>, a: Seq<u8>, present: bool, lit: Seq<u8>)
    requires
        (a + opt_gap(present) + lit).is_prefix_of(s),
        lit.len() > 0,
        lit[0] != 32,
    ensures
        expect_after(s, Some(a.len() as int), lit) == Some(
            (a + opt_gap(present) + lit).len() as int,
        ),
        a.is_prefix_of(s),
{
    let g = opt_gap(present);
    lemma_stem(a + g, lit, s);
    lemma_stem(a, g, s);
    if present {
        assert(s[a.len() as int] == g[0]);
    } else {
        assert(s[(a + g).len() as int] == lit[0]);
    }
}

proof fn lemma_gap_then(s: Seq<u8>, a: Seq<u8>, present: bool)
    requires
        (a + opt_gap(present)).is_prefix_of(s),
        (a + opt_gap(present)).len() < s.len(),
        s[(a + opt_gap(present)).len() as int] != 32,
    ensures
        skip_gap(s, a.len() as int) == (a + opt_gap(present)).len(),
        a.is_prefix_of(s),
{
    let g = opt_gap(present);
    lemma_stem(a, g, s);
    if present {
        assert(s[a.len() as int] == g[0]);
    }
}

proof fn lemma_digits_run(s: Seq<u8>, at: int, end: int)
    requires
        0 <= at <= end <= s.len(),
        forall|i: int| at <= i < end ==> is_digit(s[i]),
        end < s.len() ==> !is_digit(s[end]),
    ensures
        digits_end(s, at) == end,
    decreases end - at,
{
    if at < end {
        lemma_digits_run(s, at + 1, end);
    }
}

proof fn lemma_digits_piece(s: Seq<u8>, a: Seq<u8>, d: Seq<u8>)
    requires
        (a + d).is_prefix_of(s),
        all_digits(d),
        (a + d).len() < s.len() ==> !is_digit(s[(a + d).len() as int]),
    ensures
        digits_end(s, a.len() as int) == a.len() + d.len(),
        s.subrange(a.len() as int, (a.len() + d.len()) as int) == d,
        a.is_prefix_of(s),
{
    lemma_stem(a, d, s);
    assert forall|i: int| a.len() <= i < a.len() + d.len() implies is_digit(s[i]) by {
        assert(s[a.len() + (i - a.len())] == d[i - a.len()]);
    }
    lemma_digits_run(s, a.len() as int, (a.len() + d.len()) as int);
}

proof fn lemma_spaces_run(s: Seq<u8>, at: int, end: int)
    requires
        0 <= at <= end <= s.len(),
        forall|i: int| at <= i < end ==> s[i] == 32,
        end < s.len() ==> s[end] != 32,
    ensures
        spaces_end(s, at) == end,
    decreases end - at,
{
    if at < end {
        lemma_spaces_run(s, at + 1, end);
    }
}

proof fn lemma_spaces_piece(s: Seq<u8>, a: Seq<u8>, n: nat)
    requires
        (a + spaces(n)).is_prefix_of(s),
        (a + spaces(n)).len() < s.len() ==> s[(a + spaces(n)).len() as int] != 32,
    ensures
        spaces_end(s, a.len() as int) == a.len() + n,
        a.is_prefix_of(s),
{
    lemma_stem(a, spaces(n), s);
    assert forall|i: int| a.len() <= i < a.len() + n implies s[i] == 32 by {
        assert(s[a.len() + (i - a.len())] == spaces(n)[i - a.len()]);
    }
    lemma_spaces_run(s, a.len() as int, (a.len() + n) as int);
}

/// Every header of the family is taken, whatever follows it, and means what
/// its numbers spell.
pub proof fn lemma_layout_accepted(l: Layout, s: Seq<u8>)
    requires
        layout_ok(l),
        header_of(l).is_prefix_of(s),
        header_of(l).len() <= usize::MAX,
    ensures
        parse_header(s) == Some(header_meaning(l)),
{
    lemma_pieces();
    let h6 = stem_shape(l);
    let h7 = h6 + l.rows;
    let h8 = h7 + shape_comma();
    let h9 = h8 + opt_gap(l.after_comma);
    let h10 = h9 + l.cols;
    let h11 = h10 + shape_close();
    let h12 = h11 + spaces(l.pad);
    let h13 = h12 + seq![10u8];
    assert(h13 == header_of(l));
    // from the end of the header back to its start, each stem is a prefix of `s`
    lemma_expect_piece(s, h12, seq![10u8]);
    lemma_stem(h12, seq![10u8], s);
    assert(s[h12.len() as int] == seq![10u8][0]);
    lemma_spaces_piece(s, h11, l.pad);
    lemma_expect_piece(s, h10, shape_close());
    lemma_stem(h10, shape_close(), s);
    assert(s[h10.len() as int] == shape_close()[0]);
    lemma_digits_piece(s, h9, l.cols);
    lemma_stem(h9, l.cols, s);
    assert(s[h9.len() as int] == l.cols[0]);
    lemma_gap_then(s, h8, l.after_comma);
    lemma_expect_piece(s, h7, shape_comma());
    lemma_stem(h7, shape_comma(), s);
    assert(s[h7.len() as int] == shape_comma()[0]);
    lemma_digits_piece(s, h6, l.rows);
    lemma_shape_opened(l, s);
}

proof fn lemma_spaces_end(s: Seq<u8>, at: int)
    requires
        0 <= at <= s.len(),
    ensures
        at <= spaces_end(s, at) <= s.len(),
        s.subrange(at, spaces_end(s, at)) =~= spaces((spaces_end(s, at) - at) as nat),
    decreases s.len() - at,
{
    if at < s.len() && s[at] == 32 {
        lemma_spaces_end(s, at + 1);
        let e = spaces_end(s, at);
        assert forall|i: int| 0 <= i < e - at implies s.subrange(at, e)[i] == 32 by {
            if i > 0 {
                assert(s.subrange(at, e)[i] == s.subrange(at + 1, e)[i - 1]);
                assert(spaces((e - at - 1) as nat)[i - 1] == 32);
            }
        }
    }
}

proof fn lemma_join(s: Seq<u8>, a: int, b: int)
    requires
        0 <= a <= b <= s.len(),
    ensures
        s.subrange(0, b) == s.subrange(0, a) + s.subrange(a, b),
{
    assert(s.subrange(0, b) =~= s.subrange(0, a) + s.subrange(a, b));
}

proof fn lemma_gap_found(s: Seq<u8>, at: int)
    requires
        0 <= at <= s.len(),
    ensures
        at <= skip_gap(s, at) <= s.len(),
        s.subrange(at, skip_gap(s, at)) == opt_gap(skip_gap(s, at) != at),
{
    assert(s.subrange(at, skip_gap(s, at)) =~= opt_gap(skip_gap(s, at) != at));
}

/// Every header that is taken belongs to the family: it names 64-bit
/// little-endian floats, row-major order and a shape of exactly two numbers,
/// and differs from what this codec writes in its spacing, its length field
/// and leading zeros at most.
pub proof fn lemma_accepted_layout(s: Seq<u8>) -> (l: Layout)
    requires
        parse_header(s) is Some,
        s.len() <= usize::MAX,
    ensures
        layout_ok(l),
        header_of(l).is_prefix_of(s),
        header_of(l).len() == parse_header(s).unwrap().offset,
        parse_header(s) == Some(header_meaning(l)),
{
    let stop0 = 10int;
    let stop1 = expect_at(s, stop0, key_descr()).unwrap();
    let q1 = skip_gap(s, stop1);
    let stop2 = expect_at(s, q1, val_descr()).unwrap();
    let q2 = skip_gap(s, stop2);
    let stop3 = expect_at(s, q2, key_order()).unwrap();
    let q3 = skip_gap(s, stop3);
    let stop4 = expect_at(s, q3, val_order()).unwrap();
    let q4 = skip_gap(s, stop4);
    let stop5 = expect_at(s, q4, key_shape()).unwrap();
    let q5 = skip_gap(s, stop5);
    let r0 = expect_at(s, q5, shape_open()).unwrap();
    assert(shape_start(s) == Some(r0));
    let r1 = digits_end(s, r0);
    lemma_digits_end(s, r0);
    let stop7 = expect_at(s, r1, shape_comma()).unwrap();
    let c0 = skip_gap(s, stop7);
    let c1 = digits_end(s, c0);
    lemma_digits_end(s, c0);
    let stop8 = expect_at(s, c1, shape_close()).unwrap();
    let q8 = spaces_end(s, stop8);
    lemma_spaces_end(s, stop8);
    let end = expect_at(s, q8, seq![10u8]).unwrap();
    let l = Layout {
        field: s.subrange(8, 10),
        after_descr: q1 != stop1,
        after_dtype: q2 != stop2,
        after_order: q3 != stop3,
        after_false: q4 != stop4,
        after_shape: q5 != stop5,
        rows: s.subrange(r0, r1),
        after_comma: c0 != stop7,
        cols: s.subrange(c0, c1),
        pad: (q8 - stop8) as nat,
    };
    lemma_join(s, 8, 10);
    lemma_join(s, stop0, stop1);
    lemma_gap_found(s, stop1);
    lemma_join(s, stop1, q1);
    lemma_join(s, q1, stop2);
    lemma_gap_found(s, stop2);
    lemma_join(s, stop2, q2);
    lemma_join(s, q2, stop3);
    lemma_gap_found(s, stop3);
    lemma_join(s, stop3, q3);
    lemma_join(s, q3, stop4);
    lemma_gap_found(s, stop4);
    lemma_join(s, stop4, q4);
    lemma_join(s, q4, stop5);
    lemma_gap_found(s, stop5);
    lemma_join(s, stop5, q5);
    lemma_join(s, q5, r0);
    lemma_join(s, r0, r1);
    lemma_join(s, r1, stop7);
    lemma_gap_found(s, stop7);
    lemma_join(s, stop7, c0);
    lemma_join(s, c0, c1);
    lemma_join(s, c1, stop8);
    lemma_join(s, stop8, q8);
    lemma_join(s, q8, end);
    assert(header_of(l) == s.subrange(0, end));
    l
}

proof fn lemma_regroup(a: Seq<u8>, b: Seq<u8>, c: Seq<u8>)
    ensures
        a + (b + c) == a + b + c,
{
    assert(a + (b + c) =~= a + b + c);
}

/// What `preamble` writes is the header of `written_layout`.
pub proof fn lemma_written_layout(rows: nat, cols: nat)
    ensures
        header_of(written_layout(rows, cols)) == preamble(rows, cols),
{
    let l = written_layout(rows, cols);
    let x = magic() + l.field;
    let g = gap();
    let d1 = key_descr();
    let d2 = d1 + g;
    let d3 = d2 + val_descr();
    let d4 = d3 + g;
    let d5 = d4 + key_order();
    let d6 = d5 + g;
    let d7 = d6 + val_order();
    let d8 = d7 + g;
    let d9 = d8 + key_shape();
    let d10 = d9 + g;
    let d11 = d10 + shape_open();
    let d12 = d11 + l.rows;
    let d13 = d12 + shape_comma();
    let d14 = d13 + l.cols;
    let d15 = d14 + shape_close();
    assert(d15 == descriptor(rows, cols));
    lemma_regroup(x, d1, g);
    lemma_regroup(x, d2, val_descr());
    lemma_regroup(x, d3, g);
    lemma_regroup(x, d4, key_order());
    lemma_regroup(x, d5, g);
    lemma_regroup(x, d6, val_order());
    lemma_regroup(x, d7, g);
    lemma_regroup(x, d8, key_shape());
    lemma_regroup(x, d9, g);
    lemma_regroup(x, d10, shape_open());
    lemma_regroup(x, d11, l.rows);
    lemma_regroup(x, d12, shape_comma());
    lemma_regroup(x, d13, l.cols);
    lemma_regroup(x, d14, shape_close());
    let y13 = x + d13;
    assert(y13 + opt_gap(false) =~= y13);
    assert(x + d15 == x + d1 + g + val_descr() + g + key_order() + g + val_order() + g
        + key_shape() + g + shape_open() + l.rows + shape_comma() + opt_gap(false) + l.cols
        + shape_close());
}

proof fn lemma_behind(a: Seq<u8>, b: Seq<u8>)
    ensures
        a.is_prefix_of(a + b),
        (a + b).skip(a.len() as int) == b,
        (a + b).len() == a.len() + b.len(),
{
    assert(a =~= (a + b).subrange(0, a.len() as int));
    assert((a + b).skip(a.len() as int) =~= b);
}

/// A header of the family with the right number of bytes behind it decodes
/// to the matrix of those bytes.
pub proof fn lemma_layout_decodes(l: Layout, p: Seq<u8>, data: Seq<u8>)
    requires
        layout_ok(l),
        header_of(l) == p,
        p.len() <= usize::MAX,
        data.len() == parse_decimal(l.rows).unwrap() * parse_decimal(l.cols).unwrap() * 8,
    ensures
        parse_header(p + data) == Some(header_meaning(l)),
        decode(p + data) == Ok::<MatrixModel, ErrorView>(
            MatrixModel {
                rows: parse_decimal(l.rows).unwrap() as nat,
                cols: parse_decimal(l.cols).unwrap() as nat,
                data: data,
            },
        ),
{
    lemma_behind(p, data);
    lemma_layout_accepted(l, p + data);
}

/// What was written is read back: decoding the file of a matrix gives that
/// matrix, shape and bytes.
pub proof fn lemma_round_trip(m: MatrixModel)
    requires
        m.rows <= usize::MAX,
        m.cols <= usize::MAX,
        m.data.len() == m.rows * m.cols * 8,
    ensures
        decode(encode(m)) == Ok::<MatrixModel, ErrorView>(m),
        parse_header(encode(m)) == Some(
            Header {
                rows: m.rows as usize,
                cols: m.cols as usize,
                offset: preamble(m.rows, m.cols).len() as usize,
            },
        ),
{
    let l = written_layout(m.rows, m.cols);
    let p = preamble(m.rows, m.cols);
    assert(parse_decimal(l.rows) == Some(m.rows as usize) && parse_decimal(l.cols) == Some(
        m.cols as usize,
    )) by {
        lemma_decimal_round_trip(m.rows);
        lemma_decimal_round_trip(m.cols);
    }
    assert(l.field.len() == 2);
    assert(p.len() <= 112) by {
        lemma_descriptor_len(m.rows, m.cols);
    }
    lemma_written_layout(m.rows, m.cols);
    lemma_layout_decodes(l, p, m.data);
}

/// A header that is taken is taken again, and means the same, with anything
/// appended to the data that holds it.
pub proof fn lemma_header_stable(head: Seq<u8>, s: Seq<u8>)
    requires
        head.is_prefix_of(s),
        parse_header(head) is Some,
        s.len() <= usize::MAX,
    ensures
        parse_header(s) == parse_header(head),
{
    let l = lemma_accepted_layout(head);
    let h = header_of(l);
    assert(h.is_prefix_of(s)) by {
        assert(h =~= head.subrange(0, h.len() as int));
        assert(head =~= s.subrange(0, head.len() as int));
        assert(h =~= s.subrange(0, h.len() as int));
    }
    lemma_layout_accepted(l, s);
}

/// Mapping and reading agree: where the first bytes of a file are enough to
/// find its region, the whole file decodes, to the same shape, and its
/// elements are the bytes of that region.
pub proof fn lemma_mapping_agrees(head: Seq<u8>, content: Seq<u8>)
    requires
        head.is_prefix_of(content),
        content.len() <= usize::MAX,
        locate(head, content.len() as usize) is Ok,
    ensures
        decode(content) is Ok,
        decode(content)->Ok_0.rows == locate(head, content.len() as usize)->Ok_0.rows,
        decode(content)->Ok_0.cols == locate(head, content.len() as usize)->Ok_0.cols,
        decode(content)->Ok_0.data == content.subrange(
            locate(head, content.len() as usize)->Ok_0.offset as int,
            locate(head, content.len() as usize)->Ok_0.offset + locate(
                head,
                content.len() as usize,
            )->Ok_0.len,
        ),
{
    lemma_header_stable(head, content);
    let r = locate(head, content.len() as usize)->Ok_0;
    assert(content.skip(r.offset as int) =~= content.subrange(r.offset as int, r.offset + r.len));
}

/// Reading and mapping turn the same files down for their header: where the
/// first bytes hold no header of the family (another element type, column-major
/// order, a shape of one number or of three), neither takes the file, and both
/// complain about the header.
pub proof fn lemma_rejected_alike(head: Seq<u8>, content: Seq<u8>)
    requires
        head.is_prefix_of(content),
        content.len() <= usize::MAX,
        forall|l: Layout| layout_ok(l) ==> !(#[trigger] header_of(l)).is_prefix_of(content),
    ensures
        decode(content) == Err::<MatrixModel, ErrorView>(ErrorView::Format(dump_of(content))),
        locate(head, content.len() as usize) == Err::<Region, ErrorView>(
            ErrorView::Format(dump_of(head)),
        ),
{
    if parse_header(content) is Some {
        let l = lemma_accepted_layout(content);
        assert(header_of(l).is_prefix_of(content));
    }
    if parse_header(head) is Some {
        lemma_header_stable(head, content);
    }
}

/// A header up to where it names the element type.
pub open spec fn stem_dtype(l: Layout) -> Seq<u8> {
    magic() + l.field + key_descr() + opt_gap(l.after_descr)
}

/// A header up to where it names the order.
pub open spec fn stem_order(l: Layout) -> Seq<u8> {
    stem_dtype(l) + val_descr() + opt_gap(l.after_dtype) + key_order() + opt_gap(l.after_order)
}

/// A header up to the first number of its shape.
pub open spec fn stem_shape(l: Layout) -> Seq<u8> {
    stem_order(l) + val_order() + opt_gap(l.after_false) + key_shape() + opt_gap(l.after_shape)
        + shape_open()
}

/// Whether what was found where `lit` is looked for is something else: it
/// does not start with `lit`, nor with a space that could be stepped over to
/// come to it.
pub open spec fn other_than(found: Seq<u8>, lit: Seq<u8>, after_gap: bool) -> bool {
    &&& !lit.is_prefix_of(found)
    &&& after_gap || found.len() == 0 || found[0] != 32
}

proof fn lemma_miss(s: Seq<u8>, a: Seq<u8>, present: bool, found: Seq<u8>, lit: Seq<u8>)
    requires
        s == a + opt_gap(present) + found,
        other_than(found, lit, present),
    ensures
        expect_after(s, Some(a.len() as int), lit) is None,
        (a + opt_gap(present)).is_prefix_of(s),
{
    let g = opt_gap(present);
    let ag = a + g;
    lemma_behind(ag, found);
    lemma_stem(a, g, s);
    if present {
        assert(s[a.len() as int] == g[0]);
    } else if found.len() > 0 {
        assert(s[ag.len() as int] == found[0]);
    }
    let at = skip_gap(s, a.len() as int);
    assert(at == ag.len());
    if at + lit.len() <= s.len() {
        assert(s.subrange(at, at + lit.len()) =~= found.subrange(0, lit.len() as int));
    }
}

/// A header that names another element type than little-endian 64-bit floats
/// is turned down, whatever else it says.
pub proof fn lemma_other_dtype_rejected(l: Layout, found: Seq<u8>)
    requires
        l.field.len() == 2,
        other_than(found, val_descr(), l.after_descr),
    ensures
        parse_header(stem_dtype(l) + found) is None,
{
    let h0 = magic() + l.field;
    let h1 = h0 + key_descr();
    let s = stem_dtype(l) + found;
    lemma_miss(s, h1, l.after_descr, found, val_descr());
}

/// A header that names another order than row-major, which it calls
/// `False`, is turned down, whatever else it says: so is every header that
/// says `True` there.
pub proof fn lemma_other_order_rejected(l: Layout, found: Seq<u8>)
    requires
        l.field.len() == 2,
        other_than(found, val_order(), l.after_order),
    ensures
        parse_header(stem_order(l) + found) is None,
{
    let h0 = magic() + l.field;
    let h1 = h0 + key_descr();
    let h2 = h1 + opt_gap(l.after_descr) + val_descr();
    let h3 = h2 + opt_gap(l.after_dtype) + key_order();
    let s = stem_order(l) + found;
    assert(stem_order(l) == h3 + opt_gap(l.after_order));
    lemma_first_bytes();
    lemma_miss(s, h3, l.after_order, found, val_order());
    lemma_stem(h3, opt_gap(l.after_order), s);
    lemma_gap_piece(s, h2, l.after_dtype, key_order());
    lemma_gap_piece(s, h1, l.after_descr, val_descr());
    lemma_expect_piece(s, h0, key_descr());
    lemma_stem(magic(), l.field, s);
    assert(s.subrange(0, 8) =~= magic());
}

/// `True,`, which a header in column-major order says, is something else
/// than `False,`.
pub proof fn lemma_true_is_other(rest: Seq<u8>, after_gap: bool)
    ensures
        other_than("True,".spec_bytes() + rest, val_order(), after_gap),
{
    reveal_strlit("True,");
    reveal_strlit("False,");
    assert(vstd::string::is_ascii("True,"));
    assert(vstd::string::is_ascii("False,"));
    vstd::string::is_ascii_spec_bytes("True,");
    vstd::string::is_ascii_spec_bytes("False,");
    let found = "True,".spec_bytes() + rest;
    assert(found[0] == 84);
    assert(val_order()[0] == 70);
    if val_order().is_prefix_of(found) {
        assert(val_order()[0] == found.subrange(0, val_order().len() as int)[0]);
    }
}

proof fn lemma_shape_opened(l: Layout, s: Seq<u8>)
    requires
        l.field.len() == 2,
        stem_shape(l).is_prefix_of(s),
    ensures
        shape_start(s) == Some(stem_shape(l).len() as int),
{
    let h0 = magic() + l.field;
    let h1 = h0 + key_descr();
    let h2 = h1 + opt_gap(l.after_descr) + val_descr();
    let h3 = h2 + opt_gap(l.after_dtype) + key_order();
    let h4 = h3 + opt_gap(l.after_order) + val_order();
    let h5 = h4 + opt_gap(l.after_false) + key_shape();
    let h6 = h5 + opt_gap(l.after_shape) + shape_open();
    assert(h6 == stem_shape(l));
    lemma_first_bytes();
    lemma_gap_piece(s, h5, l.after_shape, shape_open());
    lemma_gap_piece(s, h4, l.after_false, key_shape());
    lemma_gap_piece(s, h3, l.after_order, val_order());
    lemma_gap_piece(s, h2, l.after_dtype, key_order());
    lemma_gap_piece(s, h1, l.after_descr, val_descr());
    lemma_expect_piece(s, h0, key_descr());
    lemma_stem(magic(), l.field, s);
    assert(s.subrange(0, 8) =~= magic());
}

/// A header whose shape has one number is turned down: where no digit stands
/// behind the comma, there is no second number.
pub proof fn lemma_one_number_rejected(l: Layout, found: Seq<u8>)
    requires
        l.field.len() == 2,
        all_digits(l.rows),
        found.len() == 0 || !is_digit(found[0]),
        l.after_comma || found.len() == 0 || found[0] != 32,
    ensures
        parse_header(stem_shape(l) + l.rows + shape_comma() + opt_gap(l.after_comma) + found)
            is None,
{
    lemma_pieces();
    let h6 = stem_shape(l);
    let h7 = h6 + l.rows;
    let h8 = h7 + shape_comma();
    let h9 = h8 + opt_gap(l.after_comma);
    let s = h9 + found;
    lemma_behind(h9, found);
    lemma_stem(h8, opt_gap(l.after_comma), s);
    lemma_expect_piece(s, h7, shape_comma());
    lemma_stem(h7, shape_comma(), s);
    assert(s[h7.len() as int] == shape_comma()[0]);
    lemma_digits_piece(s, h6, l.rows);
    lemma_shape_opened(l, s);
    if l.after_comma {
        assert(s[h8.len() as int] == opt_gap(true)[0]);
    } else if found.len() > 0 {
        assert(s[h9.len() as int] == found[0]);
    }
    let c0 = skip_gap(s, h8.len() as int);
    assert(c0 == h9.len());
    if found.len() > 0 {
        assert(s[h9.len() as int] == found[0]);
    }
    assert(digits_end(s, c0) == c0);
    assert(s.subrange(c0, c0) =~= Seq::<u8>::empty());
}

/// A header whose shape has more than two numbers is turned down: where
/// something else than the closing brackets stands behind the second number,
/// the shape is not one of two numbers.
pub proof fn lemma_more_numbers_rejected(l: Layout, found: Seq<u8>)
    requires
        l.field.len() == 2,
        all_digits(l.rows),
        all_digits(l.cols),
        l.cols.len() > 0,
        found.len() == 0 || !is_digit(found[0]),
        !shape_close().is_prefix_of(found),
    ensures
        parse_header(
            stem_shape(l) + l.rows + shape_comma() + opt_gap(l.after_comma) + l.cols + found,
        ) is None,
{
    lemma_pieces();
    let h6 = stem_shape(l);
    let h7 = h6 + l.rows;
    let h8 = h7 + shape_comma();
    let h9 = h8 + opt_gap(l.after_comma);
    let h10 = h9 + l.cols;
    let s = h10 + found;
    lemma_behind(h10, found);
    if found.len() > 0 {
        assert(s[h10.len() as int] == found[0]);
    }
    lemma_digits_piece(s, h9, l.cols);
    lemma_stem(h9, l.cols, s);
    assert(s[h9.len() as int] == l.cols[0]);
    lemma_gap_then(s, h8, l.after_comma);
    lemma_expect_piece(s, h7, shape_comma());
    lemma_stem(h7, shape_comma(), s);
    assert(s[h7.len() as int] == shape_comma()[0]);
    lemma_digits_piece(s, h6, l.rows);
    lemma_shape_opened(l, s);
    let c1 = h10.len() as int;
    if c1 + shape_close().len() <= s.len() {
        assert(s.subrange(c1, c1 + shape_close().len()) =~= found.subrange(
            0,
            shape_close().len() as int,
        ));
    }
}

} // verus!
