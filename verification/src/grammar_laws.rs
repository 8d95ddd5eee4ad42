//! What holds of the grammar of records when more input arrives: an answer
//! that is done or an error stays as it is, so that a record that was
//! recognised is the same record whatever follows it, and what was turned
//! down is not taken after all.

use crate::grammar::{
    blanks_end, block_lines, chained, colon, cr, declared_from, header_block, header_colon,
    header_length, header_line, header_name, header_value, in_class, init_line, is_blank, lesser,
    lf, more_headers, parse_complete, parse_record, record_length, record_payload, run_end,
    slash, tag_at, then_scan, then_space, then_tag, then_text, warc, Class, Parsed,
};
use crate::decimal::{decimal_text, lemma_decimal_round_trip};
use crate::grammar::{content_length, parse_length};
use crate::text::{all_ascii, lemma_ascii_decodes};
use vstd::prelude::*;
use vstd::string::*;

verus! {

/// Whether `s` is where `w` starts, and `w` is no longer than a machine word
/// can count.
pub open spec fn extends(s: Seq<u8>, w: Seq<u8>) -> bool {
    &&& s.len() <= w.len() <= usize::MAX
    &&& forall|i: int| 0 <= i < s.len() ==> s[i] == w[i]
}

/// Whether an answer on less input settles the answer on more: done and
/// error stay.
pub open spec fn settles(less: Parsed, more: Parsed) -> bool {
    less is Done || less is Error ==> more == less
}

/// Whether an answer on `len` bytes of input half settles the answer on
/// more: an error stays, and so does done before the end of the input.
pub open spec fn half_settles(less: Parsed, more: Parsed, len: int) -> bool {
    &&& less is Error ==> more is Error
    &&& less matches Parsed::Done(p) ==> p < len ==> more == less
}

/// Whether a chain's answer, if it is done, lies between `base` and `len`.
pub open spec fn inside(r: Parsed, base: int, len: int) -> bool {
    r matches Parsed::Done(p) ==> base <= p <= len
}

proof fn lemma_same_bytes(s: Seq<u8>, w: Seq<u8>, from: int, to: int)
    requires
        extends(s, w),
        0 <= from <= to <= s.len(),
    ensures
        s.subrange(from, to) == w.subrange(from, to),
{
    assert(s.subrange(from, to) =~= w.subrange(from, to));
}

proof fn lemma_tag_settles(s: Seq<u8>, w: Seq<u8>, at: int, lit: Seq<u8>)
    requires
        extends(s, w),
        0 <= at <= s.len(),
    ensures
        settles(tag_at(s, at, lit), tag_at(w, at, lit)),
        inside(tag_at(s, at, lit), at, s.len() as int),
        lit.len() > 0 && at == s.len() ==> tag_at(s, at, lit) is Incomplete,
{
    let ms = lesser(s.len() - at, lit.len() as int);
    let mw = lesser(w.len() - at, lit.len() as int);
    if s.subrange(at, at + ms) != lit.subrange(0, ms) {
        let i = choose|i: int|
            0 <= i < ms && s.subrange(at, at + ms)[i] != lit.subrange(0, ms)[i];
        assert(s.subrange(at, at + ms) =~= lit.subrange(0, ms) || (exists|i: int|
            0 <= i < ms && s.subrange(at, at + ms)[i] != lit.subrange(0, ms)[i]));
        assert(w.subrange(at, at + mw)[i] != lit.subrange(0, mw)[i]);
    } else if ms == lit.len() {
        lemma_same_bytes(s, w, at, at + ms);
    }
    if lit.len() > 0 && at == s.len() {
        assert(s.subrange(at, at + 0) =~= lit.subrange(0, 0));
    }
}

proof fn lemma_blanks(s: Seq<u8>, w: Seq<u8>, at: int)
    requires
        extends(s, w),
        0 <= at <= s.len(),
    ensures
        at <= blanks_end(s, at) <= s.len(),
        blanks_end(s, at) < s.len() ==> blanks_end(w, at) == blanks_end(s, at),
    decreases s.len() - at,
{
    if at < s.len() && is_blank(s[at]) {
        lemma_blanks(s, w, at + 1);
    }
}

proof fn lemma_run(s: Seq<u8>, w: Seq<u8>, at: int, class: Class)
    requires
        extends(s, w),
        0 <= at <= s.len(),
    ensures
        at <= run_end(s, at, class) <= s.len(),
        run_end(s, at, class) < s.len() ==> run_end(w, at, class) == run_end(s, at, class),
    decreases s.len() - at,
{
    if at < s.len() && in_class(class, s[at]) {
        lemma_run(s, w, at + 1, class);
    }
}

/// A literal behind a chain that is half settled settles the chain.
pub proof fn lemma_then_tag(
    s: Seq<u8>,
    w: Seq<u8>,
    base: int,
    less: Parsed,
    more: Parsed,
    lit: Seq<u8>,
    optional: bool,
)
    requires
        extends(s, w),
        0 <= base,
        lit.len() > 0,
        inside(less, base, s.len() as int),
        half_settles(less, more, s.len() as int),
    ensures
        settles(then_tag(s, base, less, lit, optional), then_tag(w, base, more, lit, optional)),
        inside(then_tag(s, base, less, lit, optional), base, s.len() as int),
        then_tag(s, base, less, lit, optional) is Done ==> less is Done && less->Done_0
            <= then_tag(s, base, less, lit, optional)->Done_0,
{
    if let Parsed::Done(at) = less {
        lemma_tag_settles(s, w, at as int, lit);
    }
}

/// Spaces behind a chain that is half settled leave it half settled.
pub proof fn lemma_then_space(s: Seq<u8>, w: Seq<u8>, base: int, less: Parsed, more: Parsed)
    requires
        extends(s, w),
        0 <= base,
        inside(less, base, s.len() as int),
        half_settles(less, more, s.len() as int),
    ensures
        half_settles(then_space(s, base, less), then_space(w, base, more), s.len() as int),
        inside(then_space(s, base, less), base, s.len() as int),
        then_space(s, base, less) is Done ==> less is Done && less->Done_0 <= then_space(
            s,
            base,
            less,
        )->Done_0,
{
    if let Parsed::Done(at) = less {
        lemma_blanks(s, w, at as int);
    }
}

/// A run behind a chain that is half settled settles the chain.
pub proof fn lemma_then_scan(
    s: Seq<u8>,
    w: Seq<u8>,
    base: int,
    less: Parsed,
    more: Parsed,
    class: Class,
)
    requires
        extends(s, w),
        0 <= base,
        inside(less, base, s.len() as int),
        half_settles(less, more, s.len() as int),
    ensures
        settles(then_scan(s, base, less, class), then_scan(w, base, more, class)),
        inside(then_scan(s, base, less, class), base, s.len() as int - 1),
        then_scan(s, base, less, class) is Done ==> less is Done && less->Done_0 <= then_scan(
            s,
            base,
            less,
            class,
        )->Done_0,
{
    if let Parsed::Done(at) = less {
        lemma_run(s, w, at as int, class);
    }
}

/// A header's value behind a chain that is half settled settles the chain.
pub proof fn lemma_then_text(s: Seq<u8>, w: Seq<u8>, base: int, less: Parsed, more: Parsed)
    requires
        extends(s, w),
        0 <= base,
        inside(less, base, s.len() as int),
        half_settles(less, more, s.len() as int),
    ensures
        settles(then_text(s, base, less), then_text(w, base, more)),
        inside(then_text(s, base, less), base, s.len() as int - 1),
        then_text(s, base, less) is Done ==> less is Done && less->Done_0 <= then_text(
            s,
            base,
            less,
        )->Done_0,
{
    if let Parsed::Done(at) = less {
        lemma_run(s, w, at as int, Class::Value);
        let end = run_end(s, at as int, Class::Value);
        if end < s.len() {
            lemma_same_bytes(s, w, at as int, end);
        }
    }
}

proof fn lemma_pieces()
    ensures
        cr().len() > 0,
        lf().len() > 0,
        slash().len() > 0,
        colon().len() > 0,
        warc().len() > 0,
{
    reveal_strlit("WARC");
    assert(vstd::string::is_ascii("WARC"));
    vstd::string::is_ascii_spec_bytes("WARC");
}

/// A first line that is done or an error stays so with more input.
pub proof fn lemma_init_line(s: Seq<u8>, w: Seq<u8>, b: int)
    requires
        extends(s, w),
        0 <= b <= s.len(),
    ensures
        settles(init_line(s, b), init_line(w, b)),
        inside(init_line(s, b), b, s.len() as int),
{
    lemma_pieces();
    let r0 = Parsed::Done(b as usize);
    lemma_then_tag(s, w, b, r0, r0, cr(), true);
    let s1 = then_tag(s, b, r0, cr(), true);
    let w1 = then_tag(w, b, r0, cr(), true);
    lemma_then_tag(s, w, b, s1, w1, lf(), true);
    let s2 = then_tag(s, b, s1, lf(), true);
    let w2 = then_tag(w, b, w1, lf(), true);
    lemma_then_tag(s, w, b, s2, w2, warc(), false);
    let s3 = then_tag(s, b, s2, warc(), false);
    let w3 = then_tag(w, b, w2, warc(), false);
    lemma_then_tag(s, w, b, s3, w3, slash(), false);
    let s4 = then_tag(s, b, s3, slash(), false);
    let w4 = then_tag(w, b, w3, slash(), false);
    lemma_then_space(s, w, b, s4, w4);
    let s5 = then_space(s, b, s4);
    let w5 = then_space(w, b, w4);
    lemma_then_scan(s, w, b, s5, w5, Class::Version);
    let s6 = then_scan(s, b, s5, Class::Version);
    let w6 = then_scan(w, b, w5, Class::Version);
    lemma_then_tag(s, w, b, s6, w6, cr(), true);
    let s7 = then_tag(s, b, s6, cr(), true);
    let w7 = then_tag(w, b, w6, cr(), true);
    lemma_then_tag(s, w, b, s7, w7, lf(), false);
}

/// A header line that is done or an error stays so with more input, and
/// where it is done, so do its name, its value and the length it declares.
pub proof fn lemma_header_line(s: Seq<u8>, w: Seq<u8>, b: int)
    requires
        extends(s, w),
        0 <= b <= s.len(),
    ensures
        settles(header_line(s, b), header_line(w, b)),
        inside(header_line(s, b), b + 1, s.len() as int),
        header_line(s, b) is Done ==> {
            &&& header_name(w, b) == header_name(s, b)
            &&& header_colon(w, b) == header_colon(s, b)
            &&& header_value(w, b) == header_value(s, b)
            &&& header_length(w, b) == header_length(s, b)
        },
{
    lemma_pieces();
    let r0 = Parsed::Done(b as usize);
    lemma_then_scan(s, w, b, r0, r0, Class::Token);
    let s1 = header_name(s, b);
    let w1 = header_name(w, b);
    lemma_then_space(s, w, b, s1, w1);
    let s2 = then_space(s, b, s1);
    let w2 = then_space(w, b, w1);
    lemma_then_tag(s, w, b, s2, w2, colon(), false);
    let s3 = then_tag(s, b, s2, colon(), false);
    let w3 = then_tag(w, b, w2, colon(), false);
    lemma_then_space(s, w, b, s3, w3);
    let s4 = header_colon(s, b);
    let w4 = header_colon(w, b);
    lemma_then_text(s, w, b, s4, w4);
    let s5 = header_value(s, b);
    let w5 = header_value(w, b);
    lemma_then_tag(s, w, b, s5, w5, cr(), true);
    let s6 = then_tag(s, b, s5, cr(), true);
    let w6 = then_tag(w, b, w5, cr(), true);
    lemma_then_tag(s, w, b, s6, w6, lf(), false);
    if header_line(s, b) is Done {
        let name = s1->Done_0 as int;
        let start = s4->Done_0 as int;
        let end = s5->Done_0 as int;
        lemma_same_bytes(s, w, b, name);
        lemma_same_bytes(s, w, start, end);
    }
}

/// The header lines after the first, where they end before the end of the
/// input, end at the same place with more input, and declare the same length.
pub proof fn lemma_more_headers(s: Seq<u8>, w: Seq<u8>, base: int, at: int)
    requires
        extends(s, w),
        0 <= base <= at <= s.len(),
    ensures
        half_settles(more_headers(s, base, at), more_headers(w, base, at), s.len() as int),
        inside(more_headers(s, base, at), at, s.len() as int),
        !(more_headers(s, base, at) is Error),
        more_headers(s, base, at) matches Parsed::Done(p) ==> p < s.len() ==> declared_from(
            w,
            at,
        ) == declared_from(s, at),
    decreases s.len() - at,
{
    if at < s.len() {
        lemma_header_line(s, w, at);
        match header_line(s, at) {
            Parsed::Done(p) => {
                if p > at {
                    lemma_more_headers(s, w, base, p as int);
                }
            },
            _ => {},
        }
    }
}

/// A header block that is done or an error stays so with more input, and
/// where it is done, it declares the same length.
pub proof fn lemma_header_block(s: Seq<u8>, w: Seq<u8>)
    requires
        extends(s, w),
    ensures
        settles(header_block(s, 0), header_block(w, 0)),
        inside(header_block(s, 0), 0, s.len() as int),
        header_block(s, 0) is Done ==> record_length(w) == record_length(s),
{
    lemma_pieces();
    lemma_init_line(s, w, 0);
    let (sl, wl) = (block_lines(s, 0), block_lines(w, 0));
    match init_line(s, 0) {
        Parsed::Done(p) => {
            lemma_header_line(s, w, p as int);
            match header_line(s, p as int) {
                Parsed::Done(q) => {
                    lemma_more_headers(s, w, p as int, q as int);
                },
                _ => {},
            }
            assert(half_settles(sl, wl, s.len() as int));
            assert(inside(sl, 0, s.len() as int));
        },
        _ => {},
    }
    lemma_then_tag(s, w, 0, sl, wl, cr(), true);
    let s1 = then_tag(s, 0, sl, cr(), true);
    let w1 = then_tag(w, 0, wl, cr(), true);
    lemma_then_tag(s, w, 0, s1, w1, lf(), false);
}

/// A record that is done or an error stays so with more input, and where it
/// is done, it has the same payload.
pub proof fn lemma_record(s: Seq<u8>, w: Seq<u8>)
    requires
        extends(s, w),
    ensures
        settles(parse_record(s), parse_record(w)),
        inside(parse_record(s), 0, s.len() as int),
        parse_record(s) is Done ==> record_payload(w) == record_payload(s),
{
    lemma_header_block(s, w);
    if let Parsed::Done(end) = parse_record(s) {
        let from = header_block(s, 0)->Done_0 as int;
        lemma_same_bytes(s, w, from, end as int);
    }
}

/// Done and error are final: a whole record that was recognised in some
/// input is recognised in every input that starts with it, ends at the same
/// place there and has the same payload; and input that was turned down is
/// turned down however it goes on.
pub proof fn lemma_final(s: Seq<u8>, w: Seq<u8>)
    requires
        extends(s, w),
    ensures
        settles(parse_complete(s), parse_complete(w)),
        inside(parse_complete(s), 1, s.len() as int),
        parse_complete(s) is Done ==> record_payload(w) == record_payload(s),
{
    reveal(parse_complete);
    lemma_pieces();
    lemma_record(s, w);
    let s0 = chained(0, 0, parse_record(s), false);
    let w0 = chained(0, 0, parse_record(w), false);
    lemma_then_tag(s, w, 0, s0, w0, cr(), true);
    let s1 = then_tag(s, 0, s0, cr(), true);
    let w1 = then_tag(w, 0, w0, cr(), true);
    lemma_then_tag(s, w, 0, s1, w1, lf(), false);
    let s2 = then_tag(s, 0, s1, lf(), false);
    let w2 = then_tag(w, 0, w1, lf(), false);
    lemma_then_tag(s, w, 0, s2, w2, cr(), true);
    let s3 = then_tag(s, 0, s2, cr(), true);
    let w3 = then_tag(w, 0, w2, cr(), true);
    lemma_then_tag(s, w, 0, s3, w3, lf(), false);
    if let Parsed::Done(at) = s3 {
        lemma_tag_settles(s, w, at as int, lf());
    }
}

/// What starts with a byte that no record starts with is no record: not a
/// carriage return, not a line feed, and not a `W`, or a `W` with another
/// byte than `A` behind it.
pub proof fn lemma_garbage(s: Seq<u8>)
    requires
        s.len() >= 1,
        s[0] != 13,
        s[0] != 10,
        s[0] != 87 || (s.len() >= 2 && s[1] != 65),
    ensures
        parse_complete(s) == Parsed::Error,
{
    reveal(parse_complete);
    reveal_strlit("WARC");
    assert(vstd::string::is_ascii("WARC"));
    vstd::string::is_ascii_spec_bytes("WARC");
    assert(tag_at(s, 0, cr()) == Parsed::Error) by {
        assert(s.subrange(0, 1)[0] != cr().subrange(0, 1)[0]);
    }
    assert(tag_at(s, 0, lf()) == Parsed::Error) by {
        assert(s.subrange(0, 1)[0] != lf().subrange(0, 1)[0]);
    }
    assert(tag_at(s, 0, warc()) == Parsed::Error) by {
        let m = lesser(s.len() as int, 4);
        if s[0] != 87 {
            assert(s.subrange(0, m)[0] != warc().subrange(0, m)[0]);
        } else {
            assert(s.subrange(0, m)[1] != warc().subrange(0, m)[1]);
        }
    }
    assert(init_line(s, 0) == Parsed::Error);
    assert(block_lines(s, 0) == Parsed::Error);
    assert(header_block(s, 0) == Parsed::Error);
    assert(parse_record(s) == Parsed::Error);
}

/// Two records with a byte of garbage between them are two records: the
/// first is recognised whatever follows it; at the garbage nothing is
/// recognised, so that one byte is stepped over; and there the second is
/// recognised, whatever follows it. Each has its own payload. (An end of line
/// is no garbage: it is read as left over from the line before.)
pub proof fn lemma_resynchronises(
    first: Seq<u8>,
    garbage: u8,
    second: Seq<u8>,
    rest: Seq<u8>,
)
    requires
        parse_complete(first) == Parsed::Done(first.len() as usize),
        parse_complete(second) == Parsed::Done(second.len() as usize),
        garbage != 13 && garbage != 10,
        first.len() + 1 + second.len() + rest.len() <= usize::MAX,
    ensures
        ({
            let s = first + seq![garbage] + second + rest;
            &&& parse_complete(s) == Parsed::Done(first.len() as usize)
            &&& record_payload(s) == record_payload(first)
            &&& parse_complete(s.skip(first.len() as int)) == Parsed::Error
            &&& parse_complete(s.skip((first.len() + 1) as int)) == Parsed::Done(second.len() as usize)
            &&& record_payload(s.skip((first.len() + 1) as int)) == record_payload(second)
        }),
{
    let s = first + seq![garbage] + second + rest;
    lemma_final(first, s);
    let tail = s.skip((first.len() + 1) as int);
    assert(tail =~= second + rest);
    lemma_final(second, tail);
    lemma_final(second, second);
    let middle = s.skip(first.len() as int);
    assert(middle[0] == garbage);
    assert(second.len() >= 1);
    assert(middle[1] == second[0]);
    if second[0] == 65 {
        lemma_garbage(second);
    }
    lemma_garbage(middle);
}

/// `1.0`
pub open spec fn version_one() -> Seq<u8> {
    "1.0".spec_bytes()
}

/// One space.
pub open spec fn blank() -> Seq<u8> {
    seq![32u8]
}

/// A record as the plainest of writers writes it: version 1.0, the length of
/// the payload as the only header, and ends of line with carriage returns.
pub open spec fn plain_record(payload: Seq<u8>) -> Seq<u8> {
    warc() + slash() + version_one() + cr() + lf() + content_length() + colon() + blank()
        + decimal_text(payload.len()) + cr() + lf() + cr() + lf() + payload + cr() + lf() + cr()
        + lf()
}

proof fn lemma_stem(a: Seq<u8>, b: Seq<u8>, s: Seq<u8>)
    requires
        (a + b).is_prefix_of(s),
    ensures
        a.is_prefix_of(s),
        a.len() + b.len() <= s.len(),
        s.subrange(a.len() as int, (a.len() + b.len()) as int) == b,
        forall|i: int| 0 <= i < b.len() ==> s[a.len() + i] == b[i],
{
    let ab = a + b;
    assert(ab =~= s.subrange(0, ab.len() as int));
    assert forall|i: int| 0 <= i < b.len() implies s[a.len() + i] == b[i] by {
        assert(s[a.len() + i] == s.subrange(0, ab.len() as int)[a.len() + i]);
        assert(ab[a.len() + i] == b[i]);
    }
    assert(s.subrange(a.len() as int, (a.len() + b.len()) as int) =~= b);
    assert(a =~= s.subrange(0, a.len() as int)) by {
        assert forall|i: int| 0 <= i < a.len() implies a[i] == s[i] by {
            assert(s[i] == s.subrange(0, ab.len() as int)[i]);
            assert(ab[i] == a[i]);
        }
    }
}

proof fn lemma_tag_miss(s: Seq<u8>, at: int, lit: Seq<u8>)
    requires
        0 <= at < s.len(),
        lit.len() >= 1,
        s[at] != lit[0],
    ensures
        tag_at(s, at, lit) == Parsed::Error,
{
    let m = lesser(s.len() - at, lit.len() as int);
    assert(s.subrange(at, at + m)[0] != lit.subrange(0, m)[0]);
}

proof fn lemma_run_hit(s: Seq<u8>, at: int, end: int, class: Class)
    requires
        0 <= at <= end < s.len(),
        forall|i: int| at <= i < end ==> in_class(class, s[i]),
        !in_class(class, s[end]),
    ensures
        run_end(s, at, class) == end,
    decreases end - at,
{
    if at < end {
        lemma_run_hit(s, at + 1, end, class);
    }
}

proof fn lemma_words()
    ensures
        warc() =~= seq![87u8, 65u8, 82u8, 67u8],
        version_one() =~= seq![49u8, 46u8, 48u8],
        content_length().len() == 14,
        forall|i: int| 0 <= i < 14 ==> in_class(Class::Token, #[trigger] content_length()[i]),
{
    reveal_strlit("WARC");
    reveal_strlit("1.0");
    reveal_strlit("Content-Length");
    assert(vstd::string::is_ascii("WARC"));
    assert(vstd::string::is_ascii("1.0"));
    assert(vstd::string::is_ascii("Content-Length"));
    vstd::string::is_ascii_spec_bytes("WARC");
    vstd::string::is_ascii_spec_bytes("1.0");
    vstd::string::is_ascii_spec_bytes("Content-Length");
    let name = content_length();
    assert(name[0] == 67 && name[1] == 111 && name[2] == 110 && name[3] == 116 && name[4] == 101
        && name[5] == 110 && name[6] == 116 && name[7] == 45 && name[8] == 76 && name[9] == 101
        && name[10] == 110 && name[11] == 103 && name[12] == 116 && name[13] == 104);
}

/// What the plainest of writers writes is read back: a plain record is
/// recognised as a whole, whatever follows it, and its payload is the payload
/// that was written.
pub proof fn lemma_plain_record(payload: Seq<u8>, rest: Seq<u8>)
    requires
        plain_record(payload).len() + rest.len() <= usize::MAX,
    ensures
        parse_complete(plain_record(payload)) == Parsed::Done(plain_record(payload).len() as usize),
        parse_complete(plain_record(payload) + rest) == Parsed::Done(
            plain_record(payload).len() as usize,
        ),
        record_payload(plain_record(payload)) == payload,
        record_payload(plain_record(payload) + rest) == payload,
{
    let s = plain_record(payload);
    lemma_plain_record_alone(payload);
    lemma_final(s, s + rest);
}

/// Where the pieces of a plain record lie.
spec fn laid_out(s: Seq<u8>, payload: Seq<u8>) -> bool {
    let digits = decimal_text(payload.len());
    let e: int = 26int + digits.len();
    let n: int = payload.len() as int;
    &&& s.len() == e + 8 + n
    &&& s.len() <= usize::MAX
    &&& s.subrange(0, 4) == warc()
    &&& s[4] == 47
    &&& s.subrange(5, 8) == version_one()
    &&& s[8] == 13
    &&& s[9] == 10
    &&& s.subrange(10, 24) == content_length()
    &&& s[24] == 58
    &&& s[25] == 32
    &&& s.subrange(26, e) == digits
    &&& s[e] == 13
    &&& s[e + 1] == 10
    &&& s[e + 2] == 13
    &&& s[e + 3] == 10
    &&& s.subrange(e + 4, e + 4 + n) == payload
    &&& s[e + 4 + n] == 13
    &&& s[e + 5 + n] == 10
    &&& s[e + 6 + n] == 13
    &&& s[e + 7 + n] == 10
}

proof fn lemma_laid_out(payload: Seq<u8>)
    requires
        plain_record(payload).len() <= usize::MAX,
    ensures
        laid_out(plain_record(payload), payload),
{
    lemma_words();
    let n = payload.len();
    let digits = decimal_text(n);
    let s = plain_record(payload);
    let k0 = warc();
    let k1 = k0 + slash();
    let k2 = k1 + version_one();
    let k3 = k2 + cr();
    let k4 = k3 + lf();
    let k5 = k4 + content_length();
    let k6 = k5 + colon();
    let k7 = k6 + blank();
    let k8 = k7 + digits;
    let k9 = k8 + cr();
    let k10 = k9 + lf();
    let k11 = k10 + cr();
    let k12 = k11 + lf();
    let k13 = k12 + payload;
    let k14 = k13 + cr();
    let k15 = k14 + lf();
    let k16 = k15 + cr();
    let k17 = k16 + lf();
    assert(k17 == s);
    assert(s.is_prefix_of(s));
    lemma_stem(k16, lf(), s);
    lemma_stem(k15, cr(), s);
    lemma_stem(k14, lf(), s);
    lemma_stem(k13, cr(), s);
    lemma_stem(k12, payload, s);
    lemma_stem(k11, lf(), s);
    lemma_stem(k10, cr(), s);
    lemma_stem(k9, lf(), s);
    lemma_stem(k8, cr(), s);
    lemma_stem(k7, digits, s);
    lemma_stem(k6, blank(), s);
    lemma_stem(k5, colon(), s);
    lemma_stem(k4, content_length(), s);
    lemma_stem(k3, lf(), s);
    lemma_stem(k2, cr(), s);
    lemma_stem(k1, version_one(), s);
    lemma_stem(k0, slash(), s);
    assert(Seq::<u8>::empty() + warc() =~= k0);
    lemma_stem(Seq::<u8>::empty(), warc(), s);
    assert(s[k16.len() + 0int] == lf()[0]);
    assert(s[k15.len() + 0int] == cr()[0]);
    assert(s[k14.len() + 0int] == lf()[0]);
    assert(s[k13.len() + 0int] == cr()[0]);
    assert(s[k11.len() + 0int] == lf()[0]);
    assert(s[k10.len() + 0int] == cr()[0]);
    assert(s[k9.len() + 0int] == lf()[0]);
    assert(s[k8.len() + 0int] == cr()[0]);
    assert(s[k6.len() + 0int] == blank()[0]);
    assert(s[k5.len() + 0int] == colon()[0]);
    assert(s[k3.len() + 0int] == lf()[0]);
    assert(s[k2.len() + 0int] == cr()[0]);
    assert(s[k0.len() + 0int] == slash()[0]);
}

proof fn lemma_tag_byte(s: Seq<u8>, at: int, lit: Seq<u8>)
    requires
        0 <= at < s.len() <= usize::MAX,
        lit.len() == 1,
        s[at] == lit[0],
    ensures
        tag_at(s, at, lit) == Parsed::Done((at + 1) as usize),
{
    assert(s.subrange(at, at + 1) =~= lit.subrange(0, 1));
}

proof fn lemma_tag_word(s: Seq<u8>, at: int, lit: Seq<u8>)
    requires
        0 <= at,
        at + lit.len() <= s.len() <= usize::MAX,
        s.subrange(at, at + lit.len()) == lit,
    ensures
        tag_at(s, at, lit) == Parsed::Done((at + lit.len()) as usize),
{
    assert(lit.subrange(0, lit.len() as int) =~= lit);
}

proof fn lemma_plain_first_line(s: Seq<u8>, payload: Seq<u8>)
    requires
        laid_out(s, payload),
    ensures
        init_line(s, 0) == Parsed::Done(10),
{
    lemma_words();
    assert(s[0] == 87) by {
        assert(s.subrange(0, 4)[0] == warc()[0]);
    }
    lemma_tag_miss(s, 0, cr());
    lemma_tag_miss(s, 0, lf());
    lemma_tag_word(s, 0, warc());
    lemma_tag_byte(s, 4, slash());
    assert(s[5] == 49 && s[6] == 46 && s[7] == 48) by {
        assert(s.subrange(5, 8)[0] == version_one()[0]);
        assert(s.subrange(5, 8)[1] == version_one()[1]);
        assert(s.subrange(5, 8)[2] == version_one()[2]);
    }
    lemma_run_hit(s, 5, 8, Class::Version);
    lemma_tag_byte(s, 8, cr());
    lemma_tag_byte(s, 9, lf());
    let r0 = Parsed::Done(0);
    let r1 = then_tag(s, 0, r0, cr(), true);
    assert(r1 == Parsed::Done(0));
    let r2 = then_tag(s, 0, r1, lf(), true);
    assert(r2 == Parsed::Done(0));
    let r3 = then_tag(s, 0, r2, warc(), false);
    assert(r3 == Parsed::Done(4));
    let r4 = then_tag(s, 0, r3, slash(), false);
    assert(r4 == Parsed::Done(5));
    let r5 = then_space(s, 0, r4);
    assert(r5 == Parsed::Done(5));
    let r6 = then_scan(s, 0, r5, Class::Version);
    assert(r6 == Parsed::Done(8));
    let r7 = then_tag(s, 0, r6, cr(), true);
    assert(r7 == Parsed::Done(9));
}

proof fn lemma_plain_header(s: Seq<u8>, payload: Seq<u8>)
    requires
        laid_out(s, payload),
    ensures
        header_line(s, 10) == Parsed::Done((28 + decimal_text(payload.len()).len()) as usize),
        header_length(s, 10) == Some(payload.len() as usize),
{
    lemma_words();
    let n = payload.len();
    let digits = decimal_text(n);
    lemma_decimal_round_trip(n);
    let e: int = 26int + digits.len();
    assert forall|i: int| 10 <= i < 24 implies in_class(Class::Token, s[i]) by {
        assert(s.subrange(10, 24)[i - 10] == content_length()[i - 10]);
    }
    lemma_run_hit(s, 10, 24, Class::Token);
    assert(header_name(s, 10) == Parsed::Done(24));
    lemma_tag_byte(s, 24, colon());
    assert forall|i: int| 26 <= i < e implies in_class(Class::Value, s[i]) && !is_blank(s[i]) by {
        assert(s.subrange(26, e)[i - 26] == digits[i - 26]);
        assert(crate::decimal::is_digit(digits[i - 26]));
    }
    assert(blanks_end(s, 25) == 26) by {
        assert(blanks_end(s, 26) == 26);
    }
    let c1 = then_space(s, 10, header_name(s, 10));
    assert(c1 == Parsed::Done(24));
    let c2 = then_tag(s, 10, c1, colon(), false);
    assert(c2 == Parsed::Done(25));
    assert(header_colon(s, 10) == Parsed::Done(26));
    lemma_run_hit(s, 26, e, Class::Value);
    assert(all_ascii(digits)) by {
        assert forall|i: int| 0 <= i < digits.len() implies #[trigger] digits[i] < 128 by {
            assert(crate::decimal::is_digit(digits[i]));
        }
    }
    lemma_ascii_decodes(digits);
    assert(header_value(s, 10) == Parsed::Done(e as usize));
    lemma_tag_byte(s, e, cr());
    lemma_tag_byte(s, e + 1, lf());
    let l1 = then_tag(s, 10, header_value(s, 10), cr(), true);
    assert(l1 == Parsed::Done((e + 1) as usize));
    assert(digits[0] != 43) by {
        assert(crate::decimal::is_digit(digits[0]));
    }
    assert(parse_length(digits) == Some(n as usize));
}

proof fn lemma_plain_block(s: Seq<u8>, payload: Seq<u8>)
    requires
        laid_out(s, payload),
    ensures
        header_block(s, 0) == Parsed::Done((30 + decimal_text(payload.len()).len()) as usize),
        record_length(s) == payload.len(),
{
    let n = payload.len();
    let digits = decimal_text(n);
    let e: int = 26int + digits.len();
    lemma_plain_first_line(s, payload);
    lemma_plain_header(s, payload);
    lemma_run_hit(s, e + 2, e + 2, Class::Token);
    lemma_tag_miss(s, e + 2, colon());
    let n1 = header_name(s, e + 2);
    assert(n1 == Parsed::Done((e + 2) as usize));
    let n2 = then_space(s, e + 2, n1);
    assert(n2 == Parsed::Done((e + 2) as usize));
    let n3 = then_tag(s, e + 2, n2, colon(), false);
    assert(n3 == Parsed::Error);
    assert(header_colon(s, e + 2) == Parsed::Error);
    assert(header_line(s, e + 2) == Parsed::Error);
    assert(more_headers(s, 10, e + 2) == Parsed::Done((e + 2) as usize));
    assert(crate::grammar::headers(s, 10) == Parsed::Done((e + 2) as usize));
    assert(block_lines(s, 0) == Parsed::Done((e + 2) as usize));
    lemma_tag_byte(s, e + 2, cr());
    lemma_tag_byte(s, e + 3, lf());
    let b1 = then_tag(s, 0, block_lines(s, 0), cr(), true);
    assert(b1 == Parsed::Done((e + 3) as usize));
    assert(declared_from(s, 10) == Some(n as usize));
}

proof fn lemma_plain_complete(s: Seq<u8>, payload: Seq<u8>)
    requires
        laid_out(s, payload),
    ensures
        parse_complete(s) == Parsed::Done(s.len() as usize),
        record_payload(s) == payload,
{
    reveal(parse_complete);
    let n = payload.len();
    let digits = decimal_text(n);
    let e: int = 26int + digits.len();
    lemma_plain_block(s, payload);
    assert(parse_record(s) == Parsed::Done((e + 4 + n) as usize));
    assert(record_payload(s) == payload);
    lemma_tag_byte(s, e + 4 + n, cr());
    lemma_tag_byte(s, e + 5 + n, lf());
    lemma_tag_byte(s, e + 6 + n, cr());
    lemma_tag_byte(s, e + 7 + n, lf());
    let t0 = chained(0, 0, parse_record(s), false);
    let t1 = then_tag(s, 0, t0, cr(), true);
    assert(t1 == Parsed::Done((e + 5 + n) as usize));
    let t2 = then_tag(s, 0, t1, lf(), false);
    assert(t2 == Parsed::Done((e + 6 + n) as usize));
    let t3 = then_tag(s, 0, t2, cr(), true);
    assert(t3 == Parsed::Done((e + 7 + n) as usize));
}

proof fn lemma_plain_record_alone(payload: Seq<u8>)
    requires
        plain_record(payload).len() <= usize::MAX,
    ensures
        parse_complete(plain_record(payload)) == Parsed::Done(plain_record(payload).len() as usize),
        record_payload(plain_record(payload)) == payload,
{
    lemma_laid_out(payload);
    lemma_plain_complete(plain_record(payload), payload);
}

} // verus!
