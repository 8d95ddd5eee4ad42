//! The grammar of archived web records, on bytes.
//!
//! A record is a first line (`WARC/` and a version), one or more header
//! lines (`name: value`), an empty line, and then as many bytes of payload as
//! the `Content-Length` header declares. Lines end in a line feed, with or
//! without a carriage return before it.
//!
//! Every parser here looks at the bytes from a position on and answers in one
//! of three ways: done, with the position behind what it recognised; error,
//! the bytes are not what it looks for; incomplete, the bytes end before it
//! can tell. Parsers are put in sequence as links of a chain. An incomplete
//! link makes the chain incomplete, and the size it asked for is passed on
//! with the bytes that the chain had consumed before it added: the hint
//! counts from the start of the chain.

use crate::decimal::{parse_decimal, read_decimal};
use vstd::prelude::*;
use vstd::string::*;
use vstd::utf8::valid_utf8;

verus! {

/// The horizontal tab.
pub const TAB: u8 = 9;

/// The line feed.
pub const LF: u8 = 10;

/// The carriage return.
pub const CR: u8 = 13;

/// The space.
pub const BLANK: u8 = 32;

/// The plus sign.
pub const PLUS: u8 = 43;

/// The slash.
pub const SLASH: u8 = 47;

/// The colon.
pub const COLON: u8 = 58;

/// How much more input a parser asked for.
#[derive(Debug, Clone, Copy, PartialEq, Eq)]
pub enum Needed {
    /// More, it cannot say how much.
    Unknown,
    /// This many bytes.
    Size(usize),
}

/// How a parser answered.
#[derive(Debug, Clone, Copy, PartialEq, Eq)]
pub enum Parsed {
    /// It recognised what it looks for; the position is the one behind it.
    Done(usize),
    /// The input ends too early to tell.
    Incomplete(Needed),
    /// The input is not what it looks for.
    Error,
}

/// The kinds of bytes that runs are made of.
#[derive(Debug, Clone, Copy, PartialEq, Eq)]
pub enum Class {
    /// Digits and dots: a version number.
    Version,
    /// What a header's name is made of.
    Token,
    /// What a header's value is made of: anything but control characters.
    Value,
}

/// Whether `b` belongs to `class`.
pub open spec fn in_class(class: Class, b: u8) -> bool {
    match class {
        Class::Version => b == 46 || 48 <= b <= 57,
        Class::Token => b == 33 || 35 <= b <= 39 || b == 42 || b == 43 || b == 45 || 48 <= b
            <= 57 || 65 <= b <= 90 || 94 <= b <= 122 || b == 124,
        Class::Value => b >= 32,
    }
}

/// Whether `b` is a space or a tab.
pub open spec fn is_blank(b: u8) -> bool {
    b == 32 || b == 9
}

/// The first position at or after `at` whose byte is not of `class` (the
/// length of `s` where there is none).
pub open spec fn run_end(s: Seq<u8>, at: int, class: Class) -> int
    decreases s.len() - at,
{
    if 0 <= at < s.len() && in_class(class, s[at]) {
        run_end(s, at + 1, class)
    } else {
        at
    }
}

/// The first position at or after `at` that holds neither space nor tab.
pub open spec fn blanks_end(s: Seq<u8>, at: int) -> int
    decreases s.len() - at,
{
    if 0 <= at < s.len() && is_blank(s[at]) {
        blanks_end(s, at + 1)
    } else {
        at
    }
}

/// The smaller of two numbers.
pub open spec fn lesser(a: int, b: int) -> int {
    if a <= b {
        a
    } else {
        b
    }
}

/// The literal `lit` at `at`: an error where the bytes that are there differ
/// from it; incomplete, asking for the literal's length, where they agree but
/// end too early.
pub open spec fn tag_at(s: Seq<u8>, at: int, lit: Seq<u8>) -> Parsed {
    let m = lesser(s.len() - at, lit.len() as int);
    if s.subrange(at, at + m) != lit.subrange(0, m) {
        Parsed::Error
    } else if m < lit.len() {
        Parsed::Incomplete(Needed::Size(lit.len() as usize))
    } else {
        Parsed::Done((at + lit.len()) as usize)
    }
}

/// One or more spaces and tabs at `at`: incomplete where the input ends at
/// `at`, an error where another byte stands there.
pub open spec fn space_at(s: Seq<u8>, at: int) -> Parsed {
    if at >= s.len() {
        Parsed::Incomplete(Needed::Unknown)
    } else if !is_blank(s[at]) {
        Parsed::Error
    } else {
        Parsed::Done(blanks_end(s, at) as usize)
    }
}

/// A run of bytes of `class` at `at`, empty or not, up to a byte that is not
/// of the class: incomplete, asking for one byte, where the input ends first.
pub open spec fn scan_at(s: Seq<u8>, at: int, class: Class) -> Parsed {
    let end = run_end(s, at, class);
    if end >= s.len() {
        Parsed::Incomplete(Needed::Size(1))
    } else {
        Parsed::Done(end as usize)
    }
}

/// A hint of a link, as the chain passes it on: with the bytes added that the
/// chain had consumed before the link. Where the sum does not fit the machine
/// word, the size is given up.
pub open spec fn lift(consumed: int, n: Needed) -> Needed {
    match n {
        Needed::Unknown => Needed::Unknown,
        Needed::Size(i) => if consumed + i > usize::MAX {
            Needed::Unknown
        } else {
            Needed::Size((consumed + i) as usize)
        },
    }
}

/// The answer of a link at `at` in a chain that started at `base`. An
/// optional link that fails is stepped over.
pub open spec fn chained(base: int, at: int, r: Parsed, optional: bool) -> Parsed {
    match r {
        Parsed::Done(p) => Parsed::Done(p),
        Parsed::Incomplete(n) => Parsed::Incomplete(lift(at - base, n)),
        Parsed::Error => if optional {
            Parsed::Done(at as usize)
        } else {
            Parsed::Error
        },
    }
}

/// The chain so far, then the literal `lit`.
pub open spec fn then_tag(s: Seq<u8>, base: int, prev: Parsed, lit: Seq<u8>, optional: bool)
    -> Parsed {
    match prev {
        Parsed::Done(at) => chained(base, at as int, tag_at(s, at as int, lit), optional),
        _ => prev,
    }
}

/// The chain so far, then spaces and tabs, if there are any.
pub open spec fn then_space(s: Seq<u8>, base: int, prev: Parsed) -> Parsed {
    match prev {
        Parsed::Done(at) => chained(base, at as int, space_at(s, at as int), true),
        _ => prev,
    }
}

/// The chain so far, then a run of bytes of `class`.
pub open spec fn then_scan(s: Seq<u8>, base: int, prev: Parsed, class: Class) -> Parsed {
    match prev {
        Parsed::Done(at) => chained(base, at as int, scan_at(s, at as int, class), false),
        _ => prev,
    }
}

/// The chain so far, then a header's value: a run of bytes that are no
/// control characters, which has to be UTF-8.
pub open spec fn then_text(s: Seq<u8>, base: int, prev: Parsed) -> Parsed {
    match prev {
        Parsed::Done(at) => match scan_at(s, at as int, Class::Value) {
            Parsed::Done(end) => if valid_utf8(s.subrange(at as int, end as int)) {
                Parsed::Done(end)
            } else {
                Parsed::Error
            },
            r => chained(base, at as int, r, false),
        },
        _ => prev,
    }
}

/// A carriage return.
pub open spec fn cr() -> Seq<u8> {
    seq![13u8]
}

/// A line feed.
pub open spec fn lf() -> Seq<u8> {
    seq![10u8]
}

/// `WARC`
pub open spec fn warc() -> Seq<u8> {
    "WARC".spec_bytes()
}

/// `/`
pub open spec fn slash() -> Seq<u8> {
    seq![47u8]
}

/// `:`
pub open spec fn colon() -> Seq<u8> {
    seq![58u8]
}

/// `Content-Length`
pub open spec fn content_length() -> Seq<u8> {
    "Content-Length".spec_bytes()
}

/// The first line of a record at `b`: an end of line left over from what came
/// before, if there is one; `WARC/`; the version; the end of the line.
pub open spec fn init_line(s: Seq<u8>, b: int) -> Parsed {
    let r = Parsed::Done(b as usize);
    let r = then_tag(s, b, r, cr(), true);
    let r = then_tag(s, b, r, lf(), true);
    let r = then_tag(s, b, r, warc(), false);
    let r = then_tag(s, b, r, slash(), false);
    let r = then_space(s, b, r);
    let r = then_scan(s, b, r, Class::Version);
    let r = then_tag(s, b, r, cr(), true);
    then_tag(s, b, r, lf(), false)
}

/// The name of the header line at `b`.
pub open spec fn header_name(s: Seq<u8>, b: int) -> Parsed {
    then_scan(s, b, Parsed::Done(b as usize), Class::Token)
}

/// The header line at `b` up to where its value starts: the name, the colon,
/// and the spaces and tabs around the colon.
pub open spec fn header_colon(s: Seq<u8>, b: int) -> Parsed {
    let r = then_space(s, b, header_name(s, b));
    let r = then_tag(s, b, r, colon(), false);
    then_space(s, b, r)
}

/// The header line at `b` up to where its value ends.
pub open spec fn header_value(s: Seq<u8>, b: int) -> Parsed {
    then_text(s, b, header_colon(s, b))
}

/// The header line at `b`, with the end of the line.
pub open spec fn header_line(s: Seq<u8>, b: int) -> Parsed {
    let r = then_tag(s, b, header_value(s, b), cr(), true);
    then_tag(s, b, r, lf(), false)
}

/// What a header's value means as a length: digits, with a plus sign before
/// them or without, that fit the machine word.
pub open spec fn parse_length(value: Seq<u8>) -> Option<usize> {
    if value.len() > 0 && value[0] == 43 {
        parse_decimal(value.skip(1))
    } else {
        parse_decimal(value)
    }
}

/// The length that the header line at `b` declares: none, where it is not
/// named `Content-Length`; zero, where its value is no length.
pub open spec fn header_length(s: Seq<u8>, b: int) -> Option<usize>
    recommends
        header_line(s, b) is Done,
{
    let name = s.subrange(b, header_name(s, b)->Done_0 as int);
    let value = s.subrange(header_colon(s, b)->Done_0 as int, header_value(s, b)->Done_0 as int);
    if name == content_length() {
        Some(
            match parse_length(value) {
                Some(n) => n,
                None => 0,
            },
        )
    } else {
        None
    }
}

/// The header lines from `at` on, after the first: as many as there are. The
/// run ends where the input ends, where what follows is no header line, and
/// where a header line consumes nothing; it is incomplete where a header line
/// is.
pub open spec fn more_headers(s: Seq<u8>, base: int, at: int) -> Parsed
    decreases s.len() - at,
{
    if at >= s.len() || at < 0 {
        Parsed::Done(at as usize)
    } else {
        match header_line(s, at) {
            Parsed::Error => Parsed::Done(at as usize),
            Parsed::Incomplete(n) => Parsed::Incomplete(lift(at - base, n)),
            Parsed::Done(p) => if p <= at {
                Parsed::Done(at as usize)
            } else {
                more_headers(s, base, p as int)
            },
        }
    }
}

/// One or more header lines at `b`.
pub open spec fn headers(s: Seq<u8>, b: int) -> Parsed {
    match header_line(s, b) {
        Parsed::Done(p) => more_headers(s, b, p as int),
        r => r,
    }
}

/// The length that the first `Content-Length` among the header lines from
/// `at` on declares.
pub open spec fn declared_from(s: Seq<u8>, at: int) -> Option<usize>
    decreases s.len() - at,
{
    if at >= s.len() || at < 0 {
        None
    } else {
        match header_line(s, at) {
            Parsed::Done(p) => match header_length(s, at) {
                Some(n) => Some(n),
                None => if p <= at {
                    None
                } else {
                    declared_from(s, p as int)
                },
            },
            _ => None,
        }
    }
}

/// A record's first line and header lines at `b`.
pub open spec fn block_lines(s: Seq<u8>, b: int) -> Parsed {
    match init_line(s, b) {
        Parsed::Done(p) => chained(b, p as int, headers(s, p as int), false),
        r => r,
    }
}

/// A record's header block at `b`: the first line, the header lines and the
/// empty line.
pub open spec fn header_block(s: Seq<u8>, b: int) -> Parsed {
    let r = then_tag(s, b, block_lines(s, b), cr(), true);
    then_tag(s, b, r, lf(), false)
}

/// The length of the payload of the record that `s` starts with: what its
/// first `Content-Length` header declares, and zero without one.
pub open spec fn record_length(s: Seq<u8>) -> usize
    recommends
        header_block(s, 0) is Done,
{
    match declared_from(s, init_line(s, 0)->Done_0 as int) {
        Some(n) => n,
        None => 0,
    }
}

/// A record without the empty lines behind it: the header block, and the
/// payload in the length that the header block declares. Where the input ends
/// within the payload, the record is incomplete by the bytes that are missing.
pub open spec fn parse_record(s: Seq<u8>) -> Parsed {
    match header_block(s, 0) {
        Parsed::Done(p) => {
            let n = record_length(s);
            if n > s.len() - p {
                Parsed::Incomplete(Needed::Size((n - (s.len() - p)) as usize))
            } else {
                Parsed::Done((p + n) as usize)
            }
        },
        r => r,
    }
}

/// The payload of the record that `s` starts with.
pub open spec fn record_payload(s: Seq<u8>) -> Seq<u8>
    recommends
        parse_record(s) is Done,
{
    s.subrange(header_block(s, 0)->Done_0 as int, parse_record(s)->Done_0 as int)
}

/// A whole record: the record and the two ends of line behind its payload.
#[verifier::opaque]
pub open spec fn parse_complete(s: Seq<u8>) -> Parsed {
    let r = chained(0, 0, parse_record(s), false);
    let r = then_tag(s, 0, r, cr(), true);
    let r = then_tag(s, 0, r, lf(), false);
    let r = then_tag(s, 0, r, cr(), true);
    then_tag(s, 0, r, lf(), false)
}

/// Whether `b` belongs to `class`.
pub fn is_in(class: Class, b: u8) -> (yes: bool)
    ensures
        yes == in_class(class, b),
{
    match class {
        Class::Version => b == 46 || (48 <= b && b <= 57),
        Class::Token => b == 33 || (35 <= b && b <= 39) || b == 42 || b == 43 || b == 45 || (48
            <= b && b <= 57) || (65 <= b && b <= 90) || (94 <= b && b <= 122) || b == 124,
        Class::Value => b >= 32,
    }
}

/// Adds what a chain had consumed to the hint of one of its links.
pub fn lifted(consumed: usize, n: Needed) -> (hint: Needed)
    ensures
        hint == lift(consumed as int, n),
{
    match n {
        Needed::Unknown => Needed::Unknown,
        Needed::Size(i) => match consumed.checked_add(i) {
            Some(sum) => Needed::Size(sum),
            None => Needed::Unknown,
        },
    }
}

/// Looks for the literal `lit` at `at`.
pub fn tag(input: &[u8], at: usize, lit: &[u8]) -> (r: Parsed)
    requires
        at <= input.len(),
    ensures
        r == tag_at(input@, at as int, lit@),
        r matches Parsed::Done(p) ==> p == at + lit.len() && p <= input.len(),
{
    let rest = input.len() - at;
    let m = if rest < lit.len() {
        rest
    } else {
        lit.len()
    };
    let mut i: usize = 0;
    while i < m
        invariant
            at + m <= input.len(),
            m <= lit.len(),
            i <= m,
            input@.subrange(at as int, at + i) == lit@.subrange(0, i as int),
        decreases m - i,
    {
        if input[at + i] != lit[i] {
            assert(input@.subrange(at as int, at + m)[i as int] != lit@.subrange(0, m as int)[i as int]);
            return Parsed::Error;
        }
        assert(input@.subrange(at as int, at + i + 1) =~= input@.subrange(at as int, at + i).push(
            input@[at + i],
        ));
        assert(lit@.subrange(0, i + 1) =~= lit@.subrange(0, i as int).push(lit@[i as int]));
        i += 1;
    }
    if m < lit.len() {
        Parsed::Incomplete(Needed::Size(lit.len()))
    } else {
        Parsed::Done(at + lit.len())
    }
}

/// Looks for spaces and tabs at `at`.
pub fn space(input: &[u8], at: usize) -> (r: Parsed)
    requires
        at <= input.len(),
    ensures
        r == space_at(input@, at as int),
        r matches Parsed::Done(p) ==> at < p <= input.len(),
{
    if at >= input.len() {
        return Parsed::Incomplete(Needed::Unknown);
    }
    if !(input[at] == BLANK || input[at] == TAB) {
        return Parsed::Error;
    }
    let mut end: usize = at + 1;
    assert(blanks_end(input@, at as int) == blanks_end(input@, at + 1));
    while end < input.len() && (input[end] == BLANK || input[end] == TAB)
        invariant
            at < end <= input.len(),
            blanks_end(input@, at as int) == blanks_end(input@, end as int),
        decreases input.len() - end,
    {
        end += 1;
    }
    Parsed::Done(end)
}

/// Looks for a run of bytes of `class` at `at`.
pub fn scan(input: &[u8], at: usize, class: Class) -> (r: Parsed)
    requires
        at <= input.len(),
    ensures
        r == scan_at(input@, at as int, class),
        r matches Parsed::Done(p) ==> at <= p < input.len(),
{
    let mut end: usize = at;
    while end < input.len() && is_in(class, input[end])
        invariant
            at <= end <= input.len(),
            run_end(input@, at as int, class) == run_end(input@, end as int, class),
        decreases input.len() - end,
    {
        end += 1;
    }
    if end >= input.len() {
        Parsed::Incomplete(Needed::Size(1))
    } else {
        Parsed::Done(end)
    }
}

/// Gives the answer of a link its place in the chain.
pub fn link(base: usize, at: usize, r: Parsed, optional: bool) -> (out: Parsed)
    requires
        base <= at,
    ensures
        out == chained(base as int, at as int, r, optional),
{
    match r {
        Parsed::Done(p) => Parsed::Done(p),
        Parsed::Incomplete(n) => Parsed::Incomplete(lifted(at - base, n)),
        Parsed::Error => if optional {
            Parsed::Done(at)
        } else {
            Parsed::Error
        },
    }
}

/// Whether a chain's answer, if it is done, lies between `base` and the end
/// of the input.
pub open spec fn within(r: Parsed, base: int, len: int) -> bool {
    r matches Parsed::Done(p) ==> base <= p <= len
}

/// Goes on with the literal `lit`.
pub fn next_tag(input: &[u8], base: usize, prev: Parsed, lit: &[u8], optional: bool) -> (r:
    Parsed)
    requires
        within(prev, base as int, input.len() as int),
    ensures
        r == then_tag(input@, base as int, prev, lit@, optional),
        within(r, base as int, input.len() as int),
        r matches Parsed::Done(p) ==> prev is Done && prev->Done_0 <= p,
{
    match prev {
        Parsed::Done(at) => link(base, at, tag(input, at, lit), optional),
        _ => prev,
    }
}

/// Goes on with spaces and tabs, if there are any.
pub fn next_space(input: &[u8], base: usize, prev: Parsed) -> (r: Parsed)
    requires
        within(prev, base as int, input.len() as int),
    ensures
        r == then_space(input@, base as int, prev),
        within(r, base as int, input.len() as int),
        r matches Parsed::Done(p) ==> prev is Done && prev->Done_0 <= p,
{
    match prev {
        Parsed::Done(at) => link(base, at, space(input, at), true),
        _ => prev,
    }
}

/// Goes on with a run of bytes of `class`.
pub fn next_scan(input: &[u8], base: usize, prev: Parsed, class: Class) -> (r: Parsed)
    requires
        within(prev, base as int, input.len() as int),
    ensures
        r == then_scan(input@, base as int, prev, class),
        within(r, base as int, input.len() as int),
        r matches Parsed::Done(p) ==> prev is Done && prev->Done_0 <= p,
{
    match prev {
        Parsed::Done(at) => link(base, at, scan(input, at, class), false),
        _ => prev,
    }
}

/// Whether `bytes` are UTF-8, by `std::str::from_utf8`, which takes a run of
/// bytes exactly where it is well-formed UTF-8.
#[verifier::external_body]
fn is_utf8(bytes: &[u8]) -> (yes: bool)
    ensures
        yes == valid_utf8(bytes@),
{
    std::str::from_utf8(bytes).is_ok()
}

/// Goes on with a header's value.
pub fn next_text(input: &[u8], base: usize, prev: Parsed) -> (r: Parsed)
    requires
        within(prev, base as int, input.len() as int),
    ensures
        r == then_text(input@, base as int, prev),
        within(r, base as int, input.len() as int),
        r matches Parsed::Done(p) ==> prev is Done && prev->Done_0 <= p,
{
    match prev {
        Parsed::Done(at) => match scan(input, at, Class::Value) {
            Parsed::Done(end) => {
                if is_utf8(vstd::slice::slice_subrange(input, at, end)) {
                    Parsed::Done(end)
                } else {
                    Parsed::Error
                }
            },
            r => link(base, at, r, false),
        },
        _ => prev,
    }
}

/// Parses the first line of a record at `b`.
pub fn first_line(input: &[u8], b: usize) -> (r: Parsed)
    requires
        b <= input.len(),
    ensures
        r == init_line(input@, b as int),
        within(r, b as int, input.len() as int),
{
    let cr: [u8; 1] = [CR];
    let lf: [u8; 1] = [LF];
    let slash: [u8; 1] = [SLASH];
    assert(cr@ =~= self::cr());
    assert(lf@ =~= self::lf());
    assert(slash@ =~= self::slash());
    let r = Parsed::Done(b);
    let r = next_tag(input, b, r, cr.as_slice(), true);
    let r = next_tag(input, b, r, lf.as_slice(), true);
    let r = next_tag(input, b, r, "WARC".as_bytes(), false);
    let r = next_tag(input, b, r, slash.as_slice(), false);
    let r = next_space(input, b, r);
    let r = next_scan(input, b, r, Class::Version);
    let r = next_tag(input, b, r, cr.as_slice(), true);
    next_tag(input, b, r, lf.as_slice(), false)
}

/// A header line that was recognised: where it ends, and where its name ends
/// and its value starts and ends.
#[derive(Debug, Clone, Copy, PartialEq, Eq)]
pub struct HeaderLine {
    pub end: Parsed,
    pub name_end: usize,
    pub value_start: usize,
    pub value_end: usize,
}

/// Parses the header line at `b`.
pub fn header(input: &[u8], b: usize) -> (line: HeaderLine)
    requires
        b <= input.len(),
    ensures
        line.end == header_line(input@, b as int),
        within(line.end, b as int, input.len() as int),
        line.end is Done ==> {
            &&& header_name(input@, b as int) == Parsed::Done(line.name_end)
            &&& header_colon(input@, b as int) == Parsed::Done(line.value_start)
            &&& header_value(input@, b as int) == Parsed::Done(line.value_end)
            &&& b <= line.name_end <= line.value_start <= line.value_end <= line.end->Done_0
            &&& b < line.end->Done_0
        },
{
    let cr: [u8; 1] = [CR];
    let lf: [u8; 1] = [LF];
    let colon: [u8; 1] = [COLON];
    assert(cr@ =~= self::cr());
    assert(lf@ =~= self::lf());
    assert(colon@ =~= self::colon());
    let name = next_scan(input, b, Parsed::Done(b), Class::Token);
    let r = next_space(input, b, name);
    let r = next_tag(input, b, r, colon.as_slice(), false);
    let start = next_space(input, b, r);
    let value = next_text(input, b, start);
    let r = next_tag(input, b, value, cr.as_slice(), true);
    let end = next_tag(input, b, r, lf.as_slice(), false);
    match (end, name, start, value) {
        (Parsed::Done(_), Parsed::Done(n), Parsed::Done(s), Parsed::Done(v)) => HeaderLine {
            end,
            name_end: n,
            value_start: s,
            value_end: v,
        },
        _ => HeaderLine { end, name_end: b, value_start: b, value_end: b },
    }
}

/// Reads a header's value as a length.
pub fn read_length(input: &[u8], from: usize, to: usize) -> (n: Option<usize>)
    requires
        from <= to <= input.len(),
    ensures
        n == parse_length(input@.subrange(from as int, to as int)),
{
    let ghost value = input@.subrange(from as int, to as int);
    if from < to && input[from] == PLUS {
        assert(value[0] == input@[from as int]);
        assert(value.skip(1) =~= input@.subrange(from + 1, to as int));
        read_decimal(input, from + 1, to)
    } else {
        if from < to {
            assert(value[0] == input@[from as int]);
        }
        read_decimal(input, from, to)
    }
}

/// Whether the bytes of `input` from `from` to `to` are the literal `lit`.
pub fn same_bytes(input: &[u8], from: usize, to: usize, lit: &[u8]) -> (same: bool)
    requires
        from <= to <= input.len(),
    ensures
        same == (input@.subrange(from as int, to as int) == lit@),
{
    if to - from != lit.len() {
        return false;
    }
    match tag(input, from, lit) {
        Parsed::Done(_) => {
            assert(lit@.subrange(0, lit.len() as int) =~= lit@);
            true
        },
        _ => {
            assert(lit@.subrange(0, lit.len() as int) =~= lit@);
            false
        },
    }
}

/// The length that a header line which was recognised declares.
pub fn length_of(input: &[u8], b: usize, line: &HeaderLine) -> (n: Option<usize>)
    requires
        b <= input.len(),
        line.end == header_line(input@, b as int),
        line.end is Done,
        header_name(input@, b as int) == Parsed::Done(line.name_end),
        header_colon(input@, b as int) == Parsed::Done(line.value_start),
        header_value(input@, b as int) == Parsed::Done(line.value_end),
        b <= line.name_end <= line.value_start <= line.value_end <= input.len(),
    ensures
        n == header_length(input@, b as int),
{
    if same_bytes(input, b, line.name_end, "Content-Length".as_bytes()) {
        match read_length(input, line.value_start, line.value_end) {
            Some(n) => Some(n),
            None => Some(0),
        }
    } else {
        None
    }
}

/// What the header lines of a record came to: where they end, and the length
/// that the first `Content-Length` among them declares.
#[derive(Debug, Clone, Copy, PartialEq, Eq)]
pub struct HeaderLines {
    pub end: Parsed,
    pub declared: Option<usize>,
}

/// Parses one or more header lines at `b`.
pub fn header_lines(input: &[u8], b: usize) -> (lines: HeaderLines)
    requires
        b <= input.len(),
    ensures
        lines.end == headers(input@, b as int),
        within(lines.end, b as int, input.len() as int),
        lines.end is Done ==> lines.declared == declared_from(input@, b as int),
{
    let first = header(input, b);
    let mut at: usize = match first.end {
        Parsed::Done(p) => p,
        _ => {
            return HeaderLines { end: first.end, declared: None };
        },
    };
    let mut declared: Option<usize> = length_of(input, b, &first);
    loop
        invariant
            b < at <= input.len(),
            headers(input@, b as int) == more_headers(input@, b as int, at as int),
            declared_from(input@, b as int) == match declared {
                Some(n) => Some(n),
                None => declared_from(input@, at as int),
            },
        decreases input.len() - at,
    {
        if at >= input.len() {
            return HeaderLines { end: Parsed::Done(at), declared };
        }
        let line = header(input, at);
        match line.end {
            Parsed::Error => {
                return HeaderLines { end: Parsed::Done(at), declared };
            },
            Parsed::Incomplete(n) => {
                return HeaderLines { end: Parsed::Incomplete(lifted(at - b, n)), declared };
            },
            Parsed::Done(p) => {
                if declared.is_none() {
                    declared = length_of(input, at, &line);
                }
                at = p;
            },
        }
    }
}

/// What the header block of a record came to: where it ends, and the length
/// of the payload that it declares.
#[derive(Debug, Clone, Copy, PartialEq, Eq)]
pub struct Block {
    pub end: Parsed,
    pub length: usize,
}

/// Parses the header block that `input` starts with.
pub fn block(input: &[u8]) -> (found: Block)
    ensures
        found.end == header_block(input@, 0),
        within(found.end, 0, input.len() as int),
        found.end is Done ==> found.length == record_length(input@),
{
    let cr: [u8; 1] = [CR];
    let lf: [u8; 1] = [LF];
    assert(cr@ =~= self::cr());
    assert(lf@ =~= self::lf());
    let first = first_line(input, 0);
    let (lines, declared) = match first {
        Parsed::Done(p) => {
            let lines = header_lines(input, p);
            (link(0, p, lines.end, false), lines.declared)
        },
        r => (r, None),
    };
    let r = next_tag(input, 0, lines, cr.as_slice(), true);
    let end = next_tag(input, 0, r, lf.as_slice(), false);
    let length = match declared {
        Some(n) => n,
        None => 0,
    };
    Block { end, length }
}

} // verus!
