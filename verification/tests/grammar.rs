use cabarrus::grammar::{
    block, first_line, header, header_lines, is_in, length_of, lifted, link, read_length, scan,
    space, tag, Block, Class, HeaderLines, Needed, Parsed,
};

#[test]
fn tag_matches_differs_or_runs_out() {
    assert_eq!(tag(b"WARC/1.0", 0, b"WARC"), Parsed::Done(4));
    assert_eq!(tag(b"xxWARC", 2, b"WARC"), Parsed::Done(6));
    assert_eq!(tag(b"WA", 0, b"WARC"), Parsed::Incomplete(Needed::Size(4)));
    assert_eq!(tag(b"", 0, b"WARC"), Parsed::Incomplete(Needed::Size(4)));
    assert_eq!(tag(b"WARC", 4, b"\n"), Parsed::Incomplete(Needed::Size(1)));
    assert_eq!(tag(b"WX", 0, b"WARC"), Parsed::Error);
    assert_eq!(tag(b"warc", 0, b"WARC"), Parsed::Error);
    assert_eq!(tag(b"abc", 1, b""), Parsed::Done(1));
}

#[test]
fn space_takes_spaces_and_tabs() {
    assert_eq!(space(b"  \tx", 0), Parsed::Done(3));
    assert_eq!(space(b"   ", 0), Parsed::Done(3));
    assert_eq!(space(b"a b", 1), Parsed::Done(2));
    assert_eq!(space(b"x", 0), Parsed::Error);
    assert_eq!(space(b"\r\n", 0), Parsed::Error);
    assert_eq!(space(b"", 0), Parsed::Incomplete(Needed::Unknown));
    assert_eq!(space(b"ab", 2), Parsed::Incomplete(Needed::Unknown));
}

#[test]
fn scan_needs_a_byte_behind_the_run() {
    assert_eq!(scan(b"1.0\r\n", 0, Class::Version), Parsed::Done(3));
    assert_eq!(scan(b"\r", 0, Class::Version), Parsed::Done(0));
    assert_eq!(scan(b"1.0", 0, Class::Version), Parsed::Incomplete(Needed::Size(1)));
    assert_eq!(scan(b"", 0, Class::Version), Parsed::Incomplete(Needed::Size(1)));
    assert_eq!(scan(b"Content-Length: 5", 0, Class::Token), Parsed::Done(14));
    assert_eq!(scan(b"caf\xc3\xa9\x01", 0, Class::Value), Parsed::Done(5));
    assert_eq!(scan(b"a b\tc", 0, Class::Value), Parsed::Done(3));
}

#[test]
fn classes_are_the_bytes_of_the_format() {
    for b in 0..=255u8 {
        assert_eq!(is_in(Class::Version, b), b == b'.' || b.is_ascii_digit());
        assert_eq!(is_in(Class::Value, b), b >= 32);
        let token = b.is_ascii_alphanumeric() || b"!#$%&'*+-^_`|".contains(&b);
        assert_eq!(is_in(Class::Token, b), token);
    }
}

#[test]
fn hints_count_from_the_start_of_the_chain() {
    assert_eq!(lifted(5, Needed::Size(1)), Needed::Size(6));
    assert_eq!(lifted(0, Needed::Size(4)), Needed::Size(4));
    assert_eq!(lifted(5, Needed::Unknown), Needed::Unknown);
    assert_eq!(lifted(usize::MAX, Needed::Size(1)), Needed::Unknown);
    assert_eq!(lifted(usize::MAX - 1, Needed::Size(1)), Needed::Size(usize::MAX));
    assert_eq!(link(2, 7, Parsed::Incomplete(Needed::Size(3)), false), Parsed::Incomplete(Needed::Size(8)));
    assert_eq!(link(2, 7, Parsed::Error, false), Parsed::Error);
    assert_eq!(link(2, 7, Parsed::Error, true), Parsed::Done(7));
    assert_eq!(link(2, 7, Parsed::Done(9), true), Parsed::Done(9));
}

#[test]
fn first_line_with_and_without_carriage_returns() {
    assert_eq!(first_line(b"WARC/1.0\r\n", 0), Parsed::Done(10));
    assert_eq!(first_line(b"WARC/1.0\n", 0), Parsed::Done(9));
    assert_eq!(first_line(b"WARC/ 0.18\nrest", 0), Parsed::Done(11));
    assert_eq!(first_line(b"\r\nWARC/1.0\r\n", 0), Parsed::Done(12));
    assert_eq!(first_line(b"\nWARC/1.0\n", 0), Parsed::Done(10));
    assert_eq!(first_line(b"xxWARC/1.0\n", 2), Parsed::Done(11));
    assert_eq!(first_line(b"WARC/\n", 0), Parsed::Done(6));
}

#[test]
fn first_line_that_is_none_or_not_yet_one() {
    assert_eq!(first_line(b"HTTP/1.1 200 OK\r\n", 0), Parsed::Error);
    assert_eq!(first_line(b"WARC 1.0\r\n", 0), Parsed::Error);
    assert_eq!(first_line(b"WARC/1.0 \r\n", 0), Parsed::Error);
    assert_eq!(first_line(b"\n\nWARC/1.0\n", 0), Parsed::Error);
    assert_eq!(first_line(b"", 0), Parsed::Incomplete(Needed::Size(1)));
    assert_eq!(first_line(b"\r", 0), Parsed::Incomplete(Needed::Size(2)));
    assert_eq!(first_line(b"WAR", 0), Parsed::Incomplete(Needed::Size(4)));
    assert_eq!(first_line(b"\r\nWA", 0), Parsed::Incomplete(Needed::Size(6)));
    assert_eq!(first_line(b"WARC", 0), Parsed::Incomplete(Needed::Size(5)));
    assert_eq!(first_line(b"WARC/", 0), Parsed::Incomplete(Needed::Unknown));
    assert_eq!(first_line(b"WARC/1.0", 0), Parsed::Incomplete(Needed::Size(6)));
    assert_eq!(first_line(b"WARC/1.0\r", 0), Parsed::Incomplete(Needed::Size(10)));
}

#[test]
fn header_line_gives_name_and_value() {
    let line = header(b"Content-Length: 5\r\n", 0);
    assert_eq!(line.end, Parsed::Done(19));
    assert_eq!((line.name_end, line.value_start, line.value_end), (14, 16, 17));
    let line = header(b"..WARC-Type \t:conversion\nX", 2);
    assert_eq!(line.end, Parsed::Done(25));
    assert_eq!((line.name_end, line.value_start, line.value_end), (11, 14, 24));
    let line = header(b"Empty:\n", 0);
    assert_eq!(line.end, Parsed::Done(7));
    assert_eq!((line.name_end, line.value_start, line.value_end), (5, 6, 6));
    let line = header(b": nameless\n", 0);
    assert_eq!(line.end, Parsed::Done(11));
    assert_eq!((line.name_end, line.value_start, line.value_end), (0, 2, 10));
}

#[test]
fn header_line_that_is_none_or_not_yet_one() {
    assert_eq!(header(b"\r\n", 0).end, Parsed::Error);
    assert_eq!(header(b"no colon here\n", 0).end, Parsed::Error);
    assert_eq!(header(b"Name: tab\there\n", 0).end, Parsed::Error);
    assert_eq!(header(b"Name: bad \xff byte\n", 0).end, Parsed::Error);
    assert_eq!(header(b"Name: caf\xc3\xa9\n", 0).end, Parsed::Done(12));
    assert_eq!(header(b"", 0).end, Parsed::Incomplete(Needed::Size(1)));
    assert_eq!(header(b"Name", 0).end, Parsed::Incomplete(Needed::Size(1)));
    assert_eq!(header(b"xxName", 2).end, Parsed::Incomplete(Needed::Size(1)));
    assert_eq!(header(b"Name ", 0).end, Parsed::Incomplete(Needed::Size(6)));
    assert_eq!(header(b"Name:", 0).end, Parsed::Incomplete(Needed::Unknown));
    assert_eq!(header(b"Name: val", 0).end, Parsed::Incomplete(Needed::Size(7)));
    assert_eq!(header(b"Name: val\r", 0).end, Parsed::Incomplete(Needed::Size(11)));
}

#[test]
fn lengths_are_digits_with_or_without_a_plus() {
    assert_eq!(read_length(b"123", 0, 3), Some(123));
    assert_eq!(read_length(b"+123", 0, 4), Some(123));
    assert_eq!(read_length(b"0", 0, 1), Some(0));
    assert_eq!(read_length(b"007", 0, 3), Some(7));
    assert_eq!(read_length(b"", 0, 0), None);
    assert_eq!(read_length(b"+", 0, 1), None);
    assert_eq!(read_length(b"++1", 0, 3), None);
    assert_eq!(read_length(b"-1", 0, 2), None);
    assert_eq!(read_length(b"12 ", 0, 3), None);
    assert_eq!(read_length(b"1e3", 0, 3), None);
    assert_eq!(read_length(b"99999999999999999999999", 0, 23), None);
}

#[test]
fn only_content_length_declares_a_length() {
    let input = b"Content-Length: 42\r\n";
    let line = header(input, 0);
    assert_eq!(length_of(input, 0, &line), Some(42));
    let input = b"Content-Length: many\r\n";
    let line = header(input, 0);
    assert_eq!(length_of(input, 0, &line), Some(0));
    let input = b"content-length: 42\r\n";
    let line = header(input, 0);
    assert_eq!(length_of(input, 0, &line), None);
    let input = b"Content-Length-X: 42\r\n";
    let line = header(input, 0);
    assert_eq!(length_of(input, 0, &line), None);
}

#[test]
fn header_lines_run_to_the_first_line_that_is_none() {
    let input = b"A: 1\r\nContent-Length: 7\r\nContent-Length: 9\r\n\r\nbody";
    assert_eq!(
        header_lines(input, 0),
        HeaderLines { end: Parsed::Done(44), declared: Some(7) }
    );
    assert_eq!(
        header_lines(b"A: 1\nB: 2\n", 0),
        HeaderLines { end: Parsed::Done(10), declared: None }
    );
    assert_eq!(header_lines(b"\r\n", 0).end, Parsed::Error);
    assert_eq!(header_lines(b"A: 1\nB", 0).end, Parsed::Incomplete(Needed::Size(6)));
    assert_eq!(header_lines(b"xxA: 1\nB:", 2).end, Parsed::Incomplete(Needed::Unknown));
    assert_eq!(header_lines(b"A: 1", 0).end, Parsed::Incomplete(Needed::Size(4)));
}

#[test]
fn block_ends_behind_the_empty_line() {
    assert_eq!(
        block(b"WARC/1.0\r\nContent-Length: 5\r\n\r\nhello"),
        Block { end: Parsed::Done(31), length: 5 }
    );
    assert_eq!(
        block(b"WARC/1.0\nA: b\n\n"),
        Block { end: Parsed::Done(15), length: 0 }
    );
    assert_eq!(block(b"WARC/1.0\r\n\r\n").end, Parsed::Error);
    assert_eq!(block(b"WARC/1.0\r\nA: b\r\nrest\n").end, Parsed::Error);
    assert_eq!(block(b"WARC/1.0\r\nA: b\r\nrest").end, Parsed::Incomplete(Needed::Size(17)));
    assert_eq!(block(b"WARC/1.0\r\nA: b\r\n").end, Parsed::Incomplete(Needed::Size(17)));
    assert_eq!(block(b"WARC/1.0\r\nA: b\r\n\r").end, Parsed::Incomplete(Needed::Size(18)));
    assert_eq!(block(b"WARC/1.0\r\nA: b").end, Parsed::Incomplete(Needed::Size(14)));
    assert_eq!(block(b"").end, Parsed::Incomplete(Needed::Size(1)));
}

#[test]
fn space_is_the_space_of_nom() {
    let inputs: [&[u8]; 9] =
        [b"", b" ", b"\t", b"x", b"  x", b" \t \tx ", b"\r\n", b"   ", b"a b"];
    for input in inputs {
        let ours = space(input, 0);
        let theirs = match nom::space(input) {
            nom::IResult::Done(rest, _) => Parsed::Done(input.len() - rest.len()),
            nom::IResult::Error(_) => Parsed::Error,
            nom::IResult::Incomplete(nom::Needed::Unknown) => Parsed::Incomplete(Needed::Unknown),
            nom::IResult::Incomplete(nom::Needed::Size(n)) => Parsed::Incomplete(Needed::Size(n)),
        };
        assert_eq!(ours, theirs);
    }
}

#[test]
fn tag_is_the_comparison_of_nom() {
    let inputs: [&[u8]; 10] = [
        b"", b"W", b"WA", b"WAR", b"WARC", b"WARC/1.0", b"WARX", b"XARC", b"warc", b"\r\nWARC",
    ];
    for input in inputs {
        for lit in ["WARC", "\r", "\n", "/", ":"] {
            let theirs = match nom::Compare::compare(&input, lit) {
                nom::CompareResult::Ok => Parsed::Done(lit.len()),
                nom::CompareResult::Incomplete => Parsed::Incomplete(Needed::Size(lit.len())),
                nom::CompareResult::Error => Parsed::Error,
            };
            assert_eq!(tag(input, 0, lit.as_bytes()), theirs);
        }
    }
}
