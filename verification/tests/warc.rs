use cabarrus::grammar::Needed;
use cabarrus::warc::{
    record, record_complete, ConsumerState, IResult, Input, Job, Move, Poll, ReadOutcome, State,
    StdinProducer, StdinProducerState, WarcConsumer, WarcStreamer, SIZE_LIMIT,
};

fn entry(payload: &[u8]) -> Vec<u8> {
    let mut bytes = b"WARC/1.0\r\nWARC-Type: conversion\r\n".to_vec();
    bytes.extend_from_slice(format!("Content-Length: {}\r\n\r\n", payload.len()).as_bytes());
    bytes.extend_from_slice(payload);
    bytes.extend_from_slice(b"\r\n\r\n");
    bytes
}

/// Runs a streamer over `input`, which is read in pieces of at most `piece`
/// bytes, and gives the records and the streamer as it ended.
fn drain(input: &[u8], capacity: usize, piece: usize) -> (Vec<String>, WarcStreamer) {
    let mut streamer = WarcStreamer::with_capacity(capacity).unwrap();
    let mut records = Vec::new();
    let mut at = 0;
    let mut reads = 0usize;
    loop {
        match streamer.next() {
            Poll::Read(max) => {
                let n = max.min(piece).min(input.len() - at);
                streamer.feed(ReadOutcome::Data(&input[at..at + n]));
                at += n;
                reads += 1;
                assert!(reads <= input.len() + 1000);
            }
            Poll::Record(text) => records.push(text),
            Poll::Finished => break,
        }
        assert_eq!(streamer.capacity(), capacity);
        assert!(streamer.buffered() <= capacity);
    }
    (records, streamer)
}

#[test]
fn record_takes_the_declared_payload() {
    let input = b"WARC/1.0\r\nContent-Length: 5\r\n\r\nhello\r\n\r\n";
    assert_eq!(record(input), IResult::Done(36, "hello".to_string()));
    assert_eq!(record_complete(input), IResult::Done(40, "hello".to_string()));
    let input = b"WARC/1.0\nContent-Length: 5\n\nhello\n\nWARC/1.0\n";
    assert_eq!(record(input), IResult::Done(33, "hello".to_string()));
    assert_eq!(record_complete(input), IResult::Done(35, "hello".to_string()));
}

#[test]
fn record_without_a_length_has_no_payload() {
    let input = b"WARC/1.0\r\nX: y\r\n\r\nrest";
    assert_eq!(record(input), IResult::Done(18, String::new()));
    assert_eq!(record_complete(input), IResult::Error);
    assert_eq!(
        record_complete(b"WARC/1.0\r\nX: y\r\n\r\n\r\n\r\n"),
        IResult::Done(22, String::new())
    );
    assert_eq!(
        record(b"WARC/1.0\r\nContent-Length: five\r\n\r\nhello"),
        IResult::Done(34, String::new())
    );
}

#[test]
fn record_asks_for_the_bytes_that_are_missing() {
    assert_eq!(
        record(b"WARC/1.0\r\nContent-Length: 50\r\n\r\nhello"),
        IResult::Incomplete(Needed::Size(45))
    );
    assert_eq!(
        record_complete(b"WARC/1.0\r\nContent-Length: 50\r\n\r\nhello"),
        IResult::Incomplete(Needed::Size(45))
    );
    assert_eq!(
        record_complete(b"WARC/1.0\r\nContent-Length: 5\r\n\r\nhello"),
        IResult::Incomplete(Needed::Size(37))
    );
    assert_eq!(
        record_complete(b"WARC/1.0\r\nContent-Length: 5\r\n\r\nhello\r\n"),
        IResult::Incomplete(Needed::Size(39))
    );
    assert_eq!(record_complete(b""), IResult::Incomplete(Needed::Size(1)));
    assert_eq!(record(b"WARC/1.0\r\nContent-Len"), IResult::Incomplete(Needed::Size(11)));
}

#[test]
fn record_rejects_what_is_none() {
    assert_eq!(record(b"garbage"), IResult::Error);
    assert_eq!(record_complete(b"XWARC/1.0\r\n"), IResult::Error);
    assert_eq!(record(b"WARC/1.0\r\n\r\n"), IResult::Error);
    assert_eq!(
        record_complete(b"WARC/1.0\r\nContent-Length: 5\r\n\r\nhello!\r\n\r\n"),
        IResult::Error
    );
}

#[test]
fn payload_that_is_not_utf8_is_patched() {
    let input = b"WARC/1.0\r\nContent-Length: 4\r\n\r\na\xffb\xfe\r\n\r\n";
    assert_eq!(record_complete(input), IResult::Done(39, "a\u{fffd}b\u{fffd}".to_string()));
    let input = b"WARC/1.0\r\nContent-Length: 5\r\n\r\ncaf\xc3\xa9\r\n\r\n";
    assert_eq!(record_complete(input), IResult::Done(40, "caf\u{e9}".to_string()));
}

#[test]
fn header_value_that_is_not_utf8_is_no_header() {
    let input = b"WARC/1.0\r\nName: \xff\r\nContent-Length: 0\r\n\r\n\r\n\r\n";
    assert_eq!(record_complete(input), IResult::Error);
    let input = b"WARC/1.0\r\nName: \xc3\xa9\r\nContent-Length: 0\r\n\r\n\r\n\r\n";
    assert_eq!(record_complete(input), IResult::Done(45, String::new()));
}

#[test]
fn consumer_follows_the_state_machine() {
    let mut consumer = WarcConsumer::new();
    assert_eq!(consumer.parser_state(), State::Beginning);
    assert_eq!(consumer.state(), ConsumerState::Continue(Move::Consume(0)));
    assert_eq!(
        consumer.handle(Input::Element(b"junk")),
        ConsumerState::Continue(Move::Consume(1))
    );
    assert_eq!(consumer.parser_state(), State::Beginning);
    assert_eq!(
        consumer.handle(Input::Element(b"WARC/1.0\r\nContent-Length: 9\r\n\r\n")),
        ConsumerState::Continue(Move::Await(Needed::Size(9)))
    );
    assert_eq!(consumer.take_record(), None);
    let whole = entry(b"payload");
    assert_eq!(
        consumer.handle(Input::Element(&whole)),
        ConsumerState::Continue(Move::Consume(whole.len()))
    );
    assert_eq!(consumer.parser_state(), State::Beginning);
    assert_eq!(consumer.take_record(), Some("payload".to_string()));
    assert_eq!(consumer.take_record(), None);
    assert_eq!(
        consumer.handle(Input::Eof(Some(b"WARC/1.0\r\nContent-Length: 9\r\n\r\n"))),
        ConsumerState::Continue(Move::Consume(whole.len()))
    );
    assert_eq!(consumer.parser_state(), State::End);
    consumer.handle(Input::Element(&whole));
    assert_eq!(consumer.parser_state(), State::Done);
    assert_eq!(consumer.take_record(), None);
    assert_eq!(consumer.handle(Input::Element(&whole)), ConsumerState::Error);
    assert_eq!(consumer.parser_state(), State::Error);
    assert_eq!(consumer.handle(Input::Empty), ConsumerState::Error);
    assert_eq!(consumer.parser_state(), State::Error);
}

#[test]
fn consumer_is_done_when_nothing_is_left() {
    for input in [Input::Empty, Input::Eof(None)] {
        let mut consumer = WarcConsumer::new();
        assert_eq!(consumer.handle(input), ConsumerState::Error);
        assert_eq!(consumer.parser_state(), State::Done);
    }
    let mut consumer = WarcConsumer::new();
    let whole = entry(b"last");
    consumer.handle(Input::Eof(Some(&whole)));
    assert_eq!(consumer.parser_state(), State::Beginning);
    assert_eq!(consumer.take_record(), Some("last".to_string()));
    assert_eq!(
        consumer.handle(Input::Eof(Some(b"x"))),
        ConsumerState::Continue(Move::Consume(1))
    );
}

#[test]
fn producer_moves_and_drops_bytes() {
    let mut producer = StdinProducer::new(8).unwrap();
    assert_eq!((producer.capacity(), producer.len()), (8, 0));
    assert_eq!(producer.source(), StdinProducerState::Normal);
    assert_eq!(producer.job(), Job::Idle);
    assert_eq!(producer.wants(), None);
    assert_eq!(producer.protected_read(ReadOutcome::Data(b"abcdef")), 6);
    assert_eq!(producer.bytes(), b"abcdef");
    assert_eq!(producer.consume(2), 2);
    assert_eq!(producer.bytes(), b"cdef");
    producer.shift();
    assert_eq!(producer.bytes(), b"cdef");
    assert_eq!(producer.protected_read(ReadOutcome::Data(b"ghij")), 4);
    assert_eq!(producer.bytes(), b"cdefghij");
    assert_eq!(producer.len(), 8);
    assert_eq!(producer.source(), StdinProducerState::Normal);
    assert_eq!(producer.job(), Job::Idle);
}

#[test]
fn producer_remembers_the_end_and_failures() {
    let mut producer = StdinProducer::new(8).unwrap();
    assert_eq!(producer.protected_read(ReadOutcome::Data(b"ab")), 2);
    assert_eq!(producer.protected_read(ReadOutcome::Data(b"")), 0);
    assert_eq!(producer.source(), StdinProducerState::Eof);
    assert_eq!(producer.bytes(), b"ab");
    assert_eq!(producer.protected_read(ReadOutcome::Failed), 0);
    assert_eq!(producer.source(), StdinProducerState::Error);
    assert_eq!(producer.bytes(), b"ab");
}

#[test]
fn producer_waits_to_be_filled() {
    let mut producer = StdinProducer::new(8).unwrap();
    producer.protected_read(ReadOutcome::Data(b"abcdef"));
    producer.consume(4);
    assert_eq!(producer.await_input(), 6);
    assert_eq!(producer.job(), Job::Fill { bind: None });
    assert_eq!(producer.wants(), Some(6));
    assert_eq!(producer.bytes(), b"ef");
    producer.supply(ReadOutcome::Data(b"gh"));
    assert_eq!(producer.job(), Job::Fill { bind: None });
    assert_eq!(producer.wants(), Some(4));
    producer.supply(ReadOutcome::Data(b"ijkl"));
    assert_eq!(producer.job(), Job::Ready);
    assert_eq!(producer.wants(), None);
    assert_eq!(producer.bytes(), b"efghijkl");
    assert_eq!(producer.await_input(), 0);
    assert_eq!(producer.job(), Job::Ready);
    producer.supply(ReadOutcome::Data(b""));
    assert_eq!(producer.source(), StdinProducerState::Normal);
    assert_eq!(producer.bytes(), b"efghijkl");
}

#[test]
fn producer_consumes_beyond_what_it_holds() {
    let mut producer = StdinProducer::new(4).unwrap();
    producer.protected_read(ReadOutcome::Data(b"abc"));
    assert_eq!(producer.consume(3), 3);
    assert_eq!(producer.job(), Job::Fill { bind: None });
    assert_eq!(producer.len(), 0);
    producer.supply(ReadOutcome::Data(b"defg"));
    assert_eq!(producer.job(), Job::Ready);
    assert_eq!(producer.consume(10), 4);
    assert_eq!(producer.job(), Job::Skip { skipped: 0, amount: 6 });
    assert_eq!(producer.wants(), Some(4));
    assert_eq!(producer.len(), 0);
    producer.supply(ReadOutcome::Data(b"1234"));
    assert_eq!(producer.job(), Job::Skip { skipped: 4, amount: 6 });
    assert_eq!(producer.len(), 0);
    producer.supply(ReadOutcome::Data(b"5678"));
    assert_eq!(producer.job(), Job::Ready);
    assert_eq!(producer.bytes(), b"78");
    assert_eq!(producer.source(), StdinProducerState::Normal);
}

#[test]
fn producer_skips_to_the_end_of_the_input() {
    let mut producer = StdinProducer::new(4).unwrap();
    producer.protected_read(ReadOutcome::Data(b"ab"));
    assert_eq!(producer.skip_through(5), 2);
    assert_eq!(producer.job(), Job::Skip { skipped: 0, amount: 5 });
    producer.supply(ReadOutcome::Data(b"cde"));
    assert_eq!(producer.job(), Job::Skip { skipped: 3, amount: 5 });
    producer.supply(ReadOutcome::Data(b""));
    assert_eq!(producer.job(), Job::Ready);
    assert_eq!(producer.len(), 0);
    assert_eq!(producer.source(), StdinProducerState::Eof);
    let mut producer = StdinProducer::new(4).unwrap();
    producer.protected_read(ReadOutcome::Data(b"ab"));
    assert_eq!(producer.skip_through(0), 2);
    assert_eq!(producer.job(), Job::Idle);
    assert_eq!(producer.len(), 0);
    assert_eq!(producer.skip_through(2), 0);
    producer.supply(ReadOutcome::Data(b"wxyz"));
    assert_eq!(producer.job(), Job::Ready);
    assert_eq!(producer.bytes(), b"yz");
}

#[test]
fn apply_begins_the_move_and_shows_the_buffer() {
    let mut producer = StdinProducer::new(64).unwrap();
    let mut consumer = WarcConsumer::new();
    assert_eq!(producer.apply(&mut consumer), Some(64));
    assert_eq!(producer.apply(&mut consumer), Some(64));
    assert_eq!(consumer.state(), ConsumerState::Continue(Move::Consume(0)));
    let whole = entry(b"hi");
    producer.supply(ReadOutcome::Data(&whole));
    assert_eq!(producer.apply(&mut consumer), Some(64 - whole.len()));
    producer.supply(ReadOutcome::Data(b""));
    assert_eq!(producer.job(), Job::Ready);
    assert_eq!(producer.apply(&mut consumer), None);
    assert_eq!(producer.job(), Job::Idle);
    assert_eq!(consumer.take_record(), Some("hi".to_string()));
    assert_eq!(consumer.state(), ConsumerState::Continue(Move::Consume(whole.len())));
    assert_eq!(producer.apply(&mut consumer), Some(64));
    producer.supply(ReadOutcome::Data(b""));
    assert_eq!(producer.apply(&mut consumer), None);
    assert_eq!(consumer.parser_state(), State::Done);
    assert_eq!(producer.apply(&mut consumer), None);
    assert_eq!(consumer.parser_state(), State::Done);
}

#[test]
fn streamer_has_a_buffer_of_one_mib() {
    let mut streamer = WarcStreamer::new().unwrap();
    assert_eq!(SIZE_LIMIT, 1 << 20);
    assert_eq!(streamer.capacity(), 1 << 20);
    assert_eq!(streamer.buffered(), 0);
    assert_eq!(streamer.state(), State::Beginning);
    assert_eq!(streamer.next(), Poll::Read(1 << 20));
    streamer.feed(ReadOutcome::Data(b""));
    assert_eq!(streamer.next(), Poll::Finished);
    assert_eq!(streamer.state(), State::Done);
    assert_eq!(streamer.next(), Poll::Finished);
    assert_eq!(streamer.state(), State::Done);
}

#[test]
fn streamer_yields_records_in_order() {
    let mut input = Vec::new();
    for text in ["first", "", "third record\nwith lines"] {
        input.extend_from_slice(&entry(text.as_bytes()));
    }
    for (capacity, piece) in [(1 << 20, 1 << 20), (256, 256), (256, 7), (128, 1), (100, 33)] {
        let (records, streamer) = drain(&input, capacity, piece);
        assert_eq!(records, vec!["first", "", "third record\nwith lines"]);
        assert_eq!(streamer.state(), State::Done);
        assert_eq!(streamer.discarded(), 0);
    }
}

#[test]
fn streamer_steps_over_a_byte_of_garbage() {
    for garbage in [b'X', b'W', b'\r', b'\n', 0u8, 0xffu8] {
        let mut input = entry(b"one");
        input.push(garbage);
        input.extend_from_slice(&entry(b"two"));
        for (capacity, piece) in [(1 << 20, 1 << 20), (128, 128), (128, 5), (64, 1)] {
            let (records, streamer) = drain(&input, capacity, piece);
            assert_eq!(records, vec!["one", "two"]);
            assert_eq!(streamer.state(), State::Done);
        }
    }
}

#[test]
fn streamer_steps_over_garbage_before_and_between() {
    let mut input = b"HTTP/1.1 200 OK\r\n\r\n".to_vec();
    input.extend_from_slice(&entry(b"one"));
    input.extend_from_slice(b"WARC/1.0\r\nbroken header\r\n\r\n");
    input.extend_from_slice(&entry(b"two"));
    let (records, _) = drain(&input, 256, 16);
    assert_eq!(records, vec!["one", "two"]);
}

#[test]
fn streamer_loses_a_record_that_the_input_cuts_off() {
    let mut input = entry(b"whole");
    input.extend_from_slice(b"WARC/1.0\r\nContent-Length: 50\r\n\r\ntoo short");
    let (records, streamer) = drain(&input, 256, 256);
    assert_eq!(records, vec!["whole"]);
    assert_eq!(streamer.state(), State::Done);
    let (records, streamer) = drain(b"", 256, 256);
    assert!(records.is_empty());
    assert_eq!(streamer.state(), State::Done);
}

#[test]
fn streamer_ends_when_a_read_fails() {
    let mut streamer = WarcStreamer::with_capacity(64).unwrap();
    assert_eq!(streamer.next(), Poll::Read(64));
    streamer.feed(ReadOutcome::Failed);
    assert_eq!(streamer.next(), Poll::Finished);
    assert_eq!(streamer.next(), Poll::Finished);
    let mut streamer = WarcStreamer::with_capacity(64).unwrap();
    assert_eq!(streamer.next(), Poll::Read(64));
    streamer.feed(ReadOutcome::Data(&entry(b"kept")));
    assert!(matches!(streamer.next(), Poll::Read(_)));
    streamer.feed(ReadOutcome::Failed);
    assert_eq!(streamer.next(), Poll::Finished);
}

#[test]
fn streamer_ignores_what_it_did_not_ask_for() {
    let mut streamer = WarcStreamer::with_capacity(64).unwrap();
    streamer.feed(ReadOutcome::Data(&entry(b"early")));
    assert_eq!(streamer.buffered(), 0);
    assert_eq!(streamer.next(), Poll::Read(64));
}

#[test]
fn buffer_never_grows_over_ten_thousand_records() {
    let mut input = Vec::new();
    for i in 0..10000 {
        input.extend_from_slice(&entry(format!("record number {}", i).as_bytes()));
    }
    let (records, streamer) = drain(&input, 1024, 1024);
    assert_eq!(records.len(), 10000);
    for (i, text) in records.iter().enumerate() {
        assert_eq!(text, &format!("record number {}", i));
    }
    assert_eq!(streamer.capacity(), 1024);
    assert_eq!(streamer.discarded(), 0);
    let (records, _) = drain(&input, 1024, 100);
    assert_eq!(records.len(), 10000);
}

#[test]
fn record_larger_than_the_buffer_is_given_up() {
    let mut input = entry(b"before");
    input.extend_from_slice(&entry(&[b'x'; 200]));
    input.extend_from_slice(&entry(b"after"));
    for piece in [80usize, 10, 1] {
        let (records, streamer) = drain(&input, 80, piece);
        assert_eq!(records, vec!["before", "after"]);
        assert_eq!(streamer.discarded(), 1);
        assert_eq!(streamer.capacity(), 80);
    }
}

#[test]
fn record_that_declares_a_huge_length_is_given_up() {
    let mut input = b"WARC/1.0\r\nContent-Length: 999999999\r\n\r\n".to_vec();
    input.extend_from_slice(&vec![b'x'; 2 << 20]);
    input.extend_from_slice(b"\r\n\r\n");
    input.extend_from_slice(&entry(b"never seen"));
    let (records, streamer) = drain(&input, SIZE_LIMIT, 65536);
    assert!(records.is_empty());
    assert_eq!(streamer.discarded(), 1);
    assert_eq!(streamer.state(), State::Done);
    assert_eq!(streamer.capacity(), SIZE_LIMIT);
}

#[test]
fn length_beyond_the_machine_word_counts_as_none() {
    let mut input = b"WARC/1.0\r\nContent-Length: 99999999999999999999999\r\n\r\n\r\n\r\n".to_vec();
    input.extend_from_slice(&entry(b"next"));
    let (records, _) = drain(&input, 256, 256);
    assert_eq!(records, vec!["", "next"]);
}

#[test]
fn streamer_without_a_buffer_ends_at_once() {
    let (records, streamer) = drain(&entry(b"unseen"), 0, 16);
    assert!(records.is_empty());
    assert_eq!(streamer.state(), State::Done);
}
