//! A reader of archived web records from a stream of bytes that may be
//! damaged: it yields the payload of every record it can make out and steps
//! over what it cannot.
//!
//! Nothing here reads. A [`StdinProducer`] is a buffer of fixed capacity that
//! says when it wants input and how much; whoever owns the source reads and
//! calls [`StdinProducer::supply`]. A [`WarcConsumer`] looks at the buffer and
//! says what to do with it next. A [`WarcStreamer`] holds one of each and
//! turns them into a sequence of records.

use crate::grammar::{
    block, cr, header_block, link, next_tag, parse_complete, parse_record, record_payload, Needed,
    Parsed, CR, LF,
};
use crate::grammar_laws::{lemma_plain_record, plain_record};
use crate::text::{lossy_text, to_text};
use vstd::prelude::*;
use vstd::slice::slice_subrange;
use vstd::utf8::{decode_utf8, valid_utf8};

verus! {

/// The error of std's input and output. Nothing in this library makes one;
/// the constructors that name it always succeed.
#[verifier::external_type_specification]
#[verifier::external_body]
pub struct ExIoError(std::io::Error);

/// The capacity of the buffer of a [`WarcStreamer`]: one MiB.
pub const SIZE_LIMIT: usize = 1048576;

/// A record: its payload as text. The headers are not kept.
pub type Record = String;

/// What parsing a record came to.
#[derive(Debug, Clone, PartialEq, Eq)]
pub enum IResult {
    /// A record, and the position in the input behind it.
    Done(usize, Record),
    /// The input does not start with a record.
    Error,
    /// The input ends within what may be a record.
    Incomplete(Needed),
}

/// Whether `r` is the answer `parsed` with, where that is done, the text of
/// `payload`.
pub open spec fn answers(r: IResult, parsed: Parsed, payload: Seq<u8>) -> bool {
    match r {
        IResult::Done(rest, text) => {
            &&& parsed == Parsed::Done(rest)
            &&& text@ == lossy_text(payload)
            &&& valid_utf8(payload) ==> text@ == decode_utf8(payload)
        },
        IResult::Error => parsed == Parsed::Error,
        IResult::Incomplete(n) => parsed == Parsed::Incomplete(n),
    }
}

/// Parses the record that `input` starts with, without the empty lines that
/// follow its payload. The payload is as long as the first `Content-Length`
/// header says, and empty without one. Where the input ends within the
/// payload, the answer is incomplete by the number of bytes that are missing.
pub fn record(input: &[u8]) -> (r: IResult)
    ensures
        answers(r, parse_record(input@), record_payload(input@)),
        r matches IResult::Done(rest, _) ==> rest <= input.len(),
{
    let found = block(input);
    match found.end {
        Parsed::Done(p) => {
            let rest = input.len() - p;
            if found.length > rest {
                IResult::Incomplete(Needed::Size(found.length - rest))
            } else {
                let payload = slice_subrange(input, p, p + found.length);
                IResult::Done(p + found.length, to_text(payload))
            }
        },
        Parsed::Incomplete(n) => IResult::Incomplete(n),
        Parsed::Error => IResult::Error,
    }
}

/// Parses the whole record that `input` starts with: the record and the two
/// ends of line behind its payload.
pub fn record_complete(input: &[u8]) -> (r: IResult)
    ensures
        answers(r, parse_complete(input@), record_payload(input@)),
        r matches IResult::Done(rest, _) ==> 0 < rest <= input.len(),
{
    reveal(parse_complete);
    let cr: [u8; 1] = [CR];
    let lf: [u8; 1] = [LF];
    assert(cr@ =~= crate::grammar::cr());
    assert(lf@ =~= crate::grammar::lf());
    let (entry, text) = match record(input) {
        IResult::Done(rest, text) => (Parsed::Done(rest), Some(text)),
        IResult::Error => (Parsed::Error, None),
        IResult::Incomplete(n) => (Parsed::Incomplete(n), None),
    };
    let r = link(0, 0, entry, false);
    let r = next_tag(input, 0, r, cr.as_slice(), true);
    let r = next_tag(input, 0, r, lf.as_slice(), false);
    let r = next_tag(input, 0, r, cr.as_slice(), true);
    let r = next_tag(input, 0, r, lf.as_slice(), false);
    match (r, text) {
        (Parsed::Done(rest), Some(text)) => IResult::Done(rest, text),
        (Parsed::Done(_), None) => IResult::Error,
        (Parsed::Incomplete(n), _) => IResult::Incomplete(n),
        (Parsed::Error, _) => IResult::Error,
    }
}

/// Where the parser of a stream stands.
#[derive(PartialEq, Eq, Debug, Clone, Copy)]
pub enum State {
    /// At the start of what may be a record.
    Beginning,
    /// The input ended within a record.
    End,
    /// The input is used up.
    Done,
    /// The parser was asked to go on after the end.
    Error,
}

/// What a consumer tells the producer to do with its buffer.
#[derive(PartialEq, Eq, Debug, Clone, Copy)]
pub enum Move {
    /// Drop this many bytes from the front.
    Consume(usize),
    /// Get more input; the consumer asked for this much.
    Await(Needed),
}

/// Whether a consumer goes on.
#[derive(PartialEq, Eq, Debug, Clone, Copy)]
pub enum ConsumerState {
    /// It does, after this move.
    Continue(Move),
    /// It has stopped.
    Error,
}

/// What a producer shows a consumer.
#[derive(Debug, Clone, Copy)]
pub enum Input<'a> {
    /// What the buffer holds; more may come.
    Element(&'a [u8]),
    /// Nothing.
    Empty,
    /// What the buffer holds, if it holds anything; no more will come.
    Eof(Option<&'a [u8]>),
}

/// An [`Input`] with the bytes as a sequence.
pub enum InputModel {
    Element(Seq<u8>),
    Empty,
    Eof(Option<Seq<u8>>),
}

impl<'a> View for Input<'a> {
    type V = InputModel;

    open spec fn view(&self) -> InputModel {
        match *self {
            Input::Element(bytes) => InputModel::Element(bytes@),
            Input::Empty => InputModel::Empty,
            Input::Eof(Some(bytes)) => InputModel::Eof(Some(bytes@)),
            Input::Eof(None) => InputModel::Eof(None),
        }
    }
}

/// A [`WarcConsumer`] as a value.
pub struct ConsumerModel {
    pub c_state: ConsumerState,
    pub state: State,
    pub last_record: Option<Seq<char>>,
}

/// What a consumer that is at the start of a record makes of the bytes it is
/// shown: a record is taken, and its bytes are to be dropped; one byte is to
/// be dropped where the bytes do not start a record; more input is asked for
/// where they end too early, unless none will come.
pub open spec fn parsed_bytes(c: ConsumerModel, bytes: Seq<u8>, last: bool) -> ConsumerModel {
    match parse_complete(bytes) {
        Parsed::Error => ConsumerModel {
            c_state: ConsumerState::Continue(Move::Consume(1)),
            state: State::Beginning,
            last_record: None,
        },
        Parsed::Incomplete(n) => if last {
            ConsumerModel { c_state: c.c_state, state: State::End, last_record: None }
        } else {
            ConsumerModel {
                c_state: ConsumerState::Continue(Move::Await(n)),
                state: State::Beginning,
                last_record: None,
            }
        },
        Parsed::Done(rest) => ConsumerModel {
            c_state: ConsumerState::Continue(Move::Consume(rest)),
            state: State::Beginning,
            last_record: Some(lossy_text(record_payload(bytes))),
        },
    }
}

/// The consumer after it was shown `input`.
pub open spec fn handled(c: ConsumerModel, input: InputModel) -> ConsumerModel {
    match c.state {
        State::Beginning => match input {
            InputModel::Empty | InputModel::Eof(None) => ConsumerModel {
                c_state: ConsumerState::Error,
                state: State::Done,
                last_record: None,
            },
            InputModel::Element(bytes) => parsed_bytes(c, bytes, false),
            InputModel::Eof(Some(bytes)) => parsed_bytes(c, bytes, true),
        },
        State::End => ConsumerModel { c_state: c.c_state, state: State::Done, last_record: None },
        State::Done | State::Error => ConsumerModel {
            c_state: ConsumerState::Error,
            state: State::Error,
            last_record: None,
        },
    }
}

/// A consumer at the start of a record.
pub open spec fn at_beginning(c: ConsumerModel) -> bool {
    c.state is Beginning
}

/// Two records with a byte of garbage between them, which is no end of line,
/// are taken as two records, in their order. A consumer that is shown the
/// bytes takes the first record and asks for its bytes to be dropped; shown
/// what is left, it takes nothing and asks for one byte to be dropped; shown
/// what is left then, it takes the second record and asks for its bytes to be
/// dropped. This holds whatever follows the second record, and whether or not
/// more input will come.
pub proof fn lemma_two_records(
    c: ConsumerModel,
    first: Seq<u8>,
    garbage: u8,
    second: Seq<u8>,
    rest: Seq<u8>,
    last: bool,
)
    requires
        at_beginning(c),
        parse_complete(first) == Parsed::Done(first.len() as usize),
        parse_complete(second) == Parsed::Done(second.len() as usize),
        garbage != 13 && garbage != 10,
        first.len() + 1 + second.len() + rest.len() <= usize::MAX,
    ensures
        ({
            let s = first + seq![garbage] + second + rest;
            let c1 = parsed_bytes(c, s, last);
            let c2 = parsed_bytes(c1, s.skip(first.len() as int), last);
            let c3 = parsed_bytes(c2, s.skip((first.len() + 1) as int), last);
            &&& c1 == (ConsumerModel {
                c_state: ConsumerState::Continue(Move::Consume(first.len() as usize)),
                state: State::Beginning,
                last_record: Some(lossy_text(record_payload(first))),
            })
            &&& c2 == (ConsumerModel {
                c_state: ConsumerState::Continue(Move::Consume(1)),
                state: State::Beginning,
                last_record: None,
            })
            &&& c3 == (ConsumerModel {
                c_state: ConsumerState::Continue(Move::Consume(second.len() as usize)),
                state: State::Beginning,
                last_record: Some(lossy_text(record_payload(second))),
            })
        }),
{
    crate::grammar_laws::lemma_resynchronises(first, garbage, second, rest);
}

/// Two plain records with a byte of garbage between them, which is no end of
/// line, give the two payloads that were written, in their order, and nothing
/// between them.
pub proof fn lemma_two_plain_records(
    c: ConsumerModel,
    one: Seq<u8>,
    garbage: u8,
    two: Seq<u8>,
    rest: Seq<u8>,
    last: bool,
)
    requires
        at_beginning(c),
        garbage != 13 && garbage != 10,
        plain_record(one).len() + 1 + plain_record(two).len() + rest.len() <= usize::MAX,
    ensures
        ({
            let first = plain_record(one);
            let s = first + seq![garbage] + plain_record(two) + rest;
            let c1 = parsed_bytes(c, s, last);
            let c2 = parsed_bytes(c1, s.skip(first.len() as int), last);
            let c3 = parsed_bytes(c2, s.skip((first.len() + 1) as int), last);
            &&& c1.last_record == Some(lossy_text(one))
            &&& c1.c_state == ConsumerState::Continue(Move::Consume(first.len() as usize))
            &&& c2.last_record is None
            &&& c2.c_state == ConsumerState::Continue(Move::Consume(1))
            &&& c3.last_record == Some(lossy_text(two))
            &&& c3.c_state == ConsumerState::Continue(
                Move::Consume(plain_record(two).len() as usize),
            )
        }),
{
    lemma_plain_record(one, Seq::<u8>::empty());
    lemma_plain_record(two, Seq::<u8>::empty());
    lemma_two_records(c, plain_record(one), garbage, plain_record(two), rest, last);
}

/// The parser of a stream of records: it is shown what a buffer holds, takes
/// at most one record from it, and says what to do with the buffer next.
pub struct WarcConsumer {
    c_state: ConsumerState,
    state: State,
    last_record: Option<Record>,
}

impl View for WarcConsumer {
    type V = ConsumerModel;

    closed spec fn view(&self) -> ConsumerModel {
        ConsumerModel {
            c_state: self.c_state,
            state: self.state,
            last_record: match self.last_record {
                Some(text) => Some(text@),
                None => None,
            },
        }
    }
}

impl WarcConsumer {
    /// A consumer at the start of a stream: it asks for nothing to be dropped.
    pub fn new() -> (consumer: WarcConsumer)
        ensures
            consumer@ == (ConsumerModel {
                c_state: ConsumerState::Continue(Move::Consume(0)),
                state: State::Beginning,
                last_record: None,
            }),
    {
        WarcConsumer {
            state: State::Beginning,
            c_state: ConsumerState::Continue(Move::Consume(0)),
            last_record: None,
        }
    }

    /// What the consumer asks of the producer.
    pub fn state(&self) -> (c_state: ConsumerState)
        ensures
            c_state == self@.c_state,
    {
        self.c_state
    }

    /// Where the parser stands.
    pub fn parser_state(&self) -> (state: State)
        ensures
            state == self@.state,
    {
        self.state
    }

    /// Takes the record that the consumer took last, if nobody took it yet.
    pub fn take_record(&mut self) -> (text: Option<Record>)
        ensures
            final(self)@ == (ConsumerModel { last_record: None, ..old(self)@ }),
            match text {
                Some(t) => old(self)@.last_record == Some(t@),
                None => old(self)@.last_record is None,
            },
    {
        self.last_record.take()
    }

    /// Shows the consumer what the buffer holds.
    pub fn handle(&mut self, input: Input) -> (c_state: ConsumerState)
        ensures
            final(self)@ == handled(old(self)@, input@),
            c_state == final(self)@.c_state,
    {
        self.last_record = None;
        match self.state {
            State::Beginning => {
                let (bytes, last) = match input {
                    Input::Empty | Input::Eof(None) => {
                        self.state = State::Done;
                        self.c_state = ConsumerState::Error;
                        return self.c_state;
                    },
                    Input::Element(bytes) => (bytes, false),
                    Input::Eof(Some(bytes)) => (bytes, true),
                };
                match record_complete(bytes) {
                    IResult::Error => {
                        self.c_state = ConsumerState::Continue(Move::Consume(1));
                    },
                    IResult::Incomplete(n) => {
                        if last {
                            self.state = State::End;
                        } else {
                            self.c_state = ConsumerState::Continue(Move::Await(n));
                        }
                    },
                    IResult::Done(rest, entry) => {
                        self.last_record = Some(entry);
                        self.c_state = ConsumerState::Continue(Move::Consume(rest));
                    },
                }
            },
            State::End => {
                self.state = State::Done;
            },
            State::Done | State::Error => {
                self.state = State::Error;
                self.c_state = ConsumerState::Error;
            },
        }
        self.c_state
    }
}

/// Whether the source of a producer still gives.
#[derive(Debug, Copy, Clone, PartialEq, Eq)]
pub enum StdinProducerState {
    /// It does.
    Normal,
    /// A read failed.
    Error,
    /// A read brought nothing: the source is used up.
    Eof,
}

/// How a read that the producer wanted went.
#[derive(Debug, Clone, Copy)]
pub enum ReadOutcome<'a> {
    /// It failed.
    Failed,
    /// It brought these bytes; none, where the source is used up.
    Data(&'a [u8]),
}

impl<'a> View for ReadOutcome<'a> {
    type V = Option<Seq<u8>>;

    open spec fn view(&self) -> Option<Seq<u8>> {
        match *self {
            ReadOutcome::Failed => None,
            ReadOutcome::Data(bytes) => Some(bytes@),
        }
    }
}

/// What a producer is waiting for.
#[derive(Debug, Copy, Clone, PartialEq, Eq)]
pub enum Job {
    /// Nothing: the consumer's next move can be made.
    Idle,
    /// Input to fill the buffer up. Where `bind` is set, nothing has come yet,
    /// and if the next read brings nothing either, `bind` bytes are to be
    /// dropped: the buffer cannot hold what the consumer asked for.
    Fill { bind: Option<usize> },
    /// Input to throw away: `skipped` of `amount` bytes went by so far.
    Skip { skipped: usize, amount: usize },
    /// Nothing any more: the consumer's move is made, and the consumer is to be
    /// shown the buffer.
    Ready,
}

/// A [`StdinProducer`] as a value: its capacity, the bytes it holds, which
/// start at `start` in its storage, and what it does.
pub struct Buffer {
    pub size: usize,
    pub start: usize,
    pub window: Seq<u8>,
    pub state: StdinProducerState,
    pub job: Job,
    pub discarded: usize,
}

/// Whether `b` is a buffer that can be: the bytes it holds lie within its
/// capacity.
pub open spec fn buffer_ok(b: Buffer) -> bool {
    &&& b.start + b.window.len() <= b.size
    &&& b.job matches Job::Skip { skipped, amount } ==> skipped < amount
}

/// How many bytes fit behind the bytes that `b` holds.
pub open spec fn room(b: Buffer) -> int {
    b.size - b.start - b.window.len()
}

/// The buffer with its bytes moved to the front of the storage.
pub open spec fn shifted(b: Buffer) -> Buffer {
    Buffer { start: 0, ..b }
}

/// How many bytes a read brought.
pub open spec fn taken(outcome: Option<Seq<u8>>) -> nat {
    match outcome {
        None => 0,
        Some(bytes) => bytes.len(),
    }
}

/// The buffer after a read: what it brought stands behind what was there. A
/// read that failed and a read that brought nothing are remembered.
pub open spec fn took(b: Buffer, outcome: Option<Seq<u8>>) -> Buffer {
    match outcome {
        None => Buffer { state: StdinProducerState::Error, ..b },
        Some(bytes) => Buffer {
            window: b.window + bytes,
            state: if bytes.len() == 0 {
                StdinProducerState::Eof
            } else {
                b.state
            },
            ..b
        },
    }
}

/// The buffer after it was told to wait for more input: its bytes are at the
/// front, and it waits for a read unless it is full.
pub open spec fn awaiting(b: Buffer) -> Buffer {
    if b.window.len() < b.size {
        Buffer { start: 0, job: Job::Fill { bind: None }, ..b }
    } else {
        Buffer { start: 0, ..b }
    }
}

/// The buffer after it was told to throw away what it holds and `amount`
/// bytes of the input that follows.
pub open spec fn skipping(b: Buffer, amount: usize) -> Buffer {
    Buffer {
        start: 0,
        window: Seq::<u8>::empty(),
        job: if amount > 0 {
            Job::Skip { skipped: 0, amount }
        } else {
            b.job
        },
        ..b
    }
}

/// The buffer after it was told to drop `amount` bytes from its front: fewer
/// than it holds are dropped at once; with exactly as many it is empty and
/// waits to be filled; with more it throws away what it holds and as much of
/// the input that follows as is missing.
pub open spec fn dropped(b: Buffer, amount: usize) -> Buffer {
    let length = b.window.len();
    if amount < length {
        Buffer { start: (b.start + amount) as usize, window: b.window.skip(amount as int), ..b }
    } else if amount == length {
        Buffer {
            start: 0,
            window: Seq::<u8>::empty(),
            job: if b.size > 0 {
                Job::Fill { bind: None }
            } else {
                b.job
            },
            ..b
        }
    } else {
        skipping(b, (amount - length) as usize)
    }
}

/// How many bytes a read may bring that the buffer waits for, if it waits for
/// one.
pub open spec fn wanted(b: Buffer) -> Option<usize> {
    match b.job {
        Job::Fill { .. } => Some(room(b) as usize),
        Job::Skip { .. } => Some(b.size),
        _ => None,
    }
}

/// Whether the buffer waits for a read.
pub open spec fn waits(b: Buffer) -> bool {
    b.job is Fill || b.job is Skip
}

/// The buffer after it found that it cannot hold what the consumer asked for:
/// the loss is counted, and `amount` bytes are dropped.
pub open spec fn bound(b: Buffer, amount: usize) -> Buffer {
    dropped(
        Buffer {
            discarded: if b.discarded < usize::MAX {
                (b.discarded + 1) as usize
            } else {
                b.discarded
            },
            ..b
        },
        amount,
    )
}

/// The buffer after the read it waited for. While it fills up, it goes on
/// waiting as long as the reads bring something and there is room. While it
/// throws input away, it goes on waiting until `amount` bytes went by or the
/// input ends; the bytes that a read brought beyond those are kept.
pub open spec fn supplied(b: Buffer, outcome: Option<Seq<u8>>) -> Buffer {
    match b.job {
        Job::Fill { bind } => {
            let t = took(b, outcome);
            if room(t) > 0 && taken(outcome) != 0 {
                Buffer { job: Job::Fill { bind: None }, ..t }
            } else if bind is Some && taken(outcome) == 0 {
                bound(Buffer { job: Job::Ready, ..t }, bind->Some_0)
            } else {
                Buffer { job: Job::Ready, ..t }
            }
        },
        Job::Skip { skipped, amount } => {
            let t = took(Buffer { start: 0, window: Seq::<u8>::empty(), ..b }, outcome);
            let n = taken(outcome);
            let remaining = amount - skipped;
            if n == 0 {
                Buffer { job: Job::Ready, ..t }
            } else if n >= remaining {
                Buffer {
                    start: remaining as usize,
                    window: t.window.skip(remaining),
                    job: Job::Ready,
                    ..t
                }
            } else {
                Buffer {
                    window: Seq::<u8>::empty(),
                    job: Job::Skip { skipped: (skipped + n) as usize, amount },
                    ..t
                }
            }
        },
        _ => b,
    }
}

/// How many bytes to drop where the buffer is full and the consumer asks for
/// more: the capacity, and what the consumer asked for beyond it.
pub open spec fn bind_amount(size: usize, n: Needed) -> usize {
    match n {
        Needed::Size(k) => if size + k > usize::MAX {
            usize::MAX
        } else {
            (size + k) as usize
        },
        Needed::Unknown => size,
    }
}

/// The buffer after the consumer's move was begun.
pub open spec fn moved(b: Buffer, m: Move) -> Buffer {
    match m {
        Move::Consume(amount) => dropped(b, amount),
        Move::Await(n) => {
            let w = awaiting(b);
            if b.window.len() < b.size {
                Buffer { job: Job::Fill { bind: Some(bind_amount(b.size, n)) }, ..w }
            } else {
                bound(w, bind_amount(b.size, n))
            }
        },
    }
}

/// The buffer and the consumer after the consumer was shown the buffer. A
/// consumer is shown nothing once a read has failed.
pub open spec fn delivered(b: Buffer, c: ConsumerModel) -> (Buffer, ConsumerModel) {
    (
        Buffer { job: Job::Idle, ..b },
        match b.state {
            StdinProducerState::Normal => handled(c, InputModel::Element(b.window)),
            StdinProducerState::Eof => handled(
                c,
                InputModel::Eof(
                    if b.window.len() == 0 {
                        None
                    } else {
                        Some(b.window)
                    },
                ),
            ),
            StdinProducerState::Error => c,
        },
    )
}

/// The buffer and the consumer after one step: a buffer that waits for a read
/// goes on waiting; one whose move is made shows itself to the consumer; an
/// idle one begins the consumer's move, and shows itself where the move needs
/// no input.
pub open spec fn applied(b: Buffer, c: ConsumerModel) -> (Buffer, ConsumerModel) {
    match b.job {
        Job::Fill { .. } | Job::Skip { .. } => (b, c),
        Job::Ready => delivered(b, c),
        Job::Idle => match c.c_state {
            ConsumerState::Error => (b, c),
            ConsumerState::Continue(m) => {
                let b1 = moved(b, m);
                if waits(b1) {
                    (b1, c)
                } else {
                    delivered(b1, c)
                }
            },
        },
    }
}

/// A buffer of fixed capacity between a source of bytes and a consumer.
#[derive(Debug)]
pub struct StdinProducer {
    size: usize,
    v: Vec<u8>,
    start: usize,
    end: usize,
    state: StdinProducerState,
    job: Job,
    discarded: usize,
}

impl View for StdinProducer {
    type V = Buffer;

    closed spec fn view(&self) -> Buffer {
        Buffer {
            size: self.size,
            start: self.start,
            window: self.v@.subrange(self.start as int, self.end as int),
            state: self.state,
            job: self.job,
            discarded: self.discarded,
        }
    }
}

impl StdinProducer {
    /// Whether the buffer is in order: its storage has the size of its
    /// capacity, and the bytes it holds lie within it.
    pub closed spec fn wf(&self) -> bool {
        &&& self.v@.len() == self.size
        &&& self.start <= self.end <= self.size
        &&& self.job matches Job::Skip { skipped, amount } ==> skipped < amount
    }

    /// A buffer that is in order holds no more than its capacity.
    pub proof fn lemma_bounded(&self)
        requires
            self.wf(),
        ensures
            buffer_ok(self@),
            self@.window.len() <= self@.size,
    {
    }

    /// An empty buffer that can hold `buffer_size` bytes. This never fails.
    pub fn new(buffer_size: usize) -> (made: std::io::Result<StdinProducer>)
        ensures
            made matches Ok(producer) && producer.wf() && producer@ == fresh(buffer_size).buffer,
    {
        let producer = StdinProducer {
            size: buffer_size,
            v: vec![0u8; buffer_size],
            start: 0,
            end: 0,
            state: StdinProducerState::Normal,
            job: Job::Idle,
            discarded: 0,
        };
        assert(producer@.window =~= Seq::<u8>::empty());
        Ok(producer)
    }

    /// How many bytes the buffer can hold.
    pub fn capacity(&self) -> (n: usize)
        requires
            self.wf(),
        ensures
            n == self@.size,
            buffer_ok(self@),
    {
        self.size
    }

    /// How many bytes the buffer holds.
    pub fn len(&self) -> (n: usize)
        requires
            self.wf(),
        ensures
            n == self@.window.len(),
            n <= self@.size,
    {
        self.end - self.start
    }

    /// The bytes that the buffer holds.
    pub fn bytes(&self) -> (window: &[u8])
        requires
            self.wf(),
        ensures
            window@ == self@.window,
    {
        slice_subrange(self.v.as_slice(), self.start, self.end)
    }

    /// Whether the source still gives.
    pub fn source(&self) -> (state: StdinProducerState)
        ensures
            state == self@.state,
    {
        self.state
    }

    /// What the buffer is waiting for.
    pub fn job(&self) -> (job: Job)
        ensures
            job == self@.job,
    {
        self.job
    }

    /// How often the buffer gave up on what the consumer asked for, because it
    /// could not hold it.
    pub fn discarded(&self) -> (n: usize)
        ensures
            n == self@.discarded,
    {
        self.discarded
    }

    /// How many bytes the read may bring that the buffer waits for, if it
    /// waits for one.
    pub fn wants(&self) -> (max: Option<usize>)
        requires
            self.wf(),
        ensures
            max == wanted(self@),
    {
        match self.job {
            Job::Fill { .. } => Some(self.size - self.end),
            Job::Skip { .. } => Some(self.size),
            _ => None,
        }
    }

    /// Moves the bytes that the buffer holds to the front of its storage.
    pub fn shift(&mut self)
        requires
            old(self).wf(),
        ensures
            final(self).wf(),
            final(self)@ == shifted(old(self)@),
    {
        let length = self.end - self.start;
        let from = self.start;
        let ghost before = self.v@;
        let mut i: usize = 0;
        while i < length
            invariant
                i <= length,
                from + length <= self.size,
                self.v@.len() == self.size == before.len(),
                self.size == old(self).size,
                self.start == from == old(self).start,
                self.end == from + length == old(self).end,
                self.state == old(self).state,
                self.job == old(self).job,
                self.discarded == old(self).discarded,
                self.job matches Job::Skip { skipped, amount } ==> skipped < amount,
                before == old(self).v@,
                forall|j: int| 0 <= j < i ==> self.v@[j] == before[from + j],
                forall|j: int| i <= j < self.size ==> self.v@[j] == before[j],
            decreases length - i,
        {
            let b = self.v[from + i];
            self.v.set(i, b);
            i += 1;
        }
        self.start = 0;
        self.end = length;
        assert(self@.window =~= old(self)@.window);
    }

    /// Takes what a read brought: the bytes go behind the bytes that the
    /// buffer holds. A read that brought nothing means that the source is used
    /// up, and one that failed is remembered as such. The result is the number
    /// of bytes taken.
    pub fn protected_read(&mut self, outcome: ReadOutcome) -> (n: usize)
        requires
            old(self).wf(),
            outcome matches ReadOutcome::Data(bytes) ==> bytes@.len() <= room(old(self)@),
        ensures
            final(self).wf(),
            final(self)@ == took(old(self)@, outcome@),
            n == taken(outcome@),
    {
        match outcome {
            ReadOutcome::Failed => {
                self.state = StdinProducerState::Error;
                0
            },
            ReadOutcome::Data(bytes) => {
                let n = bytes.len();
                let at = self.end;
                let ghost before = self.v@;
                let mut i: usize = 0;
                while i < n
                    invariant
                        i <= n == bytes@.len(),
                        at + n <= self.size,
                        self.v@.len() == self.size == before.len(),
                        self.size == old(self).size,
                        self.start == old(self).start,
                        self.end == at == old(self).end,
                        self.start <= self.end,
                        self.state == old(self).state,
                        self.job == old(self).job,
                        self.discarded == old(self).discarded,
                        self.job matches Job::Skip { skipped, amount } ==> skipped < amount,
                        before == old(self).v@,
                        forall|j: int| 0 <= j < at ==> self.v@[j] == before[j],
                        forall|j: int| 0 <= j < i ==> self.v@[at + j] == bytes@[j],
                    decreases n - i,
                {
                    self.v.set(at + i, bytes[i]);
                    i += 1;
                }
                self.end = at + n;
                if n == 0 {
                    self.state = StdinProducerState::Eof;
                }
                assert(self@.window =~= old(self)@.window + bytes@);
                n
            },
        }
    }

    /// Tells the buffer to wait for more input: its bytes are moved to the
    /// front, and unless it is full it waits for a read. The result is the
    /// number of bytes that it has room for.
    pub fn await_input(&mut self) -> (space: usize)
        requires
            old(self).wf(),
        ensures
            final(self).wf(),
            final(self)@ == awaiting(old(self)@),
            space == old(self)@.size - old(self)@.window.len(),
    {
        self.shift();
        let space = self.size - self.end;
        if space > 0 {
            self.job = Job::Fill { bind: None };
        }
        space
    }

    /// Tells the buffer to throw away what it holds and `amount` bytes of the
    /// input that follows. The result is the number of bytes that it held.
    pub fn skip_through(&mut self, amount: usize) -> (held: usize)
        requires
            old(self).wf(),
        ensures
            final(self).wf(),
            final(self)@ == skipping(old(self)@, amount),
            held == old(self)@.window.len(),
    {
        let held = self.end - self.start;
        self.start = 0;
        self.end = 0;
        if amount > 0 {
            self.job = Job::Skip { skipped: 0, amount };
        }
        assert(self@.window =~= Seq::<u8>::empty());
        held
    }

    /// Tells the buffer to drop `amount` bytes from its front. The result is
    /// the number of bytes that it dropped at once: `amount`, or all that it
    /// held where that is less.
    pub fn consume(&mut self, amount: usize) -> (now: usize)
        requires
            old(self).wf(),
        ensures
            final(self).wf(),
            final(self)@ == dropped(old(self)@, amount),
            now == lesser_of(amount, old(self)@.window.len()),
    {
        let length = self.end - self.start;
        if amount < length {
            self.start += amount;
            assert(self@.window =~= old(self)@.window.skip(amount as int));
            amount
        } else if amount == length {
            self.start = 0;
            self.end = 0;
            if self.size > 0 {
                self.job = Job::Fill { bind: None };
            }
            assert(self@.window =~= Seq::<u8>::empty());
            amount
        } else {
            self.skip_through(amount - length)
        }
    }

    /// Counts a record that the buffer could not hold, and drops `amount`
    /// bytes.
    fn bind(&mut self, amount: usize)
        requires
            old(self).wf(),
        ensures
            final(self).wf(),
            final(self)@ == bound(old(self)@, amount),
    {
        if self.discarded < usize::MAX {
            self.discarded += 1;
        }
        self.consume(amount);
    }

    /// Gives the buffer the outcome of the read that it waited for. A buffer
    /// that waits for none is left as it is.
    pub fn supply(&mut self, outcome: ReadOutcome)
        requires
            old(self).wf(),
            outcome matches ReadOutcome::Data(bytes) ==> (wanted(old(self)@) matches Some(max)
                ==> bytes@.len() <= max),
        ensures
            final(self).wf(),
            final(self)@ == supplied(old(self)@, outcome@),
    {
        match self.job {
            Job::Fill { bind } => {
                let chunk = self.protected_read(outcome);
                if self.end < self.size && chunk != 0 {
                    self.job = Job::Fill { bind: None };
                } else {
                    self.job = Job::Ready;
                    match bind {
                        Some(amount) => {
                            if chunk == 0 {
                                self.bind(amount);
                            }
                        },
                        None => {},
                    }
                }
            },
            Job::Skip { skipped, amount } => {
                self.start = 0;
                self.end = 0;
                assert(self@.window =~= Seq::<u8>::empty());
                let ghost cleared = self@;
                let returned = self.protected_read(outcome);
                let remaining = amount - skipped;
                if returned == 0 {
                    self.job = Job::Ready;
                } else if returned >= remaining {
                    self.start = remaining;
                    self.job = Job::Ready;
                    assert(self@.window =~= took(cleared, outcome@).window.skip(remaining as int));
                } else {
                    self.end = 0;
                    self.job = Job::Skip { skipped: skipped + returned, amount };
                    assert(self@.window =~= Seq::<u8>::empty());
                }
            },
            _ => {},
        }
    }

    /// Begins the move that the consumer asked for.
    fn begin(&mut self, m: Move)
        requires
            old(self).wf(),
        ensures
            final(self).wf(),
            final(self)@ == moved(old(self)@, m),
    {
        match m {
            Move::Consume(amount) => {
                self.consume(amount);
            },
            Move::Await(n) => {
                let amount = match n {
                    Needed::Size(k) => self.size.saturating_add(k),
                    Needed::Unknown => self.size,
                };
                let space = self.await_input();
                if space > 0 {
                    self.job = Job::Fill { bind: Some(amount) };
                } else {
                    self.bind(amount);
                }
            },
        }
    }

    /// Shows the consumer what the buffer holds.
    fn deliver(&mut self, consumer: &mut WarcConsumer)
        requires
            old(self).wf(),
        ensures
            final(self).wf(),
            (final(self)@, final(consumer)@) == delivered(old(self)@, old(consumer)@),
    {
        self.job = Job::Idle;
        match self.state {
            StdinProducerState::Normal => {
                let window = slice_subrange(self.v.as_slice(), self.start, self.end);
                consumer.handle(Input::Element(window));
            },
            StdinProducerState::Eof => {
                let window = slice_subrange(self.v.as_slice(), self.start, self.end);
                if window.len() == 0 {
                    consumer.handle(Input::Eof(None));
                } else {
                    consumer.handle(Input::Eof(Some(window)));
                }
            },
            StdinProducerState::Error => {},
        }
    }

    /// Makes one step: begins the move that the consumer asked for, and shows
    /// the consumer the buffer once the move is made. The result says whether
    /// the buffer waits for a read, and how many bytes the read may bring;
    /// then the consumer was not shown anything, and the step is to be made
    /// again after [`StdinProducer::supply`].
    pub fn apply(&mut self, consumer: &mut WarcConsumer) -> (max: Option<usize>)
        requires
            old(self).wf(),
        ensures
            final(self).wf(),
            (final(self)@, final(consumer)@) == applied(old(self)@, old(consumer)@),
            max == wanted(final(self)@),
    {
        match self.job {
            Job::Fill { .. } | Job::Skip { .. } => {
                return self.wants();
            },
            Job::Ready => {},
            Job::Idle => match consumer.state() {
                ConsumerState::Error => {
                    return None;
                },
                ConsumerState::Continue(m) => {
                    self.begin(m);
                    match self.job {
                        Job::Fill { .. } | Job::Skip { .. } => {
                            return self.wants();
                        },
                        _ => {},
                    }
                },
            },
        }
        self.deliver(consumer);
        None
    }
}

/// The smaller of two numbers.
pub open spec fn lesser_of(a: usize, b: nat) -> usize {
    if a <= b {
        a
    } else {
        b as usize
    }
}

/// What a [`WarcStreamer`] asks of whoever drives it.
#[derive(Debug, Clone, PartialEq, Eq)]
pub enum Poll {
    /// Read up to this many bytes from the source and hand the outcome to
    /// [`WarcStreamer::feed`].
    Read(usize),
    /// The next record.
    Record(Record),
    /// There are no more records.
    Finished,
}

/// A [`Poll`] with the record as a sequence of characters.
pub enum PollModel {
    Read(usize),
    Record(Seq<char>),
    Finished,
}

impl View for Poll {
    type V = PollModel;

    open spec fn view(&self) -> PollModel {
        match *self {
            Poll::Read(max) => PollModel::Read(max),
            Poll::Record(text) => PollModel::Record(text@),
            Poll::Finished => PollModel::Finished,
        }
    }
}

/// A [`WarcStreamer`] as a value: its buffer and its consumer.
pub struct Stream {
    pub buffer: Buffer,
    pub consumer: ConsumerModel,
}

/// Whether `c` is a consumer that can be: one that has stopped is past the
/// end of the input.
pub open spec fn consumer_ok(c: ConsumerModel) -> bool {
    c.c_state is Error ==> c.state is Done || c.state is Error
}

/// Whether `m` is a stream that can be.
pub open spec fn stream_ok(m: Stream) -> bool {
    buffer_ok(m.buffer) && consumer_ok(m.consumer)
}

/// How far a consumer's move is from one that is sure to use up input or to
/// wait for some.
pub open spec fn weight(c: ConsumerState) -> nat {
    match c {
        ConsumerState::Continue(Move::Consume(amount)) => if amount == 0 {
            2
        } else {
            0
        },
        ConsumerState::Continue(Move::Await(Needed::Unknown)) => 1,
        ConsumerState::Continue(Move::Await(Needed::Size(k))) => if k == 0 {
            1
        } else {
            0
        },
        ConsumerState::Error => 0,
    }
}

/// One if the buffer is about to be shown to the consumer, zero otherwise.
pub open spec fn pending(b: Buffer) -> nat {
    if b.job is Ready {
        1
    } else {
        0
    }
}

/// One if the parser is at the start of what may be a record, zero otherwise.
pub open spec fn rank(c: ConsumerModel) -> nat {
    if c.state is Beginning {
        1
    } else {
        0
    }
}

/// The stream after one step, with the record that the consumer took, if it
/// took one, taken from it.
pub open spec fn stepped(m: Stream) -> Stream {
    let (b, c) = applied(m.buffer, m.consumer);
    Stream { buffer: b, consumer: ConsumerModel { last_record: None, ..c } }
}

/// Whether a step leaves nothing to report, so that another is made: the
/// source has not failed, no read is wanted, the parser is not past the end,
/// and no record was taken.
pub open spec fn goes_on(m: Stream) -> bool {
    let (b, c) = applied(m.buffer, m.consumer);
    &&& !(m.buffer.state is Error)
    &&& !waits(b)
    &&& c.state is Beginning || c.state is End
    &&& c.last_record is None
}

/// What the steps of a stream come to: the stream after as many steps as it
/// takes until there is something to report, and the report. A source that
/// failed ends the stream. Otherwise steps are made until a read is wanted, a
/// record was taken, or the parser is past the end of the input.
pub open spec fn polled(m: Stream) -> (Stream, PollModel)
    decreases pending(m.buffer), rank(m.consumer), m.buffer.window.len(), weight(m.consumer.c_state),
    when stream_ok(m)
    via polled_decreases
{
    if m.buffer.state is Error {
        (m, PollModel::Finished)
    } else {
        let (b, c) = applied(m.buffer, m.consumer);
        let after = stepped(m);
        if waits(b) {
            (after, PollModel::Read(wanted(b)->Some_0))
        } else if !(c.state is Beginning || c.state is End) {
            (after, PollModel::Finished)
        } else if c.last_record is Some {
            (after, PollModel::Record(c.last_record->Some_0))
        } else {
            polled(after)
        }
    }
}

#[via_fn]
proof fn polled_decreases(m: Stream) {
    if goes_on(m) {
        lemma_progress(m);
    }
}

/// Nothing is no record, but may become one: the parser asks for a byte.
pub proof fn lemma_nothing_is_incomplete(s: Seq<u8>)
    requires
        s.len() == 0,
    ensures
        parse_complete(s) == Parsed::Incomplete(Needed::Size(1)),
{
    reveal(parse_complete);
    assert(s.subrange(0, 0) =~= cr().subrange(0, 0));
    assert(crate::grammar::tag_at(s, 0, cr()) == Parsed::Incomplete(Needed::Size(1)));
    assert(crate::grammar::init_line(s, 0) == Parsed::Incomplete(Needed::Size(1)));
    assert(crate::grammar::block_lines(s, 0) == Parsed::Incomplete(Needed::Size(1)));
    assert(header_block(s, 0) == Parsed::Incomplete(Needed::Size(1)));
    assert(parse_record(s) == Parsed::Incomplete(Needed::Size(1)));
}

/// A stream that can be stays one.
pub proof fn lemma_stream_stays_ok(m: Stream)
    requires
        stream_ok(m),
    ensures
        stream_ok(stepped(m)),
        stepped(m).buffer.size == m.buffer.size,
{
}

/// A buffer that can be stays one when it is given what a read brought, if
/// that is no more than it wanted; and it keeps its capacity.
pub proof fn lemma_supplied_stays_ok(b: Buffer, outcome: Option<Seq<u8>>)
    requires
        buffer_ok(b),
        wanted(b) matches Some(max) ==> taken(outcome) <= max,
    ensures
        buffer_ok(supplied(b, outcome)),
        supplied(b, outcome).size == b.size,
{
}

/// Steps that report nothing do not go on for ever: each of them shows the
/// buffer to the consumer for the first time since a read, or moves the
/// parser towards the end, or makes the buffer shorter, or leaves a move that
/// is closer to using up input or waiting for some.
pub proof fn lemma_progress(m: Stream)
    requires
        stream_ok(m),
        goes_on(m),
    ensures
        stream_ok(stepped(m)),
        pending(stepped(m).buffer) < pending(m.buffer) || (pending(stepped(m).buffer) == pending(
            m.buffer,
        ) && (rank(stepped(m).consumer) < rank(m.consumer) || (rank(stepped(m).consumer) == rank(
            m.consumer,
        ) && (stepped(m).buffer.window.len() < m.buffer.window.len() || (
        stepped(m).buffer.window.len() == m.buffer.window.len() && weight(
            stepped(m).consumer.c_state,
        ) < weight(m.consumer.c_state)))))),
{
    let b = m.buffer;
    let c = m.consumer;
    lemma_nothing_is_incomplete(Seq::<u8>::empty());
    lemma_stream_stays_ok(m);
    match b.job {
        Job::Ready => {},
        Job::Idle => {
            match c.c_state {
                ConsumerState::Error => {},
                ConsumerState::Continue(mv) => {
                    let b1 = moved(b, mv);
                    assert(!waits(b1));
                    assert(b1.state == b.state);
                    let (b2, c2) = delivered(b1, c);
                    if b1.window.len() == 0 {
                        assert(b1.window =~= Seq::<u8>::empty());
                    }
                },
            }
        },
        _ => {},
    }
}

/// The buffer never grows: whatever the steps of a stream come to, the stream
/// is one that can be, with the capacity it had, and holds no more than that.
pub proof fn lemma_bounded_memory(m: Stream)
    requires
        stream_ok(m),
    ensures
        stream_ok(polled(m).0),
        polled(m).0.buffer.size == m.buffer.size,
        polled(m).0.buffer.window.len() <= m.buffer.size,
    decreases pending(m.buffer), rank(m.consumer), m.buffer.window.len(), weight(m.consumer.c_state),
{
    lemma_stream_stays_ok(m);
    if !(m.buffer.state is Error) && goes_on(m) {
        lemma_progress(m);
        lemma_bounded_memory(stepped(m));
    }
}

/// A stream of records out of a stream of bytes, to be driven by whoever
/// owns the source: ask for the next record, read when a read is asked for,
/// hand over what the read brought, and ask again.
pub struct WarcStreamer {
    file_producer: StdinProducer,
    consumer: WarcConsumer,
}

impl View for WarcStreamer {
    type V = Stream;

    closed spec fn view(&self) -> Stream {
        Stream { buffer: self.file_producer@, consumer: self.consumer@ }
    }
}

impl WarcStreamer {
    /// Whether the streamer is in order.
    pub closed spec fn wf(&self) -> bool {
        self.file_producer.wf() && consumer_ok(self.consumer@)
    }

    /// A streamer that is in order is a stream that can be, and holds no more
    /// than the capacity of its buffer.
    pub proof fn lemma_bounded(&self)
        requires
            self.wf(),
        ensures
            stream_ok(self@),
            self@.buffer.window.len() <= self@.buffer.size,
    {
        self.file_producer.lemma_bounded();
    }

    /// A streamer at the start of a stream, with a buffer of one MiB. This
    /// never fails.
    pub fn new() -> (made: std::io::Result<WarcStreamer>)
        ensures
            made matches Ok(streamer) && streamer.wf() && streamer@ == fresh(SIZE_LIMIT),
    {
        WarcStreamer::with_capacity(SIZE_LIMIT)
    }

    /// A streamer at the start of a stream, with a buffer of `buffer_size`
    /// bytes. This never fails.
    pub fn with_capacity(buffer_size: usize) -> (made: std::io::Result<WarcStreamer>)
        ensures
            made matches Ok(streamer) && streamer.wf() && streamer@ == fresh(buffer_size),
    {
        Ok(
            WarcStreamer {
                file_producer: StdinProducer::new(buffer_size)?,
                consumer: WarcConsumer::new(),
            },
        )
    }

    /// How many bytes the buffer can hold.
    pub fn capacity(&self) -> (n: usize)
        requires
            self.wf(),
        ensures
            n == self@.buffer.size,
    {
        self.file_producer.capacity()
    }

    /// How many bytes the buffer holds.
    pub fn buffered(&self) -> (n: usize)
        requires
            self.wf(),
        ensures
            n == self@.buffer.window.len(),
            n <= self@.buffer.size,
    {
        self.file_producer.len()
    }

    /// How often a record was given up because the buffer could not hold it.
    pub fn discarded(&self) -> (n: usize)
        ensures
            n == self@.buffer.discarded,
    {
        self.file_producer.discarded()
    }

    /// Where the parser stands.
    pub fn state(&self) -> (state: State)
        ensures
            state == self@.consumer.state,
    {
        self.consumer.parser_state()
    }

    /// Hands over the outcome of the read that was asked for. Where none was
    /// asked for, nothing changes.
    pub fn feed(&mut self, outcome: ReadOutcome)
        requires
            old(self).wf(),
            outcome matches ReadOutcome::Data(bytes) ==> (wanted(old(self)@.buffer) matches Some(
                max,
            ) ==> bytes@.len() <= max),
        ensures
            final(self).wf(),
            final(self)@ == (Stream {
                buffer: supplied(old(self)@.buffer, outcome@),
                consumer: old(self)@.consumer,
            }),
            final(self)@.buffer.size == old(self)@.buffer.size,
    {
        self.file_producer.supply(outcome);
    }

    /// Goes on until there is something to report: a record, the end of the
    /// records, or the need of a read. The buffer keeps its capacity.
    pub fn next(&mut self) -> (poll: Poll)
        requires
            old(self).wf(),
        ensures
            final(self).wf(),
            (final(self)@, poll@) == polled(old(self)@),
            final(self)@.buffer.size == old(self)@.buffer.size,
            poll matches Poll::Read(max) ==> wanted(final(self)@.buffer) == Some(max),
    {
        loop
            invariant
                self.wf(),
                polled(self@) == polled(old(self)@),
                self@.buffer.size == old(self)@.buffer.size,
            decreases
                    pending(self@.buffer),
                    rank(self@.consumer),
                    self@.buffer.window.len(),
                    weight(self@.consumer.c_state),
        {
            let ghost before = self@;
            proof {
                self.file_producer.lemma_bounded();
                lemma_stream_stays_ok(before);
            }
            match self.file_producer.source() {
                StdinProducerState::Error => {
                    return Poll::Finished;
                },
                _ => {},
            }
            let wants = self.file_producer.apply(&mut self.consumer);
            let taken = self.consumer.take_record();
            assert(self@ == stepped(before));
            match wants {
                Some(max) => {
                    return Poll::Read(max);
                },
                None => {},
            }
            match self.consumer.parser_state() {
                State::Error | State::Done => {
                    return Poll::Finished;
                },
                _ => {},
            }
            match taken {
                Some(text) => {
                    return Poll::Record(text);
                },
                None => {},
            }
            proof {
                lemma_progress(before);
            }
        }
    }
}

/// A stream at its start: an empty buffer of the given capacity, and a
/// consumer that asks for nothing to be dropped.
pub open spec fn fresh(size: usize) -> Stream {
    Stream {
        buffer: Buffer {
            size,
            start: 0,
            window: Seq::<u8>::empty(),
            state: StdinProducerState::Normal,
            job: Job::Idle,
            discarded: 0,
        },
        consumer: ConsumerModel {
            c_state: ConsumerState::Continue(Move::Consume(0)),
            state: State::Beginning,
            last_record: None,
        },
    }
}

} // verus!
