//! Where a buffer stands in its input. The input is what the reads bring, one
//! piece behind the other; the buffer holds a part of it and has passed what
//! lies before that part. These laws say that nothing but the consumer's
//! moves makes the buffer pass input, and that a move passes exactly what it
//! says, whether the bytes are in the buffer, are read and thrown away, or
//! never come.

use crate::grammar::Needed;
use crate::warc::{
    applied, awaiting, bind_amount, buffer_ok, dropped, moved, supplied, taken, took, waits,
    wanted, Buffer, ConsumerModel, ConsumerState, Job, Move,
};
use vstd::prelude::*;

verus! {

/// The input as far as it was read, and how much of it the buffer has passed.
pub struct Tape {
    pub fed: Seq<u8>,
    pub at: int,
}

/// How many bytes of input are still to be thrown away.
pub open spec fn ahead(b: Buffer) -> int {
    match b.job {
        Job::Skip { skipped, amount } => amount - skipped,
        _ => 0,
    }
}

/// Whether `b` stands at `t.at` in the input `t.fed`: it holds the input from
/// there on as far as it was read; or it is throwing input away, holds
/// nothing, and will have passed `t.at` bytes when it is done; or the input
/// ended before the buffer had passed as much as it was to pass, and it holds
/// nothing.
pub open spec fn holds(b: Buffer, t: Tape) -> bool {
    &&& 0 <= t.at
    &&& if b.job is Skip {
        b.window.len() == 0 && t.at == t.fed.len() + ahead(b)
    } else if t.at <= t.fed.len() {
        b.window == t.fed.skip(t.at)
    } else {
        b.window.len() == 0 && !(b.state is Normal)
    }
}

/// What a read brought, as bytes.
pub open spec fn brought(outcome: Option<Seq<u8>>) -> Seq<u8> {
    match outcome {
        Some(bytes) => bytes,
        None => Seq::<u8>::empty(),
    }
}

/// How many bytes a move passes: what it says to drop; for a wait, nothing,
/// unless the buffer is full, and then the capacity and what was asked for
/// beyond it.
pub open spec fn passes(b: Buffer, m: Move) -> int {
    match m {
        Move::Consume(amount) => amount as int,
        Move::Await(n) => if b.window.len() < b.size {
            0
        } else {
            bind_amount(b.size, n) as int
        },
    }
}

/// How many bytes a read makes the buffer pass: none, unless it is the first
/// read of a wait and brings nothing; then what the wait had set aside.
pub open spec fn gives_up(b: Buffer, outcome: Option<Seq<u8>>) -> int {
    match b.job {
        Job::Fill { bind: Some(amount) } => if taken(outcome) == 0 {
            amount as int
        } else {
            0
        },
        _ => 0,
    }
}

/// A fresh buffer stands at the start of an input of which nothing was read.
pub proof fn lemma_fresh_holds(size: usize)
    ensures
        holds(crate::warc::fresh(size).buffer, Tape { fed: Seq::<u8>::empty(), at: 0 }),
{
    let b = crate::warc::fresh(size).buffer;
    assert(b.window =~= Seq::<u8>::empty().skip(0));
}

/// Dropping passes exactly what it says: the buffer that stood at `t.at`
/// stands at `t.at + amount`, whether or not it held that many bytes.
pub proof fn lemma_dropped_passes(b: Buffer, t: Tape, amount: usize)
    requires
        holds(b, t),
        !waits(b),
        t.at <= t.fed.len(),
    ensures
        holds(dropped(b, amount), Tape { fed: t.fed, at: t.at + amount }),
{
    let d = dropped(b, amount);
    if amount < b.window.len() {
        assert(d.window =~= t.fed.skip(t.at + amount));
    } else if amount == b.window.len() {
        assert(d.window =~= t.fed.skip(t.at + amount));
    }
}

/// Waiting for more passes nothing.
pub proof fn lemma_awaiting_passes(b: Buffer, t: Tape)
    requires
        holds(b, t),
        !waits(b),
    ensures
        holds(awaiting(b), t),
{
}

/// A move passes exactly what it says.
pub proof fn lemma_moved_passes(b: Buffer, t: Tape, m: Move)
    requires
        holds(b, t),
        !waits(b),
        t.at <= t.fed.len(),
    ensures
        holds(moved(b, m), Tape { fed: t.fed, at: t.at + passes(b, m) }),
{
    match m {
        Move::Consume(amount) => {
            lemma_dropped_passes(b, t, amount);
        },
        Move::Await(n) => {
            let w = awaiting(b);
            if b.window.len() >= b.size {
                let counted = Buffer {
                    discarded: if w.discarded < usize::MAX {
                        (w.discarded + 1) as usize
                    } else {
                        w.discarded
                    },
                    ..w
                };
                lemma_dropped_passes(counted, t, bind_amount(b.size, n));
            }
        },
    }
}

/// A read passes nothing: what it brings stands behind what was read before,
/// and the buffer stands where it stood. The one exception is a buffer that
/// waited in vain and gives up: it passes what it had set aside.
pub proof fn lemma_supplied_passes(b: Buffer, t: Tape, outcome: Option<Seq<u8>>)
    requires
        holds(b, t),
        buffer_ok(b),
        waits(b),
        t.at <= t.fed.len() || b.job is Skip,
        wanted(b) matches Some(max) ==> taken(outcome) <= max,
    ensures
        holds(
            supplied(b, outcome),
            Tape { fed: t.fed + brought(outcome), at: t.at + gives_up(b, outcome) },
        ),
{
    let fed = t.fed + brought(outcome);
    let after = supplied(b, outcome);
    match b.job {
        Job::Fill { bind } => {
            let ready = Buffer { job: Job::Ready, ..took(b, outcome) };
            assert(took(b, outcome).window =~= fed.skip(t.at));
            if !(crate::warc::room(took(b, outcome)) > 0 && taken(outcome) != 0) {
                if bind is Some && taken(outcome) == 0 {
                    assert(fed =~= t.fed);
                    let counted = Buffer {
                        discarded: if ready.discarded < usize::MAX {
                            (ready.discarded + 1) as usize
                        } else {
                            ready.discarded
                        },
                        ..ready
                    };
                    lemma_dropped_passes(counted, Tape { fed, at: t.at }, bind->Some_0);
                }
            }
        },
        Job::Skip { skipped, amount } => {
            let remaining = amount - skipped;
            match outcome {
                Some(bytes) => {
                    if bytes.len() != 0 && bytes.len() >= remaining {
                        assert(after.window =~= fed.skip(t.at)) by {
                            assert((Seq::<u8>::empty() + bytes).skip(remaining) =~= fed.skip(t.at));
                        }
                    }
                },
                None => {},
            }
        },
        _ => {},
    }
}

/// A step passes exactly what the consumer's move says, and only where the
/// move is begun: a buffer that waits for a read, or shows itself to the
/// consumer after one, passes nothing.
pub proof fn lemma_applied_passes(b: Buffer, c: ConsumerModel, t: Tape)
    requires
        holds(b, t),
        t.at <= t.fed.len(),
    ensures
        holds(
            applied(b, c).0,
            Tape {
                fed: t.fed,
                at: t.at + match (b.job, c.c_state) {
                    (Job::Idle, ConsumerState::Continue(m)) => passes(b, m),
                    _ => 0,
                },
            },
        ),
{
    match (b.job, c.c_state) {
        (Job::Idle, ConsumerState::Continue(m)) => {
            lemma_moved_passes(b, t, m);
        },
        _ => {},
    }
}

/// A record that the buffer cannot hold is passed whole: where the buffer is
/// full and the consumer asks for `extra` bytes more, the buffer passes its
/// capacity and `extra` bytes, and counts one record given up.
pub proof fn lemma_oversized_passes(b: Buffer, t: Tape, extra: usize)
    requires
        holds(b, t),
        buffer_ok(b),
        b.job is Idle,
        t.at <= t.fed.len(),
        b.window.len() == b.size,
        b.size + extra <= usize::MAX,
        b.discarded < usize::MAX,
    ensures
        holds(
            moved(b, Move::Await(Needed::Size(extra))),
            Tape { fed: t.fed, at: t.at + b.size + extra },
        ),
        moved(b, Move::Await(Needed::Size(extra))).discarded == b.discarded + 1,
        moved(b, Move::Await(Needed::Size(extra))).size == b.size,
{
    lemma_moved_passes(b, t, Move::Await(Needed::Size(extra)));
}

} // verus!
