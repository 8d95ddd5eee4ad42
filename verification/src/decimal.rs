//! Unsigned numbers written in base ten, as ASCII digits.

use vstd::prelude::*;

verus! {

/// The ASCII code of `0`.
pub const ZERO: u8 = 48;

/// Whether `b` is one of the ASCII digits `0` to `9`.
pub open spec fn is_digit(b: u8) -> bool {
    48 <= b <= 57
}

/// Whether `s` holds nothing but ASCII digits.
pub open spec fn all_digits(s: Seq<u8>) -> bool {
    forall|i: int| 0 <= i < s.len() ==> is_digit(#[trigger] s[i])
}

/// The number that the digits of `s` spell, most significant first.
pub open spec fn decimal_value(s: Seq<u8>) -> nat
    decreases s.len(),
{
    if s.len() == 0 {
        0
    } else {
        decimal_value(s.drop_last()) * 10 + (s.last() - 48) as nat
    }
}

/// `n` in base ten, without leading zeros.
pub open spec fn decimal_text(n: nat) -> Seq<u8>
    decreases n,
{
    if n < 10 {
        seq![(48 + n) as u8]
    } else {
        decimal_text(n / 10).push((48 + n % 10) as u8)
    }
}

/// What a run of bytes means as an unsigned number: its value where it is a
/// non-empty run of digits that fits the machine word, nothing otherwise.
pub open spec fn parse_decimal(s: Seq<u8>) -> Option<usize> {
    if s.len() > 0 && all_digits(s) && decimal_value(s) <= usize::MAX {
        Some(decimal_value(s) as usize)
    } else {
        None
    }
}

/// The first index at or after `at` that holds no digit (the length of `s`
/// where the digits run to the end).
pub open spec fn digits_end(s: Seq<u8>, at: int) -> int
    decreases s.len() - at,
{
    if 0 <= at < s.len() && is_digit(s[at]) {
        digits_end(s, at + 1)
    } else {
        at
    }
}

/// Reading back what `decimal_text` wrote gives the number again.
pub proof fn lemma_decimal_round_trip(n: nat)
    ensures
        decimal_text(n).len() >= 1,
        all_digits(decimal_text(n)),
        decimal_value(decimal_text(n)) == n,
    decreases n,
{
    if n < 10 {
        let s = decimal_text(n);
        assert(s.drop_last() =~= Seq::<u8>::empty());
        assert(decimal_value(s.drop_last()) == 0);
    } else {
        lemma_decimal_round_trip(n / 10);
        let s = decimal_text(n);
        assert(s.drop_last() =~= decimal_text(n / 10));
    }
}

/// A number below `10^k` takes at most `k` digits (stated for the two word
/// sizes in use).
pub proof fn lemma_decimal_text_len(n: nat)
    requires
        n <= u64::MAX,
    ensures
        decimal_text(n).len() <= 20,
{
    reveal_with_fuel(decimal_text, 21);
}

/// A longer run of digits spells a number that is no smaller.
pub proof fn lemma_decimal_value_grows(s: Seq<u8>, k: int)
    requires
        0 <= k <= s.len(),
        all_digits(s),
    ensures
        decimal_value(s.subrange(0, k)) <= decimal_value(s),
    decreases s.len() - k,
{
    if k == s.len() {
        assert(s.subrange(0, k) =~= s);
    } else {
        let t = s.drop_last();
        assert(t.subrange(0, k) =~= s.subrange(0, k));
        assert(all_digits(t));
        lemma_decimal_value_grows(t, k);
    }
}

/// `digits_end` stops at or after `at`, within `s`, over digits only, and on
/// a byte that is none.
pub proof fn lemma_digits_end(s: Seq<u8>, at: int)
    requires
        0 <= at <= s.len(),
    ensures
        at <= digits_end(s, at) <= s.len(),
        all_digits(s.subrange(at, digits_end(s, at))),
        digits_end(s, at) < s.len() ==> !is_digit(s[digits_end(s, at)]),
    decreases s.len() - at,
{
    if at < s.len() && is_digit(s[at]) {
        lemma_digits_end(s, at + 1);
        let e = digits_end(s, at);
        assert forall|i: int| 0 <= i < e - at implies is_digit(#[trigger] s.subrange(at, e)[i]) by {
            if i > 0 {
                assert(s.subrange(at, e)[i] == s.subrange(at + 1, e)[i - 1]);
            }
        }
    }
}

/// Writes `n` in base ten.
pub fn format_decimal(n: usize) -> (text: Vec<u8>)
    ensures
        text@ == decimal_text(n as nat),
    decreases n,
{
    if n < 10 {
        let mut text: Vec<u8> = Vec::new();
        text.push(ZERO + n as u8);
        assert(text@ =~= decimal_text(n as nat));
        text
    } else {
        let mut text = format_decimal(n / 10);
        text.push(ZERO + (n % 10) as u8);
        text
    }
}

/// Finds where the digits that start at `at` end.
pub fn scan_digits(input: &[u8], at: usize) -> (end: usize)
    requires
        at <= input.len(),
    ensures
        end == digits_end(input@, at as int),
        at <= end <= input.len(),
{
    let mut end: usize = at;
    while end < input.len() && input[end] >= 48 && input[end] <= 57
        invariant
            at <= end <= input.len(),
            digits_end(input@, at as int) == digits_end(input@, end as int),
        decreases input.len() - end,
    {
        end += 1;
    }
    end
}

/// Reads `input[from..to]` as an unsigned number.
pub fn read_decimal(input: &[u8], from: usize, to: usize) -> (value: Option<usize>)
    requires
        from <= to <= input.len(),
    ensures
        value == parse_decimal(input@.subrange(from as int, to as int)),
{
    let ghost s = input@.subrange(from as int, to as int);
    if from == to {
        return None;
    }
    let mut acc: usize = 0;
    let mut i: usize = from;
    while i < to
        invariant
            from <= i <= to <= input.len(),
            s == input@.subrange(from as int, to as int),
            all_digits(s.subrange(0, i - from)),
            acc == decimal_value(s.subrange(0, i - from)),
        decreases to - i,
    {
        let b = input[i];
        let ghost before = s.subrange(0, i - from);
        let ghost after = s.subrange(0, i - from + 1);
        assert(s[i - from] == b);
        if b < 48 || b > 57 {
            return None;
        }
        proof {
            assert(after.drop_last() =~= before);
            assert(after.last() == b);
            assert forall|j: int| 0 <= j < after.len() implies is_digit(#[trigger] after[j]) by {
                if j < before.len() {
                    assert(after[j] == before[j]);
                }
            }
        }
        let d: usize = (b - 48) as usize;
        if acc > (usize::MAX - d) / 10 {
            proof {
                assert(decimal_value(after) == acc * 10 + d);
                assert(acc * 10 + d > usize::MAX);
                if all_digits(s) {
                    lemma_decimal_value_grows(s, i - from + 1);
                }
            }
            return None;
        }
        acc = acc * 10 + d;
        i += 1;
    }
    assert(s.subrange(0, to - from) =~= s);
    Some(acc)
}

} // verus!
