//! Bytes as text, for records and for messages.

use crate::decimal::{decimal_text, format_decimal, is_digit, lemma_decimal_round_trip};
use vstd::prelude::*;
use vstd::string::*;
use vstd::utf8::{
    decode_utf8, encode_utf8, encode_utf8_decode_utf8, encode_utf8_valid_utf8,
    is_ascii_chars, is_ascii_chars_encode_utf8, valid_utf8,
};

verus! {

/// The text that `String::from_utf8_lossy` makes of a run of bytes: every
/// byte sequence that is not UTF-8 becomes a replacement character.
pub uninterp spec fn lossy_text(bytes: Seq<u8>) -> Seq<char>;

/// Calls `String::from_utf8_lossy` and takes the result as a `String`. The
/// text depends on the bytes alone; bytes that are UTF-8 are decoded as they
/// are.
#[verifier::external_body]
pub(crate) fn to_text(bytes: &[u8]) -> (text: String)
    ensures
        text@ == lossy_text(bytes@),
        valid_utf8(bytes@) ==> text@ == decode_utf8(bytes@),
{
    String::from_utf8_lossy(bytes).into_owned()
}

/// Bytes read as characters, one for one.
pub open spec fn ascii(bytes: Seq<u8>) -> Seq<char> {
    Seq::new(bytes.len(), |i: int| bytes[i] as char)
}

/// Whether `bytes` are ASCII.
pub open spec fn all_ascii(bytes: Seq<u8>) -> bool {
    forall|i: int| 0 <= i < bytes.len() ==> #[trigger] bytes[i] < 128
}

/// ASCII is UTF-8, and decodes to its own characters.
pub proof fn lemma_ascii_decodes(bytes: Seq<u8>)
    requires
        all_ascii(bytes),
    ensures
        valid_utf8(bytes),
        decode_utf8(bytes) == ascii(bytes),
{
    let chars = ascii(bytes);
    assert(is_ascii_chars(chars)) by {
        assert forall|i: int| 0 <= i < chars.len() implies '\0' <= #[trigger] chars[i]
            <= '\u{7f}' by {
            assert(bytes[i] < 128);
        }
    }
    is_ascii_chars_encode_utf8(chars);
    assert(encode_utf8(chars) =~= bytes) by {
        assert forall|i: int| 0 <= i < bytes.len() implies encode_utf8(chars)[i] == bytes[i] by {
            assert(chars[i] as u8 == encode_utf8(chars)[i]);
            assert(bytes[i] < 128);
        }
    }
    encode_utf8_valid_utf8(chars);
    encode_utf8_decode_utf8(chars);
}

/// `n` in base ten.
pub open spec fn number(n: nat) -> Seq<char> {
    ascii(decimal_text(n))
}

/// Writes `n` in base ten.
pub fn number_text(n: usize) -> (text: String)
    ensures
        text@ == number(n as nat),
{
    let digits = format_decimal(n);
    proof {
        lemma_decimal_round_trip(n as nat);
        assert(all_ascii(digits@)) by {
            assert forall|i: int| 0 <= i < digits@.len() implies #[trigger] digits@[i] < 128 by {
                assert(is_digit(digits@[i]));
            }
        }
        lemma_ascii_decodes(digits@);
    }
    to_text(digits.as_slice())
}

/// The numbers of `bytes` in base ten, with a comma and a space between one
/// and the next.
pub open spec fn listed(bytes: Seq<u8>) -> Seq<char>
    decreases bytes.len(),
{
    if bytes.len() == 0 {
        Seq::<char>::empty()
    } else if bytes.len() == 1 {
        number(bytes[0] as nat)
    } else {
        listed(bytes.drop_last()) + ", "@ + number(bytes.last() as nat)
    }
}

/// Writes the numbers of `bytes` in base ten, with a comma and a space
/// between one and the next.
pub fn list_text(bytes: &[u8]) -> (text: String)
    ensures
        text@ == listed(bytes@),
{
    let mut text = String::from_str("");
    assert(text@ =~= Seq::<char>::empty()) by {
        reveal_strlit("");
    }
    let mut i: usize = 0;
    while i < bytes.len()
        invariant
            i <= bytes.len(),
            text@ == listed(bytes@.subrange(0, i as int)),
        decreases bytes.len() - i,
    {
        let ghost before = bytes@.subrange(0, i as int);
        let ghost after = bytes@.subrange(0, i + 1);
        assert(after.drop_last() =~= before);
        assert(after.last() == bytes@[i as int]);
        if i > 0 {
            text.append(", ");
        }
        let item = number_text(bytes[i] as usize);
        text.append(item.as_str());
        proof {
            if i == 0 {
                assert(text@ =~= number(bytes@[0] as nat));
            }
        }
        i += 1;
    }
    assert(bytes@.subrange(0, bytes.len() as int) =~= bytes@);
    text
}

} // verus!
