//! Reading an escaped string body back, as a JSON parser does, and the proof
//! that this recovers every payload that was escaped.

use crate::escape::escape_byte;
use crate::escape::escape_chunks;
use crate::escape::escaped;
use crate::escape::hex_upper;
use crate::token::BACKSLASH;
use crate::token::QUOTE;
use vstd::prelude::*;
use vstd::utf8::encode_scalar;

verus! {

/// The value of a hexadecimal digit, of either case.
pub open spec fn hex_value(d: u8) -> Option<u32> {
    if 0x30 <= d <= 0x39 {
        Some((d - 0x30) as u32)
    } else if 0x41 <= d <= 0x46 {
        Some((d - 0x41 + 10) as u32)
    } else if 0x61 <= d <= 0x66 {
        Some((d - 0x61 + 10) as u32)
    } else {
        None
    }
}

/// The number that the four hexadecimal digits at `at` spell.
pub open spec fn hex4(s: Seq<u8>, at: int) -> Option<u32> {
    if 0 <= at && at + 4 <= s.len() && hex_value(s[at]) is Some && hex_value(s[at + 1]) is Some
        && hex_value(s[at + 2]) is Some && hex_value(s[at + 3]) is Some {
        Some(
            (hex_value(s[at])->0 * 0x1000 + hex_value(s[at + 1])->0 * 0x100 + hex_value(
                s[at + 2],
            )->0 * 0x10 + hex_value(s[at + 3])->0) as u32,
        )
    } else {
        None
    }
}

/// `head` in front of `tail`, where there is a tail.
pub open spec fn followed_by(head: Seq<u8>, tail: Option<Seq<u8>>) -> Option<Seq<u8>> {
    match tail {
        Some(t) => Some(head + t),
        None => None,
    }
}

/// The payload that a string body, the bytes between the quotes, stands
/// for, or `None` where the body is not well-formed: a raw quote or control
/// byte, a backslash with nothing valid behind it, or a surrogate that is not
/// half of a pair. An escaped code point comes back as its UTF-8 bytes.
pub open spec fn unescaped(body: Seq<u8>) -> Option<Seq<u8>>
    decreases body.len(),
{
    if body.len() == 0 {
        Some(Seq::empty())
    } else if body[0] == BACKSLASH {
        if body.len() < 2 {
            None
        } else if body[1] == QUOTE || body[1] == BACKSLASH || body[1] == 0x2F {
            followed_by(seq![body[1]], unescaped(body.skip(2)))
        } else if body[1] == 0x62 {
            followed_by(seq![0x08u8], unescaped(body.skip(2)))
        } else if body[1] == 0x66 {
            followed_by(seq![0x0Cu8], unescaped(body.skip(2)))
        } else if body[1] == 0x6E {
            followed_by(seq![0x0Au8], unescaped(body.skip(2)))
        } else if body[1] == 0x72 {
            followed_by(seq![0x0Du8], unescaped(body.skip(2)))
        } else if body[1] == 0x74 {
            followed_by(seq![0x09u8], unescaped(body.skip(2)))
        } else if body[1] == 0x75 {
            match hex4(body, 2) {
                None => None,
                Some(unit) => if 0xD800 <= unit <= 0xDBFF {
                    if body.len() >= 12 && body[6] == BACKSLASH && body[7] == 0x75 {
                        match hex4(body, 8) {
                            Some(low) => if 0xDC00 <= low <= 0xDFFF {
                                followed_by(
                                    encode_scalar(
                                        (0x10000 + (unit - 0xD800) * 0x400 + (low - 0xDC00)) as u32,
                                    ),
                                    unescaped(body.skip(12)),
                                )
                            } else {
                                None
                            },
                            None => None,
                        }
                    } else {
                        None
                    }
                } else if 0xDC00 <= unit <= 0xDFFF {
                    None
                } else {
                    followed_by(encode_scalar(unit), unescaped(body.skip(6)))
                },
            }
        } else {
            None
        }
    } else if body[0] == QUOTE || body[0] < 0x20 {
        None
    } else {
        followed_by(seq![body[0]], unescaped(body.skip(1)))
    }
}

/// The payload that a string token stands for: what its body, the bytes
/// between its two quotes, stands for.
pub open spec fn read_string(token: Seq<u8>) -> Option<Seq<u8>> {
    if token.len() >= 2 && token.first() == QUOTE && token.last() == QUOTE {
        unescaped(token.subrange(1, token.len() - 1))
    } else {
        None
    }
}

/// The two digits that the encoder writes for a control byte spell it.
proof fn lemma_hex_digits_spell(c: u8)
    requires
        c < 0x20,
    ensures
        hex_value(hex_upper(c / 16)) == Some((c / 16) as u32),
        hex_value(hex_upper(c % 16)) == Some((c % 16) as u32),
{
}

/// A code point below 0x80 is one byte of UTF-8: itself.
proof fn lemma_one_byte_scalar(c: u8)
    requires
        c < 0x80,
    ensures
        encode_scalar(c as u32) == seq![c],
{
    let v = c as u32;
    assert(v & 0x7F == v) by (bit_vector)
        requires
            v < 0x80,
    ;
}

/// Reading back the escape of one byte, with more of a body behind it, gives
/// that byte and then what the rest gives.
proof fn lemma_unescape_one(c: u8, rest: Seq<u8>)
    ensures
        unescaped(escape_byte(c) + rest) == followed_by(seq![c], unescaped(rest)),
{
    let esc = escape_byte(c);
    let body = esc + rest;
    assert(body.skip(esc.len() as int) =~= rest);
    assert(body[0] == esc[0]);
    if esc.len() >= 2 {
        assert(body[1] == esc[1]);
    }
    if c != QUOTE && c != BACKSLASH && c < 0x20 && c != 0x08 && c != 0x09 && c != 0x0A && c != 0x0C
        && c != 0x0D {
        assert(body[2] == 0x30 && body[3] == 0x30 && body[4] == hex_upper(c / 16) && body[5]
            == hex_upper(c % 16)) by {
            assert(body[2] == esc[2]);
            assert(body[3] == esc[3]);
            assert(body[4] == esc[4]);
            assert(body[5] == esc[5]);
        }
        lemma_hex_digits_spell(c);
        assert(hex4(body, 2) == Some(c as u32));
        lemma_one_byte_scalar(c);
    }
}

/// The escaped payload is the escape of the first byte and then the escaped
/// rest.
pub proof fn lemma_escaped_unfolds(payload: Seq<u8>)
    requires
        payload.len() > 0,
    ensures
        escaped(payload) == escape_byte(payload[0]) + escaped(payload.drop_first()),
{
    let chunks = escape_chunks(payload);
    assert(chunks.first() == escape_byte(payload[0]));
    assert(chunks.drop_first() =~= escape_chunks(payload.drop_first()));
}

/// Round trip: escaping a payload and reading the result back as a JSON
/// parser does gives the payload again, whatever bytes it holds: quotes,
/// backslashes, every control byte, and all the bytes that pass unescaped.
pub proof fn lemma_escape_round_trip(payload: Seq<u8>)
    ensures
        unescaped(escaped(payload)) == Some(payload),
    decreases payload.len(),
{
    if payload.len() == 0 {
        assert(escape_chunks(payload) =~= Seq::<Seq<u8>>::empty());
        assert(escaped(payload) =~= Seq::<u8>::empty());
    } else {
        let rest = payload.drop_first();
        lemma_escaped_unfolds(payload);
        lemma_escape_round_trip(rest);
        lemma_unescape_one(payload[0], escaped(rest));
        assert(seq![payload[0]] + rest =~= payload);
    }
}

} // verus!
