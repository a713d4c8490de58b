//! The proof that the text of every tree is well-formed UTF-8: escaping
//! touches only bytes below 0x80 and puts bytes below 0x80 in their place,
//! and everything else that is written is text or punctuation.

use crate::escape::escape_byte;
use crate::escape::escape_chunks;
use crate::escape::escaped;
use crate::token::false_token;
use crate::token::null_token;
use crate::token::true_token;
use crate::token::COLON;
use crate::token::CLOSE_BRACE;
use crate::token::CLOSE_BRACKET;
use crate::token::COMMA;
use crate::token::OPEN_BRACE;
use crate::token::OPEN_BRACKET;
use crate::token::QUOTE;
use crate::unescape::lemma_escaped_unfolds;
use crate::text::lemma_text_shape;
use crate::value::defined;
use crate::value::element_emissions;
use crate::value::key_emissions;
use crate::value::member_emissions;
use crate::value::present;
use crate::value::separator;
use crate::value::TachyonPair;
use crate::value::TachyonValue;
use vstd::prelude::*;
use vstd::seq_lib::lemma_flatten_concat;
use vstd::string::StringSliceAdditionalSpecFns;
use vstd::utf8::encode_utf8_valid_utf8;
use vstd::utf8::length_of_first_scalar;
use vstd::utf8::pop_first_scalar;
use vstd::utf8::take_first_scalar;
use vstd::utf8::valid_first_scalar;
use vstd::utf8::valid_utf8;
use vstd::utf8::valid_utf8_concat;

verus! {

/// Every byte is below 0x80.
pub open spec fn is_ascii_bytes(s: Seq<u8>) -> bool {
    forall|i: int| 0 <= i < s.len() ==> s[i] < 0x80
}

/// Bytes below 0x80 are well-formed UTF-8, each a character of its own.
pub proof fn lemma_ascii_is_utf8(s: Seq<u8>)
    requires
        is_ascii_bytes(s),
    ensures
        valid_utf8(s),
    decreases s.len(),
{
    if s.len() > 0 {
        let b = s[0];
        assert(b & 0x7F <= 0x7F) by (bit_vector);
        assert(valid_first_scalar(s));
        assert(length_of_first_scalar(s) == 1);
        lemma_ascii_is_utf8(pop_first_scalar(s));
    }
}

/// The escape of a byte below 0x80 is made of bytes below 0x80.
proof fn lemma_escape_stays_ascii(c: u8)
    requires
        c < 0x80,
    ensures
        is_ascii_bytes(escape_byte(c)),
{
}

/// Escaping goes byte by byte: the escape of two payloads, one behind the
/// other, is their escapes, one behind the other.
pub proof fn lemma_escaped_concat(a: Seq<u8>, b: Seq<u8>)
    ensures
        escaped(a + b) == escaped(a) + escaped(b),
{
    assert(escape_chunks(a + b) =~= escape_chunks(a) + escape_chunks(b));
    lemma_flatten_concat(escape_chunks(a), escape_chunks(b));
}

/// Bytes from 0x80 up pass unescaped.
proof fn lemma_high_bytes_pass(s: Seq<u8>)
    requires
        forall|i: int| 0 <= i < s.len() ==> s[i] >= 0x80,
    ensures
        escaped(s) == s,
    decreases s.len(),
{
    if s.len() == 0 {
        assert(escape_chunks(s) =~= Seq::<Seq<u8>>::empty());
        assert(escaped(s) =~= s);
    } else {
        lemma_escaped_unfolds(s);
        lemma_high_bytes_pass(s.drop_first());
        assert(seq![s[0]] + s.drop_first() =~= s);
    }
}

/// The escape of a single byte is the escaped payload of that byte alone.
proof fn lemma_escaped_single(c: u8)
    ensures
        escaped(seq![c]) == escape_byte(c),
{
    let one = seq![c];
    lemma_escaped_unfolds(one);
    assert(escape_chunks(one.drop_first()) =~= Seq::<Seq<u8>>::empty());
    assert(escaped(one.drop_first()) =~= Seq::<u8>::empty());
    assert(escape_byte(c) + Seq::<u8>::empty() =~= escape_byte(c));
}

/// The first character of well-formed UTF-8, escaped by itself, is
/// well-formed UTF-8.
proof fn lemma_first_scalar_escaped(bytes: Seq<u8>)
    requires
        bytes.len() > 0,
        valid_first_scalar(bytes),
    ensures
        valid_utf8(escaped(take_first_scalar(bytes))),
{
    let first = take_first_scalar(bytes);
    let n = length_of_first_scalar(bytes);
    if n == 1 {
        assert(first =~= seq![bytes[0]]);
        lemma_escaped_single(bytes[0]);
        lemma_escape_stays_ascii(bytes[0]);
        lemma_ascii_is_utf8(escape_byte(bytes[0]));
    } else {
        assert forall|i: int| 0 <= i < first.len() implies first[i] >= 0x80 by {
            assert(first[i] == bytes[i]);
        }
        lemma_high_bytes_pass(first);
        assert(first[0] == bytes[0]);
        assert(first[1] == bytes[1]);
        if n >= 3 {
            assert(first[2] == bytes[2]);
        }
        if n >= 4 {
            assert(first[3] == bytes[3]);
        }
        assert(valid_first_scalar(first));
        assert(pop_first_scalar(first) =~= Seq::<u8>::empty());
        assert(valid_utf8(pop_first_scalar(first)));
    }
}

/// Escaping keeps well-formed UTF-8 well-formed.
pub proof fn lemma_escaped_is_utf8(payload: Seq<u8>)
    requires
        valid_utf8(payload),
    ensures
        valid_utf8(escaped(payload)),
    decreases payload.len(),
{
    if payload.len() == 0 {
        assert(escape_chunks(payload) =~= Seq::<Seq<u8>>::empty());
        assert(escaped(payload) =~= Seq::<u8>::empty());
    } else {
        let first = take_first_scalar(payload);
        let rest = pop_first_scalar(payload);
        assert(first + rest =~= payload);
        lemma_first_scalar_escaped(payload);
        lemma_escaped_is_utf8(rest);
        lemma_escaped_concat(first, rest);
        valid_utf8_concat(escaped(first), escaped(rest));
    }
}

/// A payload between quotes is well-formed UTF-8 where the payload is.
proof fn lemma_quoted_is_utf8(body: Seq<u8>)
    requires
        valid_utf8(body),
    ensures
        valid_utf8(seq![QUOTE] + body + seq![QUOTE]),
{
    lemma_ascii_is_utf8(seq![QUOTE]);
    valid_utf8_concat(seq![QUOTE], body);
    valid_utf8_concat(seq![QUOTE] + body, seq![QUOTE]);
}

/// The text of a member's key and colon is well-formed UTF-8.
proof fn lemma_key_is_utf8(key: Seq<u8>)
    requires
        valid_utf8(key),
    ensures
        valid_utf8(key_emissions(key).flatten()),
{
    let front = seq![seq![QUOTE]] + seq![key] + seq![seq![QUOTE]];
    assert(key_emissions(key) =~= front + seq![seq![COLON]]);
    lemma_flatten_concat(front, seq![seq![COLON]]);
    lemma_flatten_concat(seq![seq![QUOTE]] + seq![key], seq![seq![QUOTE]]);
    lemma_flatten_concat(seq![seq![QUOTE]], seq![key]);
    seq![seq![QUOTE]].lemma_flatten_one_element();
    seq![key].lemma_flatten_one_element();
    seq![seq![COLON]].lemma_flatten_one_element();
    lemma_quoted_is_utf8(key);
    lemma_ascii_is_utf8(seq![COLON]);
    valid_utf8_concat(seq![QUOTE] + key + seq![QUOTE], seq![COLON]);
}

/// The text of a separator is well-formed UTF-8.
proof fn lemma_separator_is_utf8(first: bool)
    ensures
        valid_utf8(separator(first).flatten()),
{
    if first {
        assert(separator(first).flatten() =~= Seq::<u8>::empty());
    } else {
        seq![seq![COMMA]].lemma_flatten_one_element();
        lemma_ascii_is_utf8(seq![COMMA]);
    }
}

/// The text of every tree is well-formed UTF-8, in either escaping mode.
pub proof fn lemma_text_is_utf8(v: TachyonValue<'_>, no_escape: bool)
    ensures
        valid_utf8(v.json_text(no_escape)),
    decreases v,
{
    lemma_text_shape(v, no_escape);
    match v {
        TachyonValue::String(p) => {
            encode_utf8_valid_utf8(p@);
            if no_escape {
                lemma_quoted_is_utf8(p.spec_bytes());
            } else {
                lemma_escaped_is_utf8(p.spec_bytes());
                lemma_quoted_is_utf8(escaped(p.spec_bytes()));
            }
        },
        TachyonValue::Number(t) => {
            encode_utf8_valid_utf8(t@);
        },
        TachyonValue::Object(obj) => {
            let inner = member_emissions(obj.pairs@, no_escape).flatten();
            lemma_members_text_is_utf8(obj.pairs@, no_escape);
            lemma_ascii_is_utf8(seq![OPEN_BRACE]);
            lemma_ascii_is_utf8(seq![CLOSE_BRACE]);
            valid_utf8_concat(seq![OPEN_BRACE], inner);
            valid_utf8_concat(
                seq![OPEN_BRACE] + inner,
                seq![CLOSE_BRACE],
            );
        },
        TachyonValue::Array(items) => {
            let inner = element_emissions(items@, no_escape).flatten();
            lemma_elements_text_is_utf8(items@, no_escape);
            lemma_ascii_is_utf8(seq![OPEN_BRACKET]);
            lemma_ascii_is_utf8(seq![CLOSE_BRACKET]);
            valid_utf8_concat(seq![OPEN_BRACKET], inner);
            valid_utf8_concat(
                seq![OPEN_BRACKET] + inner,
                seq![CLOSE_BRACKET],
            );
        },
        TachyonValue::True => {
            lemma_ascii_is_utf8(true_token());
        },
        TachyonValue::False => {
            lemma_ascii_is_utf8(false_token());
        },
        TachyonValue::Null => {
            lemma_ascii_is_utf8(null_token());
        },
        TachyonValue::Undefined => {
            assert(v.json_text(no_escape) =~= Seq::<u8>::empty());
        },
    }
}

/// The text of the elements of an array is well-formed UTF-8.
pub proof fn lemma_elements_text_is_utf8(items: Seq<TachyonValue<'_>>, no_escape: bool)
    ensures
        valid_utf8(element_emissions(items, no_escape).flatten()),
    decreases items,
{
    if items.len() == 0 {
        assert(element_emissions(items, no_escape).flatten() =~= Seq::<u8>::empty());
    } else {
        let before = items.drop_last();
        let last = items.last();
        lemma_elements_text_is_utf8(before, no_escape);
        if !(last is Undefined) {
            let b = element_emissions(before, no_escape);
            let sep = separator(defined(before).len() == 0);
            let e = last.emissions(no_escape);
            lemma_text_is_utf8(last, no_escape);
            lemma_separator_is_utf8(defined(before).len() == 0);
            lemma_flatten_concat(b + sep, e);
            lemma_flatten_concat(b, sep);
            valid_utf8_concat(b.flatten(), sep.flatten());
            valid_utf8_concat(b.flatten() + sep.flatten(), e.flatten());
        }
    }
}

/// The text of the members of an object is well-formed UTF-8.
pub proof fn lemma_members_text_is_utf8(pairs: Seq<TachyonPair<'_>>, no_escape: bool)
    ensures
        valid_utf8(member_emissions(pairs, no_escape).flatten()),
    decreases pairs,
{
    if pairs.len() == 0 {
        assert(member_emissions(pairs, no_escape).flatten() =~= Seq::<u8>::empty());
    } else {
        let before = pairs.drop_last();
        let last = pairs.last();
        lemma_members_text_is_utf8(before, no_escape);
        if !(last.value is Undefined) {
            let b = member_emissions(before, no_escape);
            let sep = separator(present(before).len() == 0);
            let k = key_emissions(last.key.spec_bytes());
            let e = last.value.emissions(no_escape);
            lemma_text_is_utf8(last.value, no_escape);
            lemma_separator_is_utf8(present(before).len() == 0);
            encode_utf8_valid_utf8(last.key@);
            lemma_key_is_utf8(last.key.spec_bytes());
            lemma_flatten_concat(b + sep + k, e);
            lemma_flatten_concat(b + sep, k);
            lemma_flatten_concat(b, sep);
            valid_utf8_concat(b.flatten(), sep.flatten());
            valid_utf8_concat(b.flatten() + sep.flatten(), k.flatten());
            valid_utf8_concat(b.flatten() + sep.flatten() + k.flatten(), e.flatten());
        }
    }
}

} // verus!
