//! The proof that what the encoder writes is minified JSON, for every tree
//! whose pieces are JSON: numbers whose text is a JSON number, and keys and
//! unescaped payloads that are well-formed string bodies.

use crate::encoding::lemma_text_is_utf8;
use crate::escape::escape_byte;
use crate::escape::escape_chunks;
use crate::escape::escaped;
use crate::escape::hex_upper;
use crate::grammar::body_end;
use crate::grammar::char_len;
use crate::grammar::digits_end;
use crate::grammar::elements_end;
use crate::grammar::exp_end;
use crate::grammar::frac_end;
use crate::grammar::int_end;
use crate::grammar::is_digit;
use crate::grammar::is_hex_digit;
use crate::grammar::is_json;
use crate::grammar::is_number;
use crate::grammar::is_string_body;
use crate::grammar::members_end;
use crate::grammar::number_end;
use crate::grammar::stands_at;
use crate::grammar::string_end;
use crate::grammar::value_end;
use crate::text::lemma_elements_text_from_front;
use crate::text::lemma_members_text_from_front;
use crate::text::lemma_no_elements_written;
use crate::text::lemma_no_members_written;
use crate::text::lemma_text_shape;
use crate::token::false_token;
use crate::token::null_token;
use crate::token::true_token;
use crate::token::CLOSE_BRACE;
use crate::token::CLOSE_BRACKET;
use crate::token::COLON;
use crate::token::COMMA;
use crate::token::OPEN_BRACE;
use crate::token::OPEN_BRACKET;
use crate::token::QUOTE;
use crate::unescape::lemma_escaped_unfolds;
use crate::value::defined;
use crate::value::element_emissions;
use crate::value::member_emissions;
use crate::value::present;
use crate::value::TachyonPair;
use crate::value::TachyonValue;
use vstd::prelude::*;
use vstd::string::StringSliceAdditionalSpecFns;

verus! {

/// The escape of a byte is one escape or character of a string body.
proof fn lemma_escape_is_one_char(c: u8, rest: Seq<u8>)
    ensures
        char_len(escape_byte(c) + rest) == Some(escape_byte(c).len() as int),
        (escape_byte(c) + rest).skip(escape_byte(c).len() as int) == rest,
{
    let esc = escape_byte(c);
    let body = esc + rest;
    assert(body.skip(esc.len() as int) =~= rest);
    assert(body[0] == esc[0]);
    if esc.len() >= 2 {
        assert(body[1] == esc[1]);
    }
    if esc.len() == 6 {
        assert(body[2] == esc[2]);
        assert(body[3] == esc[3]);
        assert(body[4] == esc[4]);
        assert(body[5] == esc[5]);
        assert(is_hex_digit(hex_upper(c / 16)));
        assert(is_hex_digit(hex_upper(c % 16)));
    }
}

/// Every escaped payload is a well-formed string body.
pub proof fn lemma_escaped_is_string_body(payload: Seq<u8>)
    ensures
        is_string_body(escaped(payload)),
    decreases payload.len(),
{
    if payload.len() == 0 {
        assert(escape_chunks(payload) =~= Seq::<Seq<u8>>::empty());
        assert(escaped(payload) =~= Seq::<u8>::empty());
    } else {
        let rest = payload.drop_first();
        lemma_escaped_unfolds(payload);
        lemma_escaped_is_string_body(rest);
        lemma_escape_is_one_char(payload[0], escaped(rest));
    }
}

/// A well-formed body with a quote behind it is read to just behind that
/// quote, wherever it stands.
proof fn lemma_body_in_context(body: Seq<u8>, s: Seq<u8>, at: int)
    requires
        is_string_body(body),
        stands_at(s, at, body),
        at + body.len() < s.len(),
        s[at + body.len()] == QUOTE,
    ensures
        body_end(s, at) == Some(at + body.len() + 1),
    decreases body.len(),
{
    if body.len() > 0 {
        let n = char_len(body)->0;
        let here = s.skip(at);
        assert(forall|k: int| 0 <= k < body.len() ==> here[k] == s.subrange(
            at,
            at + body.len(),
        )[k]);
        assert(here[0] == body[0]);
        if n >= 2 {
            assert(here[1] == body[1]);
        }
        if n == 6 {
            assert(here[2] == body[2]);
            assert(here[3] == body[3]);
            assert(here[4] == body[4]);
            assert(here[5] == body[5]);
        }
        assert(char_len(here) == Some(n));
        assert(s.subrange(at + n, at + n + body.skip(n).len()) =~= body.skip(n));
        lemma_body_in_context(body.skip(n), s, at + n);
    }
}

/// A well-formed body between quotes is read as one string, wherever it
/// stands.
pub proof fn lemma_string_in_context(body: Seq<u8>, s: Seq<u8>, at: int)
    requires
        is_string_body(body),
        stands_at(s, at, seq![QUOTE] + body + seq![QUOTE]),
    ensures
        string_end(s, at) == Some(at + body.len() + 2),
{
    let quoted = seq![QUOTE] + body + seq![QUOTE];
    let found = s.subrange(at, at + quoted.len());
    assert(found[0] == QUOTE);
    assert(found[body.len() as int + 1] == QUOTE);
    assert(s.subrange(at + 1, at + 1 + body.len()) =~= body) by {
        assert forall|k: int| 0 <= k < body.len() implies s[at + 1 + k] == body[k] by {
            assert(found[k + 1] == quoted[k + 1]);
        }
    }
    lemma_body_in_context(body, s, at + 1);
}

/// No byte that can continue a number stands at `at`: the text ends there,
/// or another token starts.
pub open spec fn number_stops(s: Seq<u8>, at: int) -> bool {
    at >= s.len() || !(is_digit(s[at]) || s[at] == 0x2E || s[at] == 0x65 || s[at] == 0x45)
}

/// A run of digits inside a text is the same run wherever the text stands,
/// if no digit follows the text.
proof fn lemma_digits_in_context(text: Seq<u8>, p: int, s: Seq<u8>, at: int)
    requires
        stands_at(s, at, text),
        0 <= p <= text.len(),
        number_stops(s, at + text.len()),
    ensures
        digits_end(s, at + p) == at + digits_end(text, p),
        p <= digits_end(text, p) <= text.len(),
    decreases text.len() - p,
{
    if p < text.len() {
        assert(s[at + p] == s.subrange(at, at + text.len())[p]);
        if is_digit(text[p]) {
            lemma_digits_in_context(text, p + 1, s, at);
        }
    }
}

/// A JSON number is read as the same number wherever it stands, if no byte
/// that can continue a number follows it.
pub proof fn lemma_number_in_context(text: Seq<u8>, s: Seq<u8>, at: int)
    requires
        is_number(text),
        stands_at(s, at, text),
        number_stops(s, at + text.len()),
    ensures
        number_end(s, at) == Some(at + text.len()),
        text.len() > 0,
        text[0] == 0x2D || is_digit(text[0]),
{
    let n = text.len() as int;
    assert forall|k: int| 0 <= k < n implies s[at + k] == text[k] by {
        assert(s[at + k] == s.subrange(at, at + n)[k]);
    }
    let unsigned = if 0 < n && text[0] == 0x2D {
        1int
    } else {
        0int
    };
    assert(int_end(text, unsigned) is Some);
    let int_part = int_end(text, unsigned)->0;
    lemma_digits_in_context(text, unsigned, s, at);
    assert(int_end(s, at + unsigned) == Some(at + int_part));
    assert(unsigned < int_part <= n);
    assert(frac_end(text, int_part) is Some);
    let frac_part = frac_end(text, int_part)->0;
    if int_part < n {
        lemma_digits_in_context(text, int_part + 1, s, at);
    }
    assert(frac_end(s, at + int_part) == Some(at + frac_part));
    assert(int_part <= frac_part <= n);
    if frac_part < n {
        let digits = if frac_part + 1 < n && (text[frac_part + 1] == 0x2B || text[frac_part + 1]
            == 0x2D) {
            frac_part + 2
        } else {
            frac_part + 1
        };
        lemma_digits_in_context(text, digits, s, at);
    }
    assert(exp_end(s, at + frac_part) == Some(at + n));
}


/// No byte that can continue a token stands at `at`: the text ends there, or
/// a comma or a closing bracket or brace follows.
pub open spec fn token_stops(s: Seq<u8>, at: int) -> bool {
    at >= s.len() || s[at] == COMMA || s[at] == CLOSE_BRACKET || s[at] == CLOSE_BRACE
}

impl<'a> TachyonValue<'a> {
    /// Every piece of this tree that is written as it stands is JSON by
    /// itself: each number's text is a JSON number, each key is a
    /// well-formed string body, and so is each string payload where
    /// payloads are not escaped. Members and elements that are `Undefined`
    /// are not written and do not count; a tree that is `Undefined` itself
    /// has no text.
    pub open spec fn renders_json(self, no_escape: bool) -> bool
        decreases self,
    {
        match self {
            TachyonValue::String(s) => no_escape ==> is_string_body(s.spec_bytes()),
            TachyonValue::Number(text) => is_number(text.spec_bytes()),
            TachyonValue::Object(obj) => forall|i: int|
                #![trigger obj.pairs@[i]]
                0 <= i < obj.pairs@.len() ==> obj.pairs@[i].value is Undefined || (is_string_body(
                    obj.pairs@[i].key.spec_bytes(),
                ) && obj.pairs@[i].value.renders_json(no_escape)),
            TachyonValue::Array(items) => forall|i: int|
                #![trigger items@[i]]
                0 <= i < items@.len() ==> items@[i] is Undefined || items@[i].renders_json(
                    no_escape,
                ),
            TachyonValue::True => true,
            TachyonValue::False => true,
            TachyonValue::Null => true,
            TachyonValue::Undefined => false,
        }
    }
}

/// Where two texts stand one behind the other, each stands in its place.
proof fn lemma_stands_split(s: Seq<u8>, at: int, a: Seq<u8>, b: Seq<u8>)
    requires
        stands_at(s, at, a + b),
    ensures
        stands_at(s, at, a),
        stands_at(s, at + a.len(), b),
{
    let whole = s.subrange(at, at + (a + b).len());
    assert(s.subrange(at, at + a.len()) =~= a) by {
        assert forall|k: int| 0 <= k < a.len() implies s[at + k] == a[k] by {
            assert(whole[k] == (a + b)[k]);
        }
    }
    assert(s.subrange(at + a.len(), at + a.len() + b.len()) =~= b) by {
        assert forall|k: int| 0 <= k < b.len() implies s[at + a.len() + k] == b[k] by {
            assert(whole[a.len() + k] == (a + b)[a.len() + k]);
        }
    }
}

/// Where a text stands, its bytes stand.
proof fn lemma_stands_byte(s: Seq<u8>, at: int, a: Seq<u8>, k: int)
    requires
        stands_at(s, at, a),
        0 <= k < a.len(),
    ensures
        s[at + k] == a[k],
{
    assert(s.subrange(at, at + a.len())[k] == a[k]);
}

/// A literal name is read where it stands.
proof fn lemma_literal_in_context(token: Seq<u8>, s: Seq<u8>, at: int)
    requires
        token == true_token() || token == false_token() || token == null_token(),
        stands_at(s, at, token),
    ensures
        value_end(s, at) == Some(at + token.len()),
{
    lemma_stands_byte(s, at, token, 0);
    if stands_at(s, at, true_token()) {
        lemma_stands_byte(s, at, true_token(), 0);
    }
    if stands_at(s, at, false_token()) {
        lemma_stands_byte(s, at, false_token(), 0);
    }
    if stands_at(s, at, null_token()) {
        lemma_stands_byte(s, at, null_token(), 0);
    }
}

/// A number is read as a value where it stands, if a token stop follows.
proof fn lemma_number_value_in_context(text: Seq<u8>, s: Seq<u8>, at: int)
    requires
        is_number(text),
        stands_at(s, at, text),
        token_stops(s, at + text.len()),
    ensures
        value_end(s, at) == Some(at + text.len()),
        text.len() > 0,
        text[0] == 0x2D || is_digit(text[0]),
{
    lemma_number_in_context(text, s, at);
    lemma_stands_byte(s, at, text, 0);
    if stands_at(s, at, true_token()) {
        lemma_stands_byte(s, at, true_token(), 0);
    }
    if stands_at(s, at, false_token()) {
        lemma_stands_byte(s, at, false_token(), 0);
    }
    if stands_at(s, at, null_token()) {
        lemma_stands_byte(s, at, null_token(), 0);
    }
}

/// The text of a tree whose pieces are JSON is read as one value wherever it
/// stands, if a token stop follows it. It is not empty, and it starts with
/// no byte that separates or closes.
pub proof fn lemma_value_in_context(v: TachyonValue<'_>, no_escape: bool, s: Seq<u8>, at: int)
    requires
        v.renders_json(no_escape),
        stands_at(s, at, v.json_text(no_escape)),
        token_stops(s, at + v.json_text(no_escape).len()),
    ensures
        value_end(s, at) == Some(at + v.json_text(no_escape).len()),
        v.json_text(no_escape).len() > 0,
        s[at] != COMMA && s[at] != CLOSE_BRACKET && s[at] != CLOSE_BRACE,
    decreases v,
{
    let text = v.json_text(no_escape);
    lemma_text_shape(v, no_escape);
    match v {
        TachyonValue::String(p) => {
            let body = if no_escape {
                p.spec_bytes()
            } else {
                escaped(p.spec_bytes())
            };
            if !no_escape {
                lemma_escaped_is_string_body(p.spec_bytes());
            }
            lemma_string_in_context(body, s, at);
            lemma_stands_byte(s, at, text, 0);
        },
        TachyonValue::Number(t) => {
            lemma_number_value_in_context(t.spec_bytes(), s, at);
            lemma_stands_byte(s, at, text, 0);
        },
        TachyonValue::Object(obj) => {
            let inner = member_emissions(obj.pairs@, no_escape).flatten();
            lemma_stands_split(s, at, seq![OPEN_BRACE] + inner, seq![CLOSE_BRACE]);
            lemma_stands_split(s, at, seq![OPEN_BRACE], inner);
            lemma_stands_byte(s, at, seq![OPEN_BRACE], 0);
            lemma_stands_byte(s, at + 1 + inner.len(), seq![CLOSE_BRACE], 0);
            if present(obj.pairs@).len() == 0 {
                lemma_no_members_written(obj.pairs@, no_escape);
                assert(inner =~= Seq::<u8>::empty());
            } else {
                lemma_members_in_context(obj.pairs@, no_escape, s, at + 1);
            }
        },
        TachyonValue::Array(items) => {
            let inner = element_emissions(items@, no_escape).flatten();
            lemma_stands_split(s, at, seq![OPEN_BRACKET] + inner, seq![CLOSE_BRACKET]);
            lemma_stands_split(s, at, seq![OPEN_BRACKET], inner);
            lemma_stands_byte(s, at, seq![OPEN_BRACKET], 0);
            lemma_stands_byte(s, at + 1 + inner.len(), seq![CLOSE_BRACKET], 0);
            if defined(items@).len() == 0 {
                lemma_no_elements_written(items@, no_escape);
                assert(inner =~= Seq::<u8>::empty());
            } else {
                lemma_elements_in_context(items@, no_escape, s, at + 1);
            }
        },
        TachyonValue::True => {
            lemma_literal_in_context(true_token(), s, at);
            lemma_stands_byte(s, at, text, 0);
        },
        TachyonValue::False => {
            lemma_literal_in_context(false_token(), s, at);
            lemma_stands_byte(s, at, text, 0);
        },
        TachyonValue::Null => {
            lemma_literal_in_context(null_token(), s, at);
            lemma_stands_byte(s, at, text, 0);
        },
        TachyonValue::Undefined => {},
    }
}

/// The text of the elements of an array, of which at least one is written,
/// is read up to and with the closing bracket that follows it.
pub proof fn lemma_elements_in_context(
    items: Seq<TachyonValue<'_>>,
    no_escape: bool,
    s: Seq<u8>,
    at: int,
)
    requires
        forall|i: int|
            #![trigger items[i]]
            0 <= i < items.len() ==> items[i] is Undefined || items[i].renders_json(no_escape),
        defined(items).len() > 0,
        stands_at(s, at, element_emissions(items, no_escape).flatten()),
        at + element_emissions(items, no_escape).flatten().len() < s.len(),
        s[at + element_emissions(items, no_escape).flatten().len()] == CLOSE_BRACKET,
    ensures
        elements_end(s, at) == Some(
            at + element_emissions(items, no_escape).flatten().len() + 1,
        ),
        s[at] != CLOSE_BRACKET,
    decreases items,
{
    reveal(Seq::filter);
    assert(items.len() > 0);
    let x = items[0];
    let rest = items.drop_first();
    let text = element_emissions(items, no_escape).flatten();
    lemma_elements_text_from_front(items, no_escape);
    assert forall|i: int| #![trigger rest[i]] 0 <= i < rest.len() implies rest[i] is Undefined
        || rest[i].renders_json(no_escape) by {
        assert(rest[i] == items[i + 1]);
    }
    if x is Undefined {
        lemma_elements_in_context(rest, no_escape, s, at);
    } else {
        let first = x.json_text(no_escape);
        if defined(rest).len() == 0 {
            assert(text =~= first);
            lemma_value_in_context(x, no_escape, s, at);
        } else {
            let more = element_emissions(rest, no_escape).flatten();
            assert(text =~= (first + seq![COMMA]) + more);
            lemma_stands_split(s, at, first + seq![COMMA], more);
            lemma_stands_split(s, at, first, seq![COMMA]);
            lemma_stands_byte(s, at + first.len(), seq![COMMA], 0);
            lemma_value_in_context(x, no_escape, s, at);
            lemma_elements_in_context(rest, no_escape, s, at + first.len() + 1);
        }
    }
}

/// The text of the members of an object, of which at least one is written,
/// is read up to and with the closing brace that follows it.
pub proof fn lemma_members_in_context(
    pairs: Seq<TachyonPair<'_>>,
    no_escape: bool,
    s: Seq<u8>,
    at: int,
)
    requires
        forall|i: int|
            #![trigger pairs[i]]
            0 <= i < pairs.len() ==> pairs[i].value is Undefined || (is_string_body(
                pairs[i].key.spec_bytes(),
            ) && pairs[i].value.renders_json(no_escape)),
        present(pairs).len() > 0,
        stands_at(s, at, member_emissions(pairs, no_escape).flatten()),
        at + member_emissions(pairs, no_escape).flatten().len() < s.len(),
        s[at + member_emissions(pairs, no_escape).flatten().len()] == CLOSE_BRACE,
    ensures
        members_end(s, at) == Some(at + member_emissions(pairs, no_escape).flatten().len() + 1),
        s[at] != CLOSE_BRACE,
    decreases pairs,
{
    reveal(Seq::filter);
    assert(pairs.len() > 0);
    let x = pairs[0];
    let rest = pairs.drop_first();
    let text = member_emissions(pairs, no_escape).flatten();
    lemma_members_text_from_front(pairs, no_escape);
    assert forall|i: int| #![trigger rest[i]] 0 <= i < rest.len() implies rest[i].value
        is Undefined || (is_string_body(rest[i].key.spec_bytes()) && rest[i].value.renders_json(
        no_escape,
    )) by {
        assert(rest[i] == pairs[i + 1]);
    }
    if x.value is Undefined {
        lemma_members_in_context(rest, no_escape, s, at);
    } else {
        let key = seq![QUOTE] + x.key.spec_bytes() + seq![QUOTE];
        let val = x.value.json_text(no_escape);
        let head = key + seq![COLON] + val;
        if present(rest).len() == 0 {
            assert(text =~= head);
            lemma_stands_split(s, at, key + seq![COLON], val);
            lemma_stands_split(s, at, key, seq![COLON]);
            lemma_stands_byte(s, at + key.len(), seq![COLON], 0);
            lemma_stands_byte(s, at, key, 0);
            lemma_string_in_context(x.key.spec_bytes(), s, at);
            lemma_value_in_context(x.value, no_escape, s, at + key.len() + 1);
        } else {
            let more = member_emissions(rest, no_escape).flatten();
            assert(text =~= (head + seq![COMMA]) + more);
            lemma_stands_split(s, at, head + seq![COMMA], more);
            lemma_stands_split(s, at, head, seq![COMMA]);
            lemma_stands_byte(s, at + head.len(), seq![COMMA], 0);
            lemma_stands_split(s, at, key + seq![COLON], val);
            lemma_stands_split(s, at, key, seq![COLON]);
            lemma_stands_byte(s, at + key.len(), seq![COLON], 0);
            lemma_stands_byte(s, at, key, 0);
            lemma_string_in_context(x.key.spec_bytes(), s, at);
            lemma_value_in_context(x.value, no_escape, s, at + key.len() + 1);
            lemma_members_in_context(rest, no_escape, s, at + head.len() + 1);
        }
    }
}

/// What the encoder writes for a tree whose pieces are JSON is one JSON
/// value with no white space between its tokens.
pub proof fn lemma_rendered_tree_is_json(v: TachyonValue<'_>, no_escape: bool)
    requires
        v.renders_json(no_escape),
    ensures
        is_json(v.json_text(no_escape)),
{
    let text = v.json_text(no_escape);
    assert(text.subrange(0, text.len() as int) =~= text);
    lemma_value_in_context(v, no_escape, text, 0);
    lemma_text_is_utf8(v, no_escape);
}

} // verus!
