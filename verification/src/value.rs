//! The tagged value tree and the encoder that walks it into a buffer.

use crate::buffer::TachyonBuffer;
use crate::escape::escape_chunks;
use crate::escape::write_escape;
use crate::model::BufferView;
use crate::token::false_token;
use crate::token::lemma_literal_names;
use crate::token::null_token;
use crate::token::true_token;
use crate::token::CLOSE_BRACE;
use crate::token::CLOSE_BRACKET;
use crate::token::COLON;
use crate::token::COMMA;
use crate::token::OPEN_BRACE;
use crate::token::OPEN_BRACKET;
use crate::token::QUOTE;
use vstd::prelude::*;
use vstd::string::StringSliceAdditionalSpecFns;

verus! {

/// A JSON value over borrowed text. `Undefined` marks a member or element to
/// leave out; it is never written.
pub enum TachyonValue<'a> {
    /// A string, given by its payload.
    String(&'a str),
    /// A number, given by its decimal text, which is written as it stands.
    Number(&'a str),
    /// An object: its members in order.
    Object(TachyonObject<'a>),
    /// An array: its elements in order.
    Array(Vec<TachyonValue<'a>>),
    True,
    False,
    Null,
    Undefined,
}

/// The members of an object, in the order in which they are written.
pub struct TachyonObject<'a> {
    pub pairs: Vec<TachyonPair<'a>>,
}

/// One member of an object. The key is trusted text: it is written between
/// quotes as it stands, whatever the escaping mode.
pub struct TachyonPair<'a> {
    pub key: &'a str,
    pub value: TachyonValue<'a>,
}

/// The elements that are written: those that are not `Undefined`.
pub open spec fn defined(items: Seq<TachyonValue<'_>>) -> Seq<TachyonValue<'_>> {
    items.filter(|v: TachyonValue<'_>| !(v is Undefined))
}

/// The members that are written: those whose value is not `Undefined`.
pub open spec fn present(pairs: Seq<TachyonPair<'_>>) -> Seq<TachyonPair<'_>> {
    pairs.filter(|p: TachyonPair<'_>| !(p.value is Undefined))
}

/// The writes for a payload between quotes, copied as it stands.
pub open spec fn quoted(payload: Seq<u8>) -> Seq<Seq<u8>> {
    seq![seq![QUOTE], payload, seq![QUOTE]]
}

/// The writes for a payload between quotes, escaped byte by byte.
pub open spec fn quoted_escaped(payload: Seq<u8>) -> Seq<Seq<u8>> {
    seq![seq![QUOTE]] + escape_chunks(payload) + seq![seq![QUOTE]]
}

/// The writes for a member's key and the colon behind it.
pub open spec fn key_emissions(key: Seq<u8>) -> Seq<Seq<u8>> {
    seq![seq![QUOTE], key, seq![QUOTE], seq![COLON]]
}

/// The comma that stands in front of every written member or element but
/// the first.
pub open spec fn separator(first: bool) -> Seq<Seq<u8>> {
    if first {
        Seq::empty()
    } else {
        seq![seq![COMMA]]
    }
}

/// The writes for the elements of an array, between the brackets.
pub open spec fn element_emissions(items: Seq<TachyonValue<'_>>, no_escape: bool) -> Seq<Seq<u8>>
    decreases items,
{
    if items.len() == 0 {
        Seq::empty()
    } else {
        let before = items.drop_last();
        let last = items.last();
        if last is Undefined {
            element_emissions(before, no_escape)
        } else {
            element_emissions(before, no_escape) + separator(defined(before).len() == 0)
                + last.emissions(no_escape)
        }
    }
}

/// The writes for the members of an object, between the braces.
pub open spec fn member_emissions(pairs: Seq<TachyonPair<'_>>, no_escape: bool) -> Seq<Seq<u8>>
    decreases pairs,
{
    if pairs.len() == 0 {
        Seq::empty()
    } else {
        let before = pairs.drop_last();
        let last = pairs.last();
        if last.value is Undefined {
            member_emissions(before, no_escape)
        } else {
            member_emissions(before, no_escape) + separator(present(before).len() == 0)
                + key_emissions(last.key.spec_bytes()) + last.value.emissions(no_escape)
        }
    }
}

impl<'a> TachyonValue<'a> {
    /// The writes that encoding this value makes, in order. Each is one
    /// checked write: it goes in whole or not at all.
    pub open spec fn emissions(self, no_escape: bool) -> Seq<Seq<u8>>
        decreases self,
    {
        match self {
            TachyonValue::String(s) => if no_escape {
                quoted(s.spec_bytes())
            } else {
                quoted_escaped(s.spec_bytes())
            },
            TachyonValue::Number(text) => seq![text.spec_bytes()],
            TachyonValue::Object(obj) => seq![seq![OPEN_BRACE]] + member_emissions(
                obj.pairs@,
                no_escape,
            ) + seq![seq![CLOSE_BRACE]],
            TachyonValue::Array(items) => seq![seq![OPEN_BRACKET]] + element_emissions(
                items@,
                no_escape,
            ) + seq![seq![CLOSE_BRACKET]],
            TachyonValue::True => seq![true_token()],
            TachyonValue::False => seq![false_token()],
            TachyonValue::Null => seq![null_token()],
            TachyonValue::Undefined => Seq::empty(),
        }
    }

    /// The JSON text of this value: its writes, one after the other.
    pub open spec fn json_text(self, no_escape: bool) -> Seq<u8> {
        self.emissions(no_escape).flatten()
    }

    /// The buffer after this value has been encoded into it. `Undefined` as
    /// the value handed to the encoder sets the error flag and writes
    /// nothing.
    pub open spec fn encoded_into(self, out: BufferView, no_escape: bool) -> BufferView {
        if self is Undefined {
            out.fail()
        } else {
            out.write_all(self.emissions(no_escape))
        }
    }
}


/// Taking one more element: what it adds to the writes, and whether it makes
/// the next one need a comma.
proof fn lemma_element_step(items: Seq<TachyonValue<'_>>, i: int, no_escape: bool)
    requires
        0 <= i < items.len(),
    ensures
        items[i] is Undefined ==> element_emissions(items.take(i + 1), no_escape)
            == element_emissions(items.take(i), no_escape),
        items[i] is Undefined ==> defined(items.take(i + 1)) == defined(items.take(i)),
        !(items[i] is Undefined) ==> element_emissions(items.take(i + 1), no_escape)
            == element_emissions(items.take(i), no_escape) + separator(
            defined(items.take(i)).len() == 0,
        ) + items[i].emissions(no_escape),
        !(items[i] is Undefined) ==> defined(items.take(i + 1)).len() > 0,
{
    reveal(Seq::filter);
    assert(items.take(i + 1).drop_last() =~= items.take(i));
    assert(items.take(i + 1).last() == items[i]);
}

/// Taking one more member: what it adds to the writes, and whether it makes
/// the next one need a comma.
proof fn lemma_member_step(pairs: Seq<TachyonPair<'_>>, i: int, no_escape: bool)
    requires
        0 <= i < pairs.len(),
    ensures
        pairs[i].value is Undefined ==> member_emissions(pairs.take(i + 1), no_escape)
            == member_emissions(pairs.take(i), no_escape),
        pairs[i].value is Undefined ==> present(pairs.take(i + 1)) == present(pairs.take(i)),
        !(pairs[i].value is Undefined) ==> member_emissions(pairs.take(i + 1), no_escape)
            == member_emissions(pairs.take(i), no_escape) + separator(
            present(pairs.take(i)).len() == 0,
        ) + key_emissions(pairs[i].key.spec_bytes()) + pairs[i].value.emissions(no_escape),
        !(pairs[i].value is Undefined) ==> present(pairs.take(i + 1)).len() > 0,
{
    reveal(Seq::filter);
    assert(pairs.take(i + 1).drop_last() =~= pairs.take(i));
    assert(pairs.take(i + 1).last() == pairs[i]);
}

/// Writes a payload between quotes as it stands. Where the whole of it is
/// known to fit, the capacity is tested once and the payload goes through
/// the fast-copy dispatcher.
fn write_quoted<const N: usize>(b: &mut TachyonBuffer<N>, payload: &[u8])
    ensures
        final(b)@ == old(b)@.write_all(quoted(payload@)),
        final(b)@.wf(),
{
    let n: usize = payload.len();
    if n <= usize::MAX - 2 && b.has_room(n + 2) {
        b.write_char_fast(QUOTE);
        b.fast_copy(payload);
        b.write_char_fast(QUOTE);
    } else {
        b.write_char(QUOTE);
        b.write(payload);
        b.write_char(QUOTE);
    }
    proof {
        let start = old(b)@;
        let open = seq![seq![QUOTE]];
        assert(quoted(payload@) =~= open.push(payload@).push(seq![QUOTE]));
        start.lemma_write_all_one(seq![QUOTE]);
        start.lemma_write_all_push(open, payload@);
        start.lemma_write_all_push(open.push(payload@), seq![QUOTE]);
    }
}

/// Writes a member's key between quotes as it stands, and the colon behind
/// it. Where the whole of it is known to fit, the capacity is tested once
/// and the key goes through the fast-copy dispatcher.
fn write_key<const N: usize>(b: &mut TachyonBuffer<N>, key: &[u8])
    ensures
        final(b)@ == old(b)@.write_all(key_emissions(key@)),
        final(b)@.wf(),
{
    let n: usize = key.len();
    if n <= usize::MAX - 3 && b.has_room(n + 3) {
        b.write_char_fast(QUOTE);
        b.fast_copy(key);
        b.write_char_fast(QUOTE);
        b.write_char_fast(COLON);
    } else {
        b.write_char(QUOTE);
        b.write(key);
        b.write_char(QUOTE);
        b.write_char(COLON);
    }
    proof {
        let start = old(b)@;
        let open = seq![seq![QUOTE]];
        assert(key_emissions(key@) =~= open.push(key@).push(seq![QUOTE]).push(seq![COLON]));
        start.lemma_write_all_one(seq![QUOTE]);
        start.lemma_write_all_push(open, key@);
        start.lemma_write_all_push(open.push(key@), seq![QUOTE]);
        start.lemma_write_all_push(open.push(key@).push(seq![QUOTE]), seq![COLON]);
    }
}

/// Writes a payload between quotes, escaped byte by byte.
fn write_quoted_escaped<const N: usize>(b: &mut TachyonBuffer<N>, payload: &[u8])
    ensures
        final(b)@ == old(b)@.write_all(quoted_escaped(payload@)),
        final(b)@.wf(),
{
    let ghost start = b@;
    let ghost open = seq![seq![QUOTE]];
    b.write_char(QUOTE);
    proof {
        start.lemma_write_all_one(seq![QUOTE]);
        assert(open + escape_chunks(payload@.take(0)) =~= open);
    }
    let mut i: usize = 0;
    while i < payload.len()
        invariant
            i <= payload.len(),
            open == seq![seq![QUOTE]],
            b@ == start.write_all(open + escape_chunks(payload@.take(i as int))),
            b@.wf(),
        decreases payload.len() - i,
    {
        let ghost done = open + escape_chunks(payload@.take(i as int));
        write_escape(b, payload[i]);
        proof {
            assert(open + escape_chunks(payload@.take(i + 1)) =~= done.push(
                crate::escape::escape_byte(payload@[i as int]),
            ));
            start.lemma_write_all_push(done, crate::escape::escape_byte(payload@[i as int]));
        }
        i += 1;
    }
    b.write_char(QUOTE);
    proof {
        assert(payload@.take(payload.len() as int) =~= payload@);
        let done = open + escape_chunks(payload@);
        assert(quoted_escaped(payload@) =~= done.push(seq![QUOTE]));
        start.lemma_write_all_push(done, seq![QUOTE]);
    }
}

/// Nothing is written of no members and of no elements.
proof fn lemma_none_written()
    ensures
        defined(Seq::empty()).len() == 0,
        present(Seq::empty()).len() == 0,
{
    reveal(Seq::filter);
}

/// Writes the members of an object that are not `Undefined`, with a comma
/// in front of each but the first.
fn encode_members<'a, const N: usize>(
    pairs: &Vec<TachyonPair<'a>>,
    b: &mut TachyonBuffer<N>,
    no_escape: bool,
)
    requires
        old(b)@.wf(),
    ensures
        final(b)@ == old(b)@.write_all(member_emissions(pairs@, no_escape)),
        final(b)@.wf(),
    decreases pairs,
{
    let ghost start = b@;
    proof {
        lemma_none_written();
        assert(pairs@.take(0) =~= Seq::empty());
    }
    let mut first: bool = true;
    let mut i: usize = 0;
    while i < pairs.len()
        invariant
            i <= pairs.len(),
            b@ == start.write_all(member_emissions(pairs@.take(i as int), no_escape)),
            first == (present(pairs@.take(i as int)).len() == 0),
            b@.wf(),
        decreases pairs.len() - i,
    {
        let pair = &pairs[i];
        let ghost done = member_emissions(pairs@.take(i as int), no_escape);
        let ghost sep = separator(first);
        let ghost key = key_emissions(pair.key.spec_bytes());
        let ghost val = pair.value.emissions(no_escape);
        proof {
            lemma_member_step(pairs@, i as int, no_escape);
        }
        if !pair.value.is_undefined() {
            if !first {
                b.write_char(COMMA);
            }
            proof {
                if first {
                    assert(done + sep =~= done);
                } else {
                    assert(done + sep =~= done.push(seq![COMMA]));
                    start.lemma_write_all_push(done, seq![COMMA]);
                }
            }
            first = false;
            write_key(b, pair.key.as_bytes());
            pair.value.encode(b, no_escape);
            proof {
                start.lemma_write_all_concat(done + sep, key);
                start.lemma_write_all_concat(done + sep + key, val);
            }
        }
        i += 1;
    }
    proof {
        assert(pairs@.take(pairs.len() as int) =~= pairs@);
    }
}

/// Writes the elements of an array that are not `Undefined`, with a comma
/// in front of each but the first.
fn encode_elements<'a, const N: usize>(
    items: &Vec<TachyonValue<'a>>,
    b: &mut TachyonBuffer<N>,
    no_escape: bool,
)
    requires
        old(b)@.wf(),
    ensures
        final(b)@ == old(b)@.write_all(element_emissions(items@, no_escape)),
        final(b)@.wf(),
    decreases items,
{
    let ghost start = b@;
    proof {
        lemma_none_written();
        assert(items@.take(0) =~= Seq::empty());
    }
    let mut first: bool = true;
    let mut i: usize = 0;
    while i < items.len()
        invariant
            i <= items.len(),
            b@ == start.write_all(element_emissions(items@.take(i as int), no_escape)),
            first == (defined(items@.take(i as int)).len() == 0),
            b@.wf(),
        decreases items.len() - i,
    {
        let item = &items[i];
        let ghost done = element_emissions(items@.take(i as int), no_escape);
        let ghost sep = separator(first);
        let ghost val = item.emissions(no_escape);
        proof {
            lemma_element_step(items@, i as int, no_escape);
        }
        if !item.is_undefined() {
            if !first {
                b.write_char(COMMA);
            }
            proof {
                if first {
                    assert(done + sep =~= done);
                } else {
                    assert(done + sep =~= done.push(seq![COMMA]));
                    start.lemma_write_all_push(done, seq![COMMA]);
                }
            }
            first = false;
            item.encode(b, no_escape);
            proof {
                start.lemma_write_all_concat(done + sep, val);
            }
        }
        i += 1;
    }
    proof {
        assert(items@.take(items.len() as int) =~= items@);
    }
}

impl<'a> TachyonValue<'a> {
    /// Encodes this value into `b` as minified JSON. With `no_escape` string
    /// payloads are copied as they stand; without it they are escaped byte
    /// by byte. Keys are copied as they stand in either mode. Members and
    /// elements that are `Undefined` leave no byte and no comma. Every piece
    /// is one checked write, so that the first piece that does not fit sets
    /// the error flag and nothing is written after it.
    pub fn encode<const N: usize>(&self, b: &mut TachyonBuffer<N>, no_escape: bool)
        ensures
            final(b)@ == self.encoded_into(old(b)@, no_escape),
            final(b)@.wf(),
        decreases *self,
    {
        let ghost start = b@;
        match self {
            TachyonValue::String(s) => {
                if no_escape {
                    write_quoted(b, s.as_bytes());
                } else {
                    write_quoted_escaped(b, s.as_bytes());
                }
            },
            TachyonValue::Number(text) => {
                b.write_str(text);
                proof {
                    start.lemma_write_all_one(text.spec_bytes());
                }
            },
            TachyonValue::Object(obj) => {
                b.write_char(OPEN_BRACE);
                encode_members(&obj.pairs, b, no_escape);
                b.write_char(CLOSE_BRACE);
                proof {
                    let open = seq![seq![OPEN_BRACE]];
                    let inner = member_emissions(obj.pairs@, no_escape);
                    start.lemma_write_all_one(seq![OPEN_BRACE]);
                    start.lemma_write_all_concat(open, inner);
                    start.lemma_write_all_push(open + inner, seq![CLOSE_BRACE]);
                    assert(self.emissions(no_escape) =~= (open + inner).push(seq![CLOSE_BRACE]));
                }
            },
            TachyonValue::Array(items) => {
                b.write_char(OPEN_BRACKET);
                encode_elements(items, b, no_escape);
                b.write_char(CLOSE_BRACKET);
                proof {
                    let open = seq![seq![OPEN_BRACKET]];
                    let inner = element_emissions(items@, no_escape);
                    start.lemma_write_all_one(seq![OPEN_BRACKET]);
                    start.lemma_write_all_concat(open, inner);
                    start.lemma_write_all_push(open + inner, seq![CLOSE_BRACKET]);
                    assert(self.emissions(no_escape) =~= (open + inner).push(
                        seq![CLOSE_BRACKET],
                    ));
                }
            },
            TachyonValue::True => {
                b.write_str("true");
                proof {
                    lemma_literal_names();
                    start.lemma_write_all_one(true_token());
                }
            },
            TachyonValue::False => {
                b.write_str("false");
                proof {
                    lemma_literal_names();
                    start.lemma_write_all_one(false_token());
                }
            },
            TachyonValue::Null => {
                b.write_str("null");
                proof {
                    lemma_literal_names();
                    start.lemma_write_all_one(null_token());
                }
            },
            TachyonValue::Undefined => {
                b.set_error();
            },
        }
    }

    /// Whether this is the marker for a member or element to leave out.
    pub fn is_undefined(&self) -> (r: bool)
        ensures
            r == (*self is Undefined),
    {
        match self {
            TachyonValue::Undefined => true,
            _ => false,
        }
    }
}

} // verus!
