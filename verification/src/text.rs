//! The shape of what is written: how the writes for elements and members
//! compose, and what the text of each kind of value is made of.

use crate::escape::escaped;
use crate::token::false_token;
use crate::token::null_token;
use crate::token::true_token;
use crate::token::CLOSE_BRACE;
use crate::token::CLOSE_BRACKET;
use crate::token::COLON;
use crate::token::COMMA;
use crate::token::OPEN_BRACE;
use crate::token::OPEN_BRACKET;
use crate::token::QUOTE;
use crate::value::defined;
use crate::value::element_emissions;
use crate::value::key_emissions;
use crate::value::member_emissions;
use crate::value::present;
use crate::value::TachyonPair;
use crate::value::TachyonValue;
use vstd::prelude::*;
use vstd::seq_lib::lemma_flatten_concat;
use vstd::string::StringSliceAdditionalSpecFns;

verus! {

/// The comma between two runs of elements or members, which stands where
/// something of each is written.
pub open spec fn between(left_written: bool, right_written: bool) -> Seq<Seq<u8>> {
    if left_written && right_written {
        seq![seq![COMMA]]
    } else {
        Seq::empty()
    }
}

/// Elements of which none is written give no write.
pub proof fn lemma_no_elements_written(items: Seq<TachyonValue<'_>>, no_escape: bool)
    requires
        defined(items).len() == 0,
    ensures
        element_emissions(items, no_escape) == Seq::<Seq<u8>>::empty(),
    decreases items.len(),
{
    reveal(Seq::filter);
    if items.len() > 0 {
        lemma_no_elements_written(items.drop_last(), no_escape);
    }
}

/// Members of which none is written give no write.
pub proof fn lemma_no_members_written(pairs: Seq<TachyonPair<'_>>, no_escape: bool)
    requires
        present(pairs).len() == 0,
    ensures
        member_emissions(pairs, no_escape) == Seq::<Seq<u8>>::empty(),
    decreases pairs.len(),
{
    reveal(Seq::filter);
    if pairs.len() > 0 {
        lemma_no_members_written(pairs.drop_last(), no_escape);
    }
}

/// The writes for two runs of elements, one behind the other, are the
/// writes for each with a comma between them where both write something.
pub proof fn lemma_elements_concat(
    left: Seq<TachyonValue<'_>>,
    right: Seq<TachyonValue<'_>>,
    no_escape: bool,
)
    ensures
        element_emissions(left + right, no_escape) == element_emissions(left, no_escape) + between(
            defined(left).len() > 0,
            defined(right).len() > 0,
        ) + element_emissions(right, no_escape),
        defined(left + right).len() == defined(left).len() + defined(right).len(),
    decreases right.len(),
{
    let whole = left + right;
    let l = element_emissions(left, no_escape);
    let none = Seq::<Seq<u8>>::empty();
    let comma = seq![seq![COMMA]];
    if right.len() == 0 {
        assert(whole =~= left);
        assert(defined(right).len() == 0) by {
            reveal(Seq::filter);
        }
        assert(l + none + none =~= l);
    } else {
        let init = right.drop_last();
        let last = right.last();
        let e = last.emissions(no_escape);
        let r = element_emissions(init, no_escape);
        lemma_elements_concat(left, init, no_escape);
        assert(whole.drop_last() =~= left + init);
        assert(whole.last() == last);
        assert(defined(whole) == if last is Undefined {
            defined(left + init)
        } else {
            defined(left + init).push(last)
        }) by {
            reveal(Seq::filter);
        }
        assert(defined(right) == if last is Undefined {
            defined(init)
        } else {
            defined(init).push(last)
        }) by {
            reveal(Seq::filter);
        }
        if !(last is Undefined) {
            if defined(init).len() > 0 {
                let b = between(defined(left).len() > 0, true);
                assert(element_emissions(whole, no_escape) == (l + b + r) + comma + e);
                assert(element_emissions(right, no_escape) == r + comma + e);
                assert((l + b + r) + comma + e =~= l + b + (r + comma + e));
            } else {
                lemma_no_elements_written(init, no_escape);
                assert(r == none);
                if defined(left).len() > 0 {
                    assert(element_emissions(whole, no_escape) == (l + none + none) + comma + e);
                    assert(element_emissions(right, no_escape) == none + none + e);
                    assert((l + none + none) + comma + e =~= l + comma + (none + none + e));
                } else {
                    assert(element_emissions(whole, no_escape) == (l + none + none) + none + e);
                    assert(element_emissions(right, no_escape) == none + none + e);
                    assert((l + none + none) + none + e =~= l + none + (none + none + e));
                }
            }
        }
    }
}

/// The writes for two runs of members, one behind the other, are the writes
/// for each with a comma between them where both write something.
pub proof fn lemma_members_concat(
    left: Seq<TachyonPair<'_>>,
    right: Seq<TachyonPair<'_>>,
    no_escape: bool,
)
    ensures
        member_emissions(left + right, no_escape) == member_emissions(left, no_escape) + between(
            present(left).len() > 0,
            present(right).len() > 0,
        ) + member_emissions(right, no_escape),
        present(left + right).len() == present(left).len() + present(right).len(),
    decreases right.len(),
{
    let whole = left + right;
    let l = member_emissions(left, no_escape);
    let none = Seq::<Seq<u8>>::empty();
    let comma = seq![seq![COMMA]];
    if right.len() == 0 {
        assert(whole =~= left);
        assert(present(right).len() == 0) by {
            reveal(Seq::filter);
        }
        assert(l + none + none =~= l);
    } else {
        let init = right.drop_last();
        let last = right.last();
        let e = key_emissions(last.key.spec_bytes()) + last.value.emissions(no_escape);
        let r = member_emissions(init, no_escape);
        lemma_members_concat(left, init, no_escape);
        assert(whole.drop_last() =~= left + init);
        assert(whole.last() == last);
        assert(present(whole) == if last.value is Undefined {
            present(left + init)
        } else {
            present(left + init).push(last)
        }) by {
            reveal(Seq::filter);
        }
        assert(present(right) == if last.value is Undefined {
            present(init)
        } else {
            present(init).push(last)
        }) by {
            reveal(Seq::filter);
        }
        if !(last.value is Undefined) {
            let k = key_emissions(last.key.spec_bytes());
            let v = last.value.emissions(no_escape);
            if present(init).len() > 0 {
                let b = between(present(left).len() > 0, true);
                assert(member_emissions(whole, no_escape) == (l + b + r) + comma + k + v);
                assert(member_emissions(right, no_escape) == r + comma + k + v);
                assert((l + b + r) + comma + k + v =~= l + b + (r + comma + k + v));
            } else {
                lemma_no_members_written(init, no_escape);
                assert(r == none);
                if present(left).len() > 0 {
                    assert(member_emissions(whole, no_escape) == (l + none + none) + comma + k + v);
                    assert(member_emissions(right, no_escape) == none + none + k + v);
                    assert((l + none + none) + comma + k + v =~= l + comma + (none + none + k + v));
                } else {
                    assert(member_emissions(whole, no_escape) == (l + none + none) + none + k + v);
                    assert(member_emissions(right, no_escape) == none + none + k + v);
                    assert((l + none + none) + none + k + v =~= l + none + (none + none + k + v));
                }
            }
        }
    }
}


/// The text of one write is that write.
pub proof fn lemma_text_of_one(chunk: Seq<u8>)
    ensures
        seq![chunk].flatten() == chunk,
{
    seq![chunk].lemma_flatten_one_element();
}

/// The text of writes between an opening and a closing byte.
pub proof fn lemma_text_enclosed(open: u8, inner: Seq<Seq<u8>>, close: u8)
    ensures
        (seq![seq![open]] + inner + seq![seq![close]]).flatten() == seq![open] + inner.flatten()
            + seq![close],
{
    lemma_flatten_concat(seq![seq![open]] + inner, seq![seq![close]]);
    lemma_flatten_concat(seq![seq![open]], inner);
    lemma_text_of_one(seq![open]);
    lemma_text_of_one(seq![close]);
}

/// The text of a member's key and colon.
pub proof fn lemma_text_of_key(key: Seq<u8>)
    ensures
        key_emissions(key).flatten() == seq![QUOTE] + key + seq![QUOTE] + seq![COLON],
{
    let front = seq![seq![QUOTE]] + seq![key] + seq![seq![QUOTE]];
    assert(key_emissions(key) =~= front + seq![seq![COLON]]);
    lemma_flatten_concat(front, seq![seq![COLON]]);
    lemma_text_enclosed(QUOTE, seq![key], QUOTE);
    lemma_text_of_one(key);
    lemma_text_of_one(seq![COLON]);
}

/// The text of each kind of value, piece by piece.
pub proof fn lemma_text_shape(v: TachyonValue<'_>, no_escape: bool)
    ensures
        v matches TachyonValue::String(p) ==> v.json_text(no_escape) == seq![QUOTE] + (
        if no_escape {
            p.spec_bytes()
        } else {
            escaped(p.spec_bytes())
        }) + seq![QUOTE],
        v matches TachyonValue::Number(t) ==> v.json_text(no_escape) == t.spec_bytes(),
        v matches TachyonValue::Object(obj) ==> v.json_text(no_escape) == seq![OPEN_BRACE]
            + member_emissions(obj.pairs@, no_escape).flatten() + seq![CLOSE_BRACE],
        v matches TachyonValue::Array(items) ==> v.json_text(no_escape) == seq![OPEN_BRACKET]
            + element_emissions(items@, no_escape).flatten() + seq![CLOSE_BRACKET],
        v is True ==> v.json_text(no_escape) == true_token(),
        v is False ==> v.json_text(no_escape) == false_token(),
        v is Null ==> v.json_text(no_escape) == null_token(),
{
    match v {
        TachyonValue::String(p) => {
            if no_escape {
                assert(crate::value::quoted(p.spec_bytes()) =~= seq![seq![QUOTE]] + seq![
                    p.spec_bytes(),
                ] + seq![seq![QUOTE]]);
                lemma_text_enclosed(QUOTE, seq![p.spec_bytes()], QUOTE);
                lemma_text_of_one(p.spec_bytes());
            } else {
                lemma_text_enclosed(QUOTE, crate::escape::escape_chunks(p.spec_bytes()), QUOTE);
            }
        },
        TachyonValue::Number(t) => {
            lemma_text_of_one(t.spec_bytes());
        },
        TachyonValue::Object(obj) => {
            lemma_text_enclosed(OPEN_BRACE, member_emissions(obj.pairs@, no_escape), CLOSE_BRACE);
        },
        TachyonValue::Array(items) => {
            lemma_text_enclosed(
                OPEN_BRACKET,
                element_emissions(items@, no_escape),
                CLOSE_BRACKET,
            );
        },
        TachyonValue::True => {
            lemma_text_of_one(true_token());
        },
        TachyonValue::False => {
            lemma_text_of_one(false_token());
        },
        TachyonValue::Null => {
            lemma_text_of_one(null_token());
        },
        TachyonValue::Undefined => {},
    }
}


/// The writes for a single element.
pub proof fn lemma_single_element(x: TachyonValue<'_>, no_escape: bool)
    ensures
        element_emissions(seq![x], no_escape) == if x is Undefined {
            Seq::<Seq<u8>>::empty()
        } else {
            x.emissions(no_escape)
        },
        defined(seq![x]).len() == if x is Undefined {
            0int
        } else {
            1int
        },
{
    reveal(Seq::filter);
    let one = seq![x];
    assert(one.drop_last() =~= Seq::empty());
    assert(one.last() == x);
    assert(defined(one.drop_last()).len() == 0);
    assert(element_emissions(one.drop_last(), no_escape) == Seq::<Seq<u8>>::empty());
    assert(Seq::<Seq<u8>>::empty() + Seq::<Seq<u8>>::empty() + x.emissions(no_escape)
        =~= x.emissions(no_escape));
}

/// The writes for a single member.
pub proof fn lemma_single_member(x: TachyonPair<'_>, no_escape: bool)
    ensures
        member_emissions(seq![x], no_escape) == if x.value is Undefined {
            Seq::<Seq<u8>>::empty()
        } else {
            key_emissions(x.key.spec_bytes()) + x.value.emissions(no_escape)
        },
        present(seq![x]).len() == if x.value is Undefined {
            0int
        } else {
            1int
        },
{
    reveal(Seq::filter);
    let one = seq![x];
    assert(one.drop_last() =~= Seq::empty());
    assert(one.last() == x);
    assert(present(one.drop_last()).len() == 0);
    assert(member_emissions(one.drop_last(), no_escape) == Seq::<Seq<u8>>::empty());
    assert(Seq::<Seq<u8>>::empty() + Seq::<Seq<u8>>::empty() + key_emissions(x.key.spec_bytes())
        + x.value.emissions(no_escape) =~= key_emissions(x.key.spec_bytes()) + x.value.emissions(
        no_escape,
    ));
}

/// The text of the elements of an array, told from the front: nothing for a
/// first element that is `Undefined`; otherwise its text, and then, where
/// more is written behind it, a comma and the text of the rest.
pub proof fn lemma_elements_text_from_front(items: Seq<TachyonValue<'_>>, no_escape: bool)
    requires
        items.len() > 0,
    ensures
        defined(items).len() == defined(items.drop_first()).len() + if items[0] is Undefined {
            0int
        } else {
            1int
        },
        items[0] is Undefined ==> element_emissions(items, no_escape) == element_emissions(
            items.drop_first(),
            no_escape,
        ),
        !(items[0] is Undefined) ==> element_emissions(items, no_escape).flatten()
            == items[0].json_text(no_escape) + if defined(items.drop_first()).len() == 0 {
            Seq::<u8>::empty()
        } else {
            seq![COMMA] + element_emissions(items.drop_first(), no_escape).flatten()
        },
{
    let x = items[0];
    let rest = items.drop_first();
    let none = Seq::<Seq<u8>>::empty();
    assert(items =~= seq![x] + rest);
    lemma_elements_concat(seq![x], rest, no_escape);
    lemma_single_element(x, no_escape);
    let r = element_emissions(rest, no_escape);
    if x is Undefined {
        assert(none + none + r =~= r);
    } else {
        let e = x.emissions(no_escape);
        if defined(rest).len() == 0 {
            lemma_no_elements_written(rest, no_escape);
            assert(e + none + none =~= e);
            assert(e.flatten() + Seq::<u8>::empty() =~= e.flatten());
        } else {
            let comma = seq![seq![COMMA]];
            lemma_flatten_concat(e + comma, r);
            lemma_flatten_concat(e, comma);
            lemma_text_of_one(seq![COMMA]);
            assert(e.flatten() + seq![COMMA] + r.flatten() =~= e.flatten() + (seq![COMMA]
                + r.flatten()));
        }
    }
}

/// The text of the members of an object, told from the front: nothing for a
/// first member whose value is `Undefined`; otherwise its key between quotes,
/// a colon and its value's text, and then, where more is written behind it,
/// a comma and the text of the rest.
pub proof fn lemma_members_text_from_front(pairs: Seq<TachyonPair<'_>>, no_escape: bool)
    requires
        pairs.len() > 0,
    ensures
        present(pairs).len() == present(pairs.drop_first()).len() + if pairs[0].value
            is Undefined {
            0int
        } else {
            1int
        },
        pairs[0].value is Undefined ==> member_emissions(pairs, no_escape) == member_emissions(
            pairs.drop_first(),
            no_escape,
        ),
        !(pairs[0].value is Undefined) ==> member_emissions(pairs, no_escape).flatten() == (seq![
            QUOTE,
        ] + pairs[0].key.spec_bytes() + seq![QUOTE]) + seq![COLON] + pairs[0].value.json_text(
            no_escape,
        ) + if present(pairs.drop_first()).len() == 0 {
            Seq::<u8>::empty()
        } else {
            seq![COMMA] + member_emissions(pairs.drop_first(), no_escape).flatten()
        },
{
    let x = pairs[0];
    let rest = pairs.drop_first();
    let none = Seq::<Seq<u8>>::empty();
    assert(pairs =~= seq![x] + rest);
    lemma_members_concat(seq![x], rest, no_escape);
    lemma_single_member(x, no_escape);
    let r = member_emissions(rest, no_escape);
    if x.value is Undefined {
        assert(none + none + r =~= r);
    } else {
        let k = key_emissions(x.key.spec_bytes());
        let v = x.value.emissions(no_escape);
        let e = k + v;
        lemma_flatten_concat(k, v);
        lemma_text_of_key(x.key.spec_bytes());
        if present(rest).len() == 0 {
            lemma_no_members_written(rest, no_escape);
            assert(e + none + none =~= e);
            assert(e.flatten() + Seq::<u8>::empty() =~= e.flatten());
        } else {
            let comma = seq![seq![COMMA]];
            lemma_flatten_concat(e + comma, r);
            lemma_flatten_concat(e, comma);
            lemma_text_of_one(seq![COMMA]);
            assert(e.flatten() + seq![COMMA] + r.flatten() =~= e.flatten() + (seq![COMMA]
                + r.flatten()));
        }
    }
}

} // verus!
