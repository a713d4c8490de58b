//! What holds of the encoder on every tree and every buffer.

use crate::escape::escaped;
use crate::grammar::is_json;
use crate::model::BufferView;
use crate::text::lemma_text_shape;
use crate::token::QUOTE;
use crate::unescape::lemma_escape_round_trip;
use crate::unescape::read_string;
use crate::validity::lemma_rendered_tree_is_json;
use crate::value::defined;
use crate::value::element_emissions;
use crate::value::member_emissions;
use crate::value::present;
use crate::value::TachyonPair;
use crate::value::TachyonValue;
use vstd::prelude::*;
use vstd::string::StringSliceAdditionalSpecFns;

verus! {

/// A tree whose text fits into what is left of a buffer that is not in error
/// is written in full, and the error flag stays clear.
pub proof fn lemma_fitting_tree_is_written(v: TachyonValue<'_>, out: BufferView, no_escape: bool)
    requires
        !(v is Undefined),
        out.fits(v.json_text(no_escape).len()),
    ensures
        v.encoded_into(out, no_escape) == out.append(v.json_text(no_escape)),
        !v.encoded_into(out, no_escape).error,
{
    out.lemma_write_all_fits(v.emissions(no_escape));
}

/// A tree that fits and whose pieces are JSON is written as one value of
/// minified JSON, and the error flag stays clear.
pub proof fn lemma_fitting_tree_is_written_as_json(
    v: TachyonValue<'_>,
    out: BufferView,
    no_escape: bool,
)
    requires
        v.renders_json(no_escape),
        out.fits(v.json_text(no_escape).len()),
    ensures
        v.encoded_into(out, no_escape) == out.append(v.json_text(no_escape)),
        !v.encoded_into(out, no_escape).error,
        is_json(v.json_text(no_escape)),
{
    lemma_fitting_tree_is_written(v, out, no_escape);
    lemma_rendered_tree_is_json(v, no_escape);
}

/// A tree whose text does not fit into what is left of the buffer sets the
/// error flag. What is written is the writes in front of the first one that
/// did not fit, each in whole, and nothing after them; the written bytes
/// stay within the capacity.
pub proof fn lemma_overflowing_tree_sets_error(
    v: TachyonValue<'_>,
    out: BufferView,
    no_escape: bool,
)
    requires
        out.wf(),
        !out.error,
        out.bytes.len() + v.json_text(no_escape).len() > out.capacity,
    ensures
        v.encoded_into(out, no_escape).error,
        v.encoded_into(out, no_escape).wf(),
        out.accepted(v.emissions(no_escape)) < v.emissions(no_escape).len(),
        v.encoded_into(out, no_escape).bytes == out.bytes + v.emissions(no_escape).take(
            out.accepted(v.emissions(no_escape)) as int,
        ).flatten(),
        out.bytes.len() + v.emissions(no_escape).take(
            out.accepted(v.emissions(no_escape)) as int + 1,
        ).flatten().len() > out.capacity,
{
    let chunks = v.emissions(no_escape);
    let k = out.accepted(chunks);
    if v is Undefined {
        assert(chunks.flatten() =~= Seq::<u8>::empty());
    }
    out.lemma_write_all_wf(chunks);
    out.lemma_write_all_stops_at_first_refusal(chunks);
    out.lemma_all_accepted_iff_fits(chunks);
    assert(chunks.take(k as int + 1) =~= chunks.take(k as int).push(chunks[k as int]));
    chunks.take(k as int).lemma_flatten_push(chunks[k as int]);
}

/// The error flag is sticky: encoding into a buffer that is in error writes
/// nothing and leaves the flag set.
pub proof fn lemma_failed_buffer_takes_nothing(v: TachyonValue<'_>, out: BufferView, no_escape: bool)
    requires
        out.error,
    ensures
        v.encoded_into(out, no_escape) == out,
{
    out.lemma_write_all_sticky(v.emissions(no_escape));
}

/// Round trip: a string encoded with escaping and read back as a JSON parser
/// reads a string token gives the payload again, whatever it holds: quotes,
/// backslashes, every control byte.
pub proof fn lemma_encoded_string_reads_back(payload: &str)
    ensures
        read_string(TachyonValue::String(payload).json_text(false)) == Some(payload.spec_bytes()),
{
    let v = TachyonValue::String(payload);
    let body = escaped(payload.spec_bytes());
    let token = v.json_text(false);
    lemma_text_shape(v, false);
    assert(token == seq![QUOTE] + body + seq![QUOTE]);
    assert(token.subrange(1, token.len() - 1) =~= body);
    lemma_escape_round_trip(payload.spec_bytes());
}

/// Whatever a buffer held and whether or not it was in error, after a reset
/// it takes an encoding exactly as a fresh buffer of its capacity does.
pub proof fn lemma_reset_buffer_encodes_as_fresh(
    v: TachyonValue<'_>,
    used: BufferView,
    no_escape: bool,
)
    ensures
        used.reset() == BufferView::fresh(used.capacity),
        v.encoded_into(used.reset(), no_escape) == v.encoded_into(
            BufferView::fresh(used.capacity),
            no_escape,
        ),
{
}

/// Leaving out what is not written changes nothing of what is left.
proof fn lemma_defined_twice(items: Seq<TachyonValue<'_>>)
    ensures
        defined(defined(items)) == defined(items),
    decreases items.len(),
{
    reveal(Seq::filter);
    if items.len() > 0 {
        lemma_defined_twice(items.drop_last());
        if !(items.last() is Undefined) {
            let kept = defined(items.drop_last());
            assert(kept.push(items.last()).drop_last() =~= kept);
        }
    }
}

/// Leaving out what is not written changes nothing of what is left.
proof fn lemma_present_twice(pairs: Seq<TachyonPair<'_>>)
    ensures
        present(present(pairs)) == present(pairs),
    decreases pairs.len(),
{
    reveal(Seq::filter);
    if pairs.len() > 0 {
        lemma_present_twice(pairs.drop_last());
        if !(pairs.last().value is Undefined) {
            let kept = present(pairs.drop_last());
            assert(kept.push(pairs.last()).drop_last() =~= kept);
        }
    }
}

/// The elements of an array encode as the same elements do with the
/// `Undefined` ones taken out: no placeholder and no stray comma.
pub proof fn lemma_undefined_elements_leave_no_trace(
    items: Seq<TachyonValue<'_>>,
    no_escape: bool,
)
    ensures
        element_emissions(items, no_escape) == element_emissions(defined(items), no_escape),
    decreases items.len(),
{
    reveal(Seq::filter);
    if items.len() > 0 {
        let before = items.drop_last();
        lemma_undefined_elements_leave_no_trace(before, no_escape);
        if !(items.last() is Undefined) {
            let kept = defined(before);
            assert(kept.push(items.last()).drop_last() =~= kept);
            lemma_defined_twice(before);
        }
    }
}

/// The members of an object encode as the same members do with those whose
/// value is `Undefined` taken out: no placeholder and no stray comma.
pub proof fn lemma_undefined_members_leave_no_trace(pairs: Seq<TachyonPair<'_>>, no_escape: bool)
    ensures
        member_emissions(pairs, no_escape) == member_emissions(present(pairs), no_escape),
    decreases pairs.len(),
{
    reveal(Seq::filter);
    if pairs.len() > 0 {
        let before = pairs.drop_last();
        lemma_undefined_members_leave_no_trace(before, no_escape);
        if !(pairs.last().value is Undefined) {
            let kept = present(before);
            assert(kept.push(pairs.last()).drop_last() =~= kept);
            lemma_present_twice(before);
        }
    }
}

/// An array or object and the same structure with its `Undefined` members
/// or elements physically removed encode identically, into any buffer.
pub proof fn lemma_undefined_is_as_good_as_removed(
    with: TachyonValue<'_>,
    without: TachyonValue<'_>,
    out: BufferView,
    no_escape: bool,
)
    requires
        (with matches TachyonValue::Array(a) && without matches TachyonValue::Array(b) && b@
            == defined(a@)) || (with matches TachyonValue::Object(a)
            && without matches TachyonValue::Object(b) && b.pairs@ == present(a.pairs@)),
    ensures
        with.emissions(no_escape) == without.emissions(no_escape),
        with.json_text(no_escape) == without.json_text(no_escape),
        with.encoded_into(out, no_escape) == without.encoded_into(out, no_escape),
{
    match with {
        TachyonValue::Array(a) => {
            lemma_undefined_elements_leave_no_trace(a@, no_escape);
        },
        TachyonValue::Object(a) => {
            lemma_undefined_members_leave_no_trace(a.pairs@, no_escape);
        },
        _ => {},
    }
}

} // verus!
