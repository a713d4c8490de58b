//! The bytes of JSON's punctuation and of its three literal names.

use vstd::prelude::*;
use vstd::string::is_ascii_spec_bytes;
use vstd::string::StringSliceAdditionalSpecFns;

verus! {

/// `"`
pub const QUOTE: u8 = 0x22;

/// `\`
pub const BACKSLASH: u8 = 0x5C;

/// `,`
pub const COMMA: u8 = 0x2C;

/// `:`
pub const COLON: u8 = 0x3A;

/// `{`
pub const OPEN_BRACE: u8 = 0x7B;

/// `}`
pub const CLOSE_BRACE: u8 = 0x7D;

/// `[`
pub const OPEN_BRACKET: u8 = 0x5B;

/// `]`
pub const CLOSE_BRACKET: u8 = 0x5D;

/// The bytes of `true`.
pub open spec fn true_token() -> Seq<u8> {
    seq![0x74u8, 0x72u8, 0x75u8, 0x65u8]
}

/// The bytes of `false`.
pub open spec fn false_token() -> Seq<u8> {
    seq![0x66u8, 0x61u8, 0x6Cu8, 0x73u8, 0x65u8]
}

/// The bytes of `null`.
pub open spec fn null_token() -> Seq<u8> {
    seq![0x6Eu8, 0x75u8, 0x6Cu8, 0x6Cu8]
}

/// The three literal names, as string literals, are the three tokens.
pub proof fn lemma_literal_names()
    ensures
        "true".spec_bytes() == true_token(),
        "false".spec_bytes() == false_token(),
        "null".spec_bytes() == null_token(),
{
    reveal_strlit("true");
    reveal_strlit("false");
    reveal_strlit("null");
    is_ascii_spec_bytes("true");
    is_ascii_spec_bytes("false");
    is_ascii_spec_bytes("null");
    assert("true".spec_bytes() =~= true_token());
    assert("false".spec_bytes() =~= false_token());
    assert("null".spec_bytes() =~= null_token());
}

} // verus!
