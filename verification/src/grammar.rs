//! The grammar of minified JSON, as a recognizer over the bytes of UTF-8
//! text: no white space between tokens, and nothing else left out.

use crate::token::false_token;
use crate::token::null_token;
use crate::token::true_token;
use crate::token::BACKSLASH;
use crate::token::CLOSE_BRACE;
use crate::token::CLOSE_BRACKET;
use crate::token::COLON;
use crate::token::COMMA;
use crate::token::OPEN_BRACE;
use crate::token::OPEN_BRACKET;
use crate::token::QUOTE;
use vstd::prelude::*;
use vstd::utf8::valid_utf8;

verus! {

/// `0` to `9`.
pub open spec fn is_digit(c: u8) -> bool {
    0x30 <= c <= 0x39
}

/// A hexadecimal digit of either case.
pub open spec fn is_hex_digit(c: u8) -> bool {
    is_digit(c) || 0x41 <= c <= 0x46 || 0x61 <= c <= 0x66
}

/// A byte that may stand alone behind a backslash: `"` `\` `/` `b` `f` `n`
/// `r` `t`.
pub open spec fn is_short_escape(c: u8) -> bool {
    c == QUOTE || c == BACKSLASH || c == 0x2F || c == 0x62 || c == 0x66 || c == 0x6E || c == 0x72
        || c == 0x74
}

/// `token` stands in `s` at `at`.
pub open spec fn stands_at(s: Seq<u8>, at: int, token: Seq<u8>) -> bool {
    0 <= at && at + token.len() <= s.len() && s.subrange(at, at + token.len()) == token
}

/// How many bytes the escape or character at the front of a string body
/// takes, or `None` where the front is neither: a raw quote or control
/// byte, or a backslash with nothing valid behind it.
pub open spec fn char_len(body: Seq<u8>) -> Option<int> {
    if body.len() == 0 {
        None
    } else if body[0] == BACKSLASH {
        if body.len() >= 2 && is_short_escape(body[1]) {
            Some(2)
        } else if body.len() >= 6 && body[1] == 0x75 && is_hex_digit(body[2]) && is_hex_digit(
            body[3],
        ) && is_hex_digit(body[4]) && is_hex_digit(body[5]) {
            Some(6)
        } else {
            None
        }
    } else if body[0] == QUOTE || body[0] < 0x20 {
        None
    } else {
        Some(1)
    }
}

/// The bytes are a well-formed string body: what may stand between the
/// quotes of a JSON string.
pub open spec fn is_string_body(body: Seq<u8>) -> bool
    decreases body.len(),
{
    if body.len() == 0 {
        true
    } else {
        match char_len(body) {
            Some(n) => is_string_body(body.skip(n)),
            None => false,
        }
    }
}

/// The index behind the closing quote of the string whose body starts at
/// `at`.
pub open spec fn body_end(s: Seq<u8>, at: int) -> Option<int>
    decreases s.len() - at,
{
    if !(0 <= at < s.len()) {
        None
    } else if s[at] == QUOTE {
        Some(at + 1)
    } else {
        match char_len(s.skip(at)) {
            Some(n) => body_end(s, at + n),
            None => None,
        }
    }
}

/// The index behind the string that starts at `at`.
pub open spec fn string_end(s: Seq<u8>, at: int) -> Option<int> {
    if 0 <= at < s.len() && s[at] == QUOTE {
        body_end(s, at + 1)
    } else {
        None
    }
}

/// The index behind the run of digits that starts at `at`.
pub open spec fn digits_end(s: Seq<u8>, at: int) -> int
    decreases s.len() - at,
{
    if 0 <= at < s.len() && is_digit(s[at]) {
        digits_end(s, at + 1)
    } else {
        at
    }
}

/// The index behind the integer part that starts at `at`: a single `0`, or
/// a run of digits that does not start with `0`.
pub open spec fn int_end(s: Seq<u8>, at: int) -> Option<int> {
    if 0 <= at < s.len() && is_digit(s[at]) {
        if s[at] == 0x30 {
            Some(at + 1)
        } else {
            Some(digits_end(s, at))
        }
    } else {
        None
    }
}

/// The index behind the fraction that starts at `at`, if one starts there:
/// a point and at least one digit.
pub open spec fn frac_end(s: Seq<u8>, at: int) -> Option<int> {
    if 0 <= at < s.len() && s[at] == 0x2E {
        if digits_end(s, at + 1) > at + 1 {
            Some(digits_end(s, at + 1))
        } else {
            None
        }
    } else {
        Some(at)
    }
}

/// The index behind the exponent that starts at `at`, if one starts there:
/// `e` or `E`, a sign or none, and at least one digit.
pub open spec fn exp_end(s: Seq<u8>, at: int) -> Option<int> {
    if 0 <= at < s.len() && (s[at] == 0x65 || s[at] == 0x45) {
        let digits = if at + 1 < s.len() && (s[at + 1] == 0x2B || s[at + 1] == 0x2D) {
            at + 2
        } else {
            at + 1
        };
        if digits_end(s, digits) > digits {
            Some(digits_end(s, digits))
        } else {
            None
        }
    } else {
        Some(at)
    }
}

/// The index behind the number that starts at `at`.
pub open spec fn number_end(s: Seq<u8>, at: int) -> Option<int> {
    let unsigned = if 0 <= at < s.len() && s[at] == 0x2D {
        at + 1
    } else {
        at
    };
    match int_end(s, unsigned) {
        None => None,
        Some(int_part) => match frac_end(s, int_part) {
            None => None,
            Some(frac_part) => exp_end(s, frac_part),
        },
    }
}

/// The bytes are a JSON number, all of them.
pub open spec fn is_number(text: Seq<u8>) -> bool {
    number_end(text, 0) == Some(text.len() as int)
}

/// The index behind the value that starts at `at`.
pub open spec fn value_end(s: Seq<u8>, at: int) -> Option<int>
    decreases s.len() - at, 0int,
{
    if !(0 <= at < s.len()) {
        None
    } else if s[at] == QUOTE {
        string_end(s, at)
    } else if s[at] == OPEN_BRACKET {
        if at + 1 < s.len() && s[at + 1] == CLOSE_BRACKET {
            Some(at + 2)
        } else {
            elements_end(s, at + 1)
        }
    } else if s[at] == OPEN_BRACE {
        if at + 1 < s.len() && s[at + 1] == CLOSE_BRACE {
            Some(at + 2)
        } else {
            members_end(s, at + 1)
        }
    } else if stands_at(s, at, true_token()) {
        Some(at + 4)
    } else if stands_at(s, at, false_token()) {
        Some(at + 5)
    } else if stands_at(s, at, null_token()) {
        Some(at + 4)
    } else {
        number_end(s, at)
    }
}

/// The index behind the closing bracket of the array whose first element
/// starts at `at`.
pub open spec fn elements_end(s: Seq<u8>, at: int) -> Option<int>
    decreases s.len() - at, 1int,
{
    if !(0 <= at < s.len()) {
        None
    } else {
        match value_end(s, at) {
            Some(next) => if at < next < s.len() {
                if s[next] == COMMA {
                    elements_end(s, next + 1)
                } else if s[next] == CLOSE_BRACKET {
                    Some(next + 1)
                } else {
                    None
                }
            } else {
                None
            },
            None => None,
        }
    }
}

/// The index behind the closing brace of the object whose first member
/// starts at `at`.
pub open spec fn members_end(s: Seq<u8>, at: int) -> Option<int>
    decreases s.len() - at, 1int,
{
    if !(0 <= at < s.len()) {
        None
    } else {
        match string_end(s, at) {
            Some(colon) => if at < colon < s.len() && s[colon] == COLON {
                match value_end(s, colon + 1) {
                    Some(next) => if colon < next < s.len() {
                        if s[next] == COMMA {
                            members_end(s, next + 1)
                        } else if s[next] == CLOSE_BRACE {
                            Some(next + 1)
                        } else {
                            None
                        }
                    } else {
                        None
                    },
                    None => None,
                }
            } else {
                None
            },
            None => None,
        }
    }
}

/// The bytes are well-formed UTF-8 and spell one JSON value, all of them,
/// with no white space between its tokens.
pub open spec fn is_json(s: Seq<u8>) -> bool {
    valid_utf8(s) && value_end(s, 0) == Some(s.len() as int)
}

} // verus!
