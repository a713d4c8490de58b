//! String escaping: what each byte of a string payload becomes between the
//! quotes, and the function that writes it.

use crate::buffer::TachyonBuffer;
use crate::token::BACKSLASH;
use crate::token::QUOTE;
use vstd::prelude::*;

verus! {

/// The upper-case hexadecimal digit for a value below sixteen.
pub open spec fn hex_upper(n: u8) -> u8 {
    if n < 10 {
        (0x30 + n) as u8
    } else {
        (0x41 + (n - 10)) as u8
    }
}

/// What one payload byte becomes: `"` and `\` get a backslash in front, the
/// control bytes below 0x20 get their short escape (`\b \t \n \f \r`) where
/// one exists and `\u00XX` with upper-case digits where none does, and every
/// other byte stands for itself.
pub open spec fn escape_byte(c: u8) -> Seq<u8> {
    if c == QUOTE {
        seq![BACKSLASH, QUOTE]
    } else if c == BACKSLASH {
        seq![BACKSLASH, BACKSLASH]
    } else if c == 0x08 {
        seq![BACKSLASH, 0x62u8]
    } else if c == 0x09 {
        seq![BACKSLASH, 0x74u8]
    } else if c == 0x0A {
        seq![BACKSLASH, 0x6Eu8]
    } else if c == 0x0C {
        seq![BACKSLASH, 0x66u8]
    } else if c == 0x0D {
        seq![BACKSLASH, 0x72u8]
    } else if c < 0x20 {
        seq![BACKSLASH, 0x75u8, 0x30u8, 0x30u8, hex_upper(c / 16), hex_upper(c % 16)]
    } else {
        seq![c]
    }
}

/// The escapes of the bytes of a payload, one piece per byte.
pub open spec fn escape_chunks(payload: Seq<u8>) -> Seq<Seq<u8>> {
    payload.map_values(|c: u8| escape_byte(c))
}

/// The escaped payload: the escapes of its bytes, one after the other.
pub open spec fn escaped(payload: Seq<u8>) -> Seq<u8> {
    escape_chunks(payload).flatten()
}

/// The upper-case hexadecimal digit for a value below sixteen.
fn hex_digit(n: u8) -> (d: u8)
    requires
        n < 16,
    ensures
        d == hex_upper(n),
{
    if n < 10 {
        0x30 + n
    } else {
        0x41 + (n - 10)
    }
}

/// Writes the escape of one payload byte, as one checked write.
pub fn write_escape<const N: usize>(b: &mut TachyonBuffer<N>, c: u8)
    ensures
        final(b)@ == old(b)@.write(escape_byte(c)),
        final(b)@.wf(),
{
    if c == QUOTE {
        let esc = [BACKSLASH, QUOTE];
        assert(esc@ =~= escape_byte(c));
        b.write(esc.as_slice());
    } else if c == BACKSLASH {
        let esc = [BACKSLASH, BACKSLASH];
        assert(esc@ =~= escape_byte(c));
        b.write(esc.as_slice());
    } else if c == 0x08 {
        let esc = [BACKSLASH, 0x62u8];
        assert(esc@ =~= escape_byte(c));
        b.write(esc.as_slice());
    } else if c == 0x09 {
        let esc = [BACKSLASH, 0x74u8];
        assert(esc@ =~= escape_byte(c));
        b.write(esc.as_slice());
    } else if c == 0x0A {
        let esc = [BACKSLASH, 0x6Eu8];
        assert(esc@ =~= escape_byte(c));
        b.write(esc.as_slice());
    } else if c == 0x0C {
        let esc = [BACKSLASH, 0x66u8];
        assert(esc@ =~= escape_byte(c));
        b.write(esc.as_slice());
    } else if c == 0x0D {
        let esc = [BACKSLASH, 0x72u8];
        assert(esc@ =~= escape_byte(c));
        b.write(esc.as_slice());
    } else if c < 0x20 {
        let esc = [BACKSLASH, 0x75u8, 0x30u8, 0x30u8, hex_digit(c / 16), hex_digit(c % 16)];
        assert(esc@ =~= escape_byte(c));
        b.write(esc.as_slice());
    } else {
        b.write_char(c);
    }
}

} // verus!
