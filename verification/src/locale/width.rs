//! ASCII ↔ full-width letter/digit/punct mapping.
//!
//! Full-width forms live in `U+FF01..=U+FF5E` (corresponding to ASCII
//! `!..=~`). Conversion is a fixed offset of `+0xFEE0`. ASCII space maps
//! to the ideographic space `U+3000`.

use vstd::prelude::*;

verus! {

/// Offset between an ASCII printable and its full-width form.
pub const FW_OFFSET: u32 = 0xFEE0;

/// The char with scalar value `code`, when `code` is one
/// (`char::from_u32`: `None` for surrogates and values past U+10FFFF).
#[verifier::external_body]
fn char_from_u32(code: u32) -> (r: Option<char>)
    ensures
        r is Some <==> (code <= 0xD7FF || (0xE000 <= code && code <= 0x10FFFF)),
        r matches Some(c) ==> c as u32 == code,
{
    char::from_u32(code)
}

/// The full-width form of `c`: space → U+3000, `!`..`~` → +0xFEE0.
pub open spec fn full_width_of(c: char) -> Option<u32> {
    if c == ' ' {
        Some(0x3000u32)
    } else if 0x21 <= c as u32 && c as u32 <= 0x7E {
        Some((c as u32 + 0xFEE0) as u32)
    } else {
        None
    }
}

/// The ASCII form of a full-width `c`: U+3000 → space, U+FF01..U+FF5E →
/// −0xFEE0.
pub open spec fn half_width_of(c: char) -> Option<u32> {
    if c == '\u{3000}' {
        Some(0x20u32)
    } else if 0xFF01 <= c as u32 && c as u32 <= 0xFF5E {
        Some((c as u32 - 0xFEE0) as u32)
    } else {
        None
    }
}

/// ASCII char → full-width counterpart. `None` if `c` has no full-width
/// equivalent (control chars, non-ASCII).
pub fn full_width(c: char) -> (r: Option<char>)
    ensures
        match full_width_of(c) {
            Some(code) => r matches Some(f) && f as u32 == code,
            None => r is None,
        },
        0x21 <= c as u32 <= 0x7E ==> (r matches Some(f) && f as u32 == c as u32 + 0xFEE0),
        c == ' ' ==> r == Some('\u{3000}'),
        r is Some <==> (c == ' ' || 0x21 <= c as u32 <= 0x7E),
{
    let code = c as u32;
    if c == ' ' {
        return Some('\u{3000}');
    }
    if 0x21 <= code && code <= 0x7E {
        return char_from_u32(code + FW_OFFSET);
    }
    None
}

/// Full-width char → ASCII counterpart. `None` if `c` is not a
/// full-width form.
pub fn half_width(c: char) -> (r: Option<char>)
    ensures
        match half_width_of(c) {
            Some(code) => r matches Some(h) && h as u32 == code,
            None => r is None,
        },
        0xFF01 <= c as u32 <= 0xFF5E ==> (r matches Some(h) && h as u32 + 0xFEE0 == c as u32),
        c == '\u{3000}' ==> r == Some(' '),
        r is Some <==> (c == '\u{3000}' || 0xFF01 <= c as u32 <= 0xFF5E),
{
    let code = c as u32;
    if c == '\u{3000}' {
        return Some(' ');
    }
    if 0xFF01 <= code && code <= 0xFF5E {
        return char_from_u32(code - FW_OFFSET);
    }
    None
}

/// Every printable ASCII char from `!` to `~` has a full-width form, the
/// char `0xFEE0` above it, and those forms fill `U+FF01..=U+FF5E`; space
/// goes to the ideographic space, and nothing else has a form.
pub proof fn lemma_full_width_printable(c: char)
    ensures
        0x21 <= c as u32 <= 0x7E ==> full_width_of(c) == Some((c as u32 + 0xFEE0) as u32),
        full_width_of(c) matches Some(code) ==> (code == 0x3000 || 0xFF01 <= code <= 0xFF5E),
        full_width_of(c) is None <==> (c != ' ' && !(0x21 <= c as u32 <= 0x7E)),
{
}

/// `half_width` undoes `full_width`: every char with a full-width form
/// comes back from it.
pub proof fn lemma_width_round_trip(c: char, f: char)
    requires
        full_width_of(c) == Some(f as u32),
    ensures
        half_width_of(f) == Some(c as u32),
{
}

} // verus!
