//! Properties of the escaped form beyond the producing functions'
//! contracts: the literal can be decoded back to exactly the input, and
//! each control byte escapes to its documented shape.
use vstd::prelude::*;

use crate::table::{escape_seq, escaped_bytes, hex_digit, json_string, needs_escape};
use vstd::arithmetic::div_mod::lemma_fundamental_div_mod;

verus! {

/// The bytes that may follow a backslash as a two-byte escape.
pub open spec fn is_mnemonic(c: u8) -> bool {
    c == 0x62 || c == 0x74 || c == 0x6E || c == 0x66 || c == 0x72 || c == 0x22 || c == 0x5C
}

/// The byte a two-byte escape stands for.
pub open spec fn mnemonic_value(c: u8) -> u8 {
    if c == 0x62 {
        0x08
    } else if c == 0x74 {
        0x09
    } else if c == 0x6E {
        0x0A
    } else if c == 0x66 {
        0x0C
    } else if c == 0x72 {
        0x0D
    } else if c == 0x22 {
        0x22
    } else {
        0x5C
    }
}

/// A lowercase hexadecimal digit byte.
pub open spec fn is_hex_lower(c: u8) -> bool {
    (0x30 <= c <= 0x39) || (0x61 <= c <= 0x66)
}

/// The value of a lowercase hexadecimal digit byte.
pub open spec fn hex_value(c: u8) -> u8 {
    if c <= 0x39 {
        (c - 0x30) as u8
    } else {
        (c - 0x57) as u8
    }
}

/// Decodes an escaped text (the part between the quotes) back to the
/// bytes it stands for; `None` where the text is not a well-formed
/// escaped form.
pub open spec fn unescape(t: Seq<u8>) -> Option<Seq<u8>>
    decreases t.len(),
{
    if t.len() == 0 {
        Some(Seq::empty())
    } else if t[0] == 0x5C {
        if t.len() >= 2 && is_mnemonic(t[1]) {
            match unescape(t.skip(2)) {
                Some(r) => Some(seq![mnemonic_value(t[1])] + r),
                None => None,
            }
        } else if t.len() >= 6 && t[1] == 0x75 && t[2] == 0x30 && t[3] == 0x30 && is_hex_lower(
            t[4],
        ) && is_hex_lower(t[5]) {
            match unescape(t.skip(6)) {
                Some(r) => Some(seq![(hex_value(t[4]) * 16 + hex_value(t[5])) as u8] + r),
                None => None,
            }
        } else {
            None
        }
    } else if !needs_escape(t[0]) {
        match unescape(t.skip(1)) {
            Some(r) => Some(seq![t[0]] + r),
            None => None,
        }
    } else {
        None
    }
}

/// Unescaping inverts escaping: decoding the escaped bytes gives back
/// exactly the input.
pub proof fn lemma_unescape_escaped(s: Seq<u8>)
    ensures
        unescape(escaped_bytes(s)) == Some(s),
    decreases s.len(),
{
    if s.len() == 0 {
        assert(escaped_bytes(s) =~= Seq::<u8>::empty());
        assert(s =~= Seq::<u8>::empty());
    } else {
        let b = s[0];
        let rest = s.drop_first();
        lemma_unescape_escaped(rest);
        let t = escaped_bytes(s);
        assert(t == escape_seq(b) + escaped_bytes(rest));
        if b == 0x08 || b == 0x09 || b == 0x0A || b == 0x0C || b == 0x0D || b == 0x22 || b
            == 0x5C {
            assert(t.len() >= 2 && t[0] == 0x5C && is_mnemonic(t[1]));
            assert(mnemonic_value(t[1]) == b);
            assert(t.skip(2) =~= escaped_bytes(rest));
            assert(seq![b] + rest =~= s);
        } else if b < 0x20 {
            assert(t[0] == 0x5C && t[1] == 0x75 && t[2] == 0x30 && t[3] == 0x30);
            assert(!is_mnemonic(t[1]));
            assert(t[4] == hex_digit(b / 16) && t[5] == hex_digit(b % 16));
            assert(b / 16 < 16 && b % 16 < 16);
            assert(is_hex_lower(t[4]) && is_hex_lower(t[5]));
            assert(hex_value(t[4]) == b / 16 && hex_value(t[5]) == b % 16);
            lemma_fundamental_div_mod(b as int, 16);
            assert((hex_value(t[4]) * 16 + hex_value(t[5])) as u8 == b);
            assert(t.skip(6) =~= escaped_bytes(rest));
            assert(seq![b] + rest =~= s);
        } else {
            assert(!needs_escape(b));
            assert(t[0] == b && b != 0x5C);
            assert(t.skip(1) =~= escaped_bytes(rest));
            assert(seq![b] + rest =~= s);
        }
    }
}

/// The literal's shape and its inverse: the output is at least the two
/// quotes, starts and ends with a quote, and stripping the quotes and
/// unescaping reproduces the input bytes exactly.
pub proof fn lemma_round_trip(s: Seq<u8>)
    ensures
        json_string(s).len() >= 2,
        json_string(s).first() == 0x22u8,
        json_string(s).last() == 0x22u8,
        unescape(json_string(s).subrange(1, json_string(s).len() - 1)) == Some(s),
{
    lemma_unescape_escaped(s);
    assert(json_string(s).subrange(1, json_string(s).len() - 1) =~= escaped_bytes(s));
}

/// Each control byte's documented replacement: a two-byte mnemonic for
/// backspace, tab, line feed, form feed and carriage return, and
/// `\u00XX` with two lowercase hex digits for every other control byte.
pub proof fn lemma_control_escape_form(b: u8)
    requires
        b < 0x20,
    ensures
        escape_seq(b).len() == 2 || escape_seq(b).len() == 6,
        escape_seq(b)[0] == 0x5Cu8,
        b == 0x08 ==> escape_seq(b) == seq![0x5Cu8, 0x62u8],
        b == 0x09 ==> escape_seq(b) == seq![0x5Cu8, 0x74u8],
        b == 0x0A ==> escape_seq(b) == seq![0x5Cu8, 0x6Eu8],
        b == 0x0C ==> escape_seq(b) == seq![0x5Cu8, 0x66u8],
        b == 0x0D ==> escape_seq(b) == seq![0x5Cu8, 0x72u8],
        (b != 0x08 && b != 0x09 && b != 0x0A && b != 0x0C && b != 0x0D) ==> escape_seq(b)
            == seq![0x5Cu8, 0x75u8, 0x30u8, 0x30u8, hex_digit(b / 16), hex_digit(b % 16)],
{
}

} // verus!
