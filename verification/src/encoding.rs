//! Why an escaped text is still valid UTF-8: every replacement the table
//! emits is ASCII, and the bytes that pass through unchanged split the
//! input only at scalar boundaries, because every escaped byte is itself
//! a one-byte scalar.
use vstd::prelude::*;

use crate::table::{
    escape_seq, escaped_bytes, hex_digit, json_string, lemma_escaped_bytes_clean,
    lemma_escaped_bytes_concat, needs_escape,
};
use vstd::utf8::{
    is_leading_byte_width_1, length_of_first_scalar, pop_first_scalar, valid_first_scalar,
    valid_utf8, valid_utf8_concat,
};

verus! {

proof fn lemma_ascii_low7(b: u8)
    by (bit_vector)
    requires
        b < 0x80,
    ensures
        (b & 0x7Fu8) == b,
{
}

/// A sequence of bytes below 0x80 is valid UTF-8: each byte is a
/// one-byte scalar.
pub proof fn lemma_ascii_seq_valid(s: Seq<u8>)
    requires
        forall|j: int| 0 <= j < s.len() ==> s[j] < 0x80,
    ensures
        valid_utf8(s),
    decreases s.len(),
{
    if s.len() != 0 {
        assert(is_leading_byte_width_1(s[0]));
        lemma_ascii_low7(s[0]);
        assert(valid_first_scalar(s));
        assert(length_of_first_scalar(s) == 1);
        lemma_ascii_seq_valid(s.subrange(1, s.len() as int));
        assert(valid_utf8(pop_first_scalar(s)));
    }
}

/// Every byte of a replacement the escape table emits is ASCII.
pub proof fn lemma_escape_seq_ascii(b: u8)
    requires
        needs_escape(b),
    ensures
        forall|j: int| 0 <= j < escape_seq(b).len() ==> escape_seq(b)[j] < 0x80,
{
    if !(b == 0x08 || b == 0x09 || b == 0x0A || b == 0x0C || b == 0x0D || b == 0x22 || b
        == 0x5C) {
        assert(hex_digit(b / 16) < 0x80);
        assert(hex_digit(b % 16) < 0x80);
    }
}

/// Escaping keeps UTF-8 validity: replacements are ASCII, and the bytes
/// copied through are whole scalars of the valid input.
pub proof fn lemma_escaped_bytes_valid(s: Seq<u8>)
    requires
        valid_utf8(s),
    ensures
        valid_utf8(escaped_bytes(s)),
    decreases s.len(),
{
    if s.len() != 0 {
        let k = length_of_first_scalar(s);
        assert(valid_first_scalar(s));
        assert(1 <= k <= 4 && k <= s.len());
        let head = s.subrange(0, k);
        let tail = s.subrange(k, s.len() as int);
        assert(tail =~= pop_first_scalar(s));
        assert(valid_utf8(tail));
        lemma_escaped_bytes_valid(tail);
        assert(s =~= head + tail);
        lemma_escaped_bytes_concat(head, tail);
        if k == 1 {
            assert(escaped_bytes(head) =~= escape_seq(s[0]) + escaped_bytes(
                head.subrange(1, 1),
            ));
            assert(head.subrange(1, 1) =~= Seq::<u8>::empty());
            assert(escaped_bytes(head) =~= escape_seq(s[0]));
            if needs_escape(s[0]) {
                lemma_escape_seq_ascii(s[0]);
                lemma_ascii_seq_valid(escape_seq(s[0]));
            } else {
                assert(s[0] < 0x80);
                lemma_ascii_seq_valid(escape_seq(s[0]));
            }
        } else {
            assert(forall|j: int| 0 <= j < k ==> s[j] >= 0x80) by {
                assert(s[0] >= 0xc0);
            }
            assert(forall|j: int| 0 <= j < head.len() ==> !needs_escape(head[j]));
            lemma_escaped_bytes_clean(head);
            assert(valid_first_scalar(head));
            assert(length_of_first_scalar(head) == k);
            assert(pop_first_scalar(head) =~= Seq::<u8>::empty());
            assert(valid_utf8(Seq::<u8>::empty()));
            assert(valid_utf8(head));
        }
        valid_utf8_concat(escaped_bytes(head), escaped_bytes(tail));
    }
}

/// The whole JSON string literal of a valid UTF-8 input is valid UTF-8.
pub proof fn lemma_json_string_valid(s: Seq<u8>)
    requires
        valid_utf8(s),
    ensures
        valid_utf8(json_string(s)),
{
    lemma_escaped_bytes_valid(s);
    lemma_ascii_seq_valid(seq![0x22u8]);
    valid_utf8_concat(seq![0x22u8], escaped_bytes(s));
    valid_utf8_concat(seq![0x22u8] + escaped_bytes(s), seq![0x22u8]);
    assert(json_string(s) =~= (seq![0x22u8] + escaped_bytes(s)) + seq![0x22u8]);
}

} // verus!
