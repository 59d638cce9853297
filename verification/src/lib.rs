//! JSON string escaping: turn a text into its JSON string-literal form —
//! surrounding quotes, mnemonic escapes for the short control codes and
//! the two delimiters, `\u00XX` for the other control bytes — with every
//! scan path proved to produce exactly the bytes of the escape table.
pub mod bits;
pub mod encoding;
pub mod generic;
pub mod laws;
pub mod scalar;
pub mod table;
pub mod v128;
pub mod v256;
pub mod v512;

use vstd::prelude::*;

use crate::encoding::lemma_json_string_valid;
use crate::table::json_string;
use vstd::string::StringSliceAdditionalSpecFns;
use vstd::utf8::{encode_utf8, encode_utf8_valid_utf8, valid_utf8};

verus! {

/// Relies on `String::from_utf8`: for bytes that are valid UTF-8 it
/// returns `Ok` of the string holding exactly those bytes.
#[verifier::external_body]
pub(crate) fn string_from_utf8(v: Vec<u8>) -> (r: String)
    requires
        valid_utf8(v@),
    ensures
        encode_utf8(r@) == v@,
{
    String::from_utf8(v).unwrap()
}

/// Escapes `value` into `out` with the widest scan path. Which vector
/// unit the machine offers changes only speed, never output: every path
/// carries the same contract, so callers that probe the hardware may pick
/// any of them.
fn format_string(value: &str, out: &mut Vec<u8>)
    ensures
        final(out)@ == old(out)@ + json_string(value.spec_bytes()),
{
    crate::v512::format_string(value, out);
}

/// Reserves room in `out` for the worst case of escaping `len` input
/// bytes: six output bytes per input byte, the two quotes and slack.
/// A reservation is only a speed hint, so an input too large for the
/// formula skips it and lets the buffer grow as it fills.
fn reserve_worst_case(len: usize, out: &mut Vec<u8>)
    ensures
        final(out)@ == old(out)@,
{
    if len <= (usize::MAX - 35) / 6 {
        proof {
            vstd::arithmetic::mul::lemma_mul_inequality(
                len as int,
                ((usize::MAX - 35) / 6) as int,
                6,
            );
            vstd::arithmetic::div_mod::lemma_fundamental_div_mod((usize::MAX - 35) as int, 6);
        }
        out.reserve(len * 6 + 35);
    }
}

/// The JSON string literal for `value`: a quote, each byte escaped per
/// the table, a quote.
pub fn escape(value: &str) -> (r: String)
    ensures
        encode_utf8(r@) == json_string(value.spec_bytes()),
{
    let mut buf: Vec<u8> = Vec::new();
    reserve_worst_case(value.len(), &mut buf);
    format_string(value, &mut buf);
    proof {
        encode_utf8_valid_utf8(value@);
        lemma_json_string_valid(value.spec_bytes());
    }
    string_from_utf8(buf)
}

/// Appends the JSON string literal for `value` to `dst`, reserving the
/// worst-case room first and growing further only if needed.
pub fn escape_into(value: &str, dst: &mut Vec<u8>)
    ensures
        final(dst)@ == old(dst)@ + json_string(value.spec_bytes()),
{
    reserve_worst_case(value.len(), dst);
    format_string(value, dst);
}

} // verus!
