//! The scalar fallback path: a plain byte-at-a-time scan with the same
//! proved output as the windowed paths, used where no vector width helps.
use vstd::prelude::*;

use crate::encoding::lemma_json_string_valid;
use crate::scalar::append_range;
use crate::table::{
    escaped_bytes, json_string, lemma_escaped_bytes_clean, lemma_escaped_bytes_push,
    lemma_escaped_take_range, needs_escape, needs_escaped, write_escape,
};
use vstd::string::StringSliceAdditionalSpecFns;
use vstd::utf8::{encode_utf8, encode_utf8_valid_utf8};

verus! {

/// The JSON string literal for `s`, computed by the scalar path.
pub fn escape_generic(s: &str) -> (r: String)
    ensures
        encode_utf8(r@) == json_string(s.spec_bytes()),
{
    let mut result: Vec<u8> = Vec::new();
    escape_into_generic(s, &mut result);
    proof {
        encode_utf8_valid_utf8(s@);
        lemma_json_string_valid(s.spec_bytes());
    }
    crate::string_from_utf8(result)
}

/// Appends the JSON string literal for `s` to `output`, computed by the
/// scalar path.
pub fn escape_into_generic(s: &str, output: &mut Vec<u8>)
    ensures
        final(output)@ == old(output)@ + json_string(s.spec_bytes()),
{
    let bytes = s.as_bytes();
    output.push(0x22);
    escape_inner(bytes, output);
    output.push(0x22);
    proof {
        assert(output@ =~= old(output)@ + json_string(s.spec_bytes()));
    }
}

/// Escapes every byte of `bytes` into `result`, without the surrounding
/// quotes: clean runs are copied whole once they end, escape-needing
/// bytes get their table replacement.
pub fn escape_inner(bytes: &[u8], result: &mut Vec<u8>)
    ensures
        final(result)@ == old(result)@ + escaped_bytes(bytes@),
{
    let n = bytes.len();
    let mut start: usize = 0;
    let mut i: usize = 0;
    proof {
        assert(bytes@.take(0) =~= Seq::<u8>::empty());
        assert(result@ =~= old(result)@ + escaped_bytes(bytes@.take(0)));
    }
    while i < n
        invariant
            0 <= start <= i <= n,
            n == bytes@.len(),
            result@ == old(result)@ + escaped_bytes(bytes@.take(start as int)),
            forall|j: int| start <= j < i ==> !needs_escape(bytes@[j]),
        decreases n - i,
    {
        let b = bytes[i];
        if needs_escaped(b) {
            if start < i {
                proof {
                    assert forall|j: int| 0 <= j < i - start implies !needs_escape(
                        #[trigger] bytes@.subrange(start as int, i as int)[j],
                    ) by {
                        assert(!needs_escape(bytes@[start + j]));
                    }
                    lemma_escaped_bytes_clean(bytes@.subrange(start as int, i as int));
                    lemma_escaped_take_range(bytes@, start as int, i as int);
                }
                append_range(bytes, start, i, result);
            }
            proof {
                lemma_escaped_take_range(bytes@, start as int, i as int);
                lemma_escaped_bytes_clean(bytes@.subrange(start as int, i as int));
            }
            write_escape(b, result);
            proof {
                assert(bytes@.take(i + 1) =~= bytes@.take(i as int).push(b));
                lemma_escaped_bytes_push(bytes@.take(i as int), b);
                assert(result@ =~= old(result)@ + escaped_bytes(bytes@.take(i + 1)));
            }
            i = i + 1;
            start = i;
        } else {
            i = i + 1;
        }
    }
    if start < n {
        proof {
            assert forall|j: int| 0 <= j < n - start implies !needs_escape(
                #[trigger] bytes@.subrange(start as int, n as int)[j],
            ) by {
                assert(!needs_escape(bytes@[start + j]));
            }
            lemma_escaped_bytes_clean(bytes@.subrange(start as int, n as int));
            lemma_escaped_take_range(bytes@, start as int, n as int);
        }
        append_range(bytes, start, n, result);
    }
    proof {
        assert(bytes@.take(n as int) =~= bytes@);
        assert(result@ =~= old(result)@ + escaped_bytes(bytes@));
    }
}

} // verus!
