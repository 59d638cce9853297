//! The scalar escape writer: once the scan has found a byte that needs
//! escaping, it writes replacements byte by byte for as long as
//! consecutive bytes also need escaping, and hands control back to the
//! vector loop at the first byte that does not.
use vstd::prelude::*;

use crate::table::{
    escaped_bytes, lemma_escaped_bytes_push, needs_escape, needs_escaped, write_escape,
};

verus! {

/// Appends `bytes[from..to]` to the output unchanged.
pub fn append_range(bytes: &[u8], from: usize, to: usize, out: &mut Vec<u8>)
    requires
        from <= to <= bytes@.len(),
    ensures
        final(out)@ == old(out)@ + bytes@.subrange(from as int, to as int),
{
    let mut k = from;
    while k < to
        invariant
            from <= k <= to <= bytes@.len(),
            out@ == old(out)@ + bytes@.subrange(from as int, k as int),
        decreases to - k,
    {
        out.push(bytes[k]);
        proof {
            assert(bytes@.subrange(from as int, k + 1) =~= bytes@.subrange(
                from as int,
                k as int,
            ).push(bytes@[k as int]));
        }
        k = k + 1;
    }
    proof {
        assert(out@ =~= old(out)@ + bytes@.subrange(from as int, to as int));
    }
}

/// Writes the replacement for the escape-needing byte at `*i`, then keeps
/// writing replacements for the consecutive bytes that also need escaping,
/// stopping at the first byte that does not (or at the end of the input).
pub fn escape_unchecked(bytes: &[u8], i: &mut usize, out: &mut Vec<u8>)
    requires
        *old(i) < bytes@.len(),
        needs_escape(bytes@[*old(i) as int]),
    ensures
        *old(i) < *final(i) <= bytes@.len(),
        forall|j: int| *old(i) <= j < *final(i) ==> needs_escape(bytes@[j]),
        *final(i) == bytes@.len() || !needs_escape(bytes@[*final(i) as int]),
        final(out)@ == old(out)@ + escaped_bytes(bytes@.subrange(*old(i) as int, *final(i) as int)),
{
    let ghost start = *i as int;
    proof {
        assert(bytes@.subrange(start, start) =~= Seq::<u8>::empty());
        assert(out@ =~= old(out)@ + escaped_bytes(bytes@.subrange(start, start)));
    }
    loop
        invariant
            start == *old(i),
            0 <= start <= *i < bytes@.len(),
            needs_escape(bytes@[*i as int]),
            forall|j: int| start <= j < *i ==> needs_escape(bytes@[j]),
            out@ == old(out)@ + escaped_bytes(bytes@.subrange(start, *i as int)),
        decreases bytes@.len() - *i,
    {
        let b = bytes[*i];
        write_escape(b, out);
        proof {
            assert(bytes@.subrange(start, *i + 1) =~= bytes@.subrange(start, *i as int).push(b));
            lemma_escaped_bytes_push(bytes@.subrange(start, *i as int), b);
        }
        *i = *i + 1;
        if *i == bytes.len() || !needs_escaped(bytes[*i]) {
            return ;
        }
    }
}

} // verus!
