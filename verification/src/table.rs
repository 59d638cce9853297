//! The escape table: which bytes a JSON string literal cannot hold verbatim,
//! and the exact replacement each such byte gets. This is the single source
//! of truth that every scanning path is proved against.
use vstd::prelude::*;

verus! {

/// A byte must be escaped iff it is a control byte (below 0x20), the
/// double quote 0x22, or the backslash 0x5C. Every other byte, including
/// every byte of a multi-byte UTF-8 sequence, passes through unchanged.
pub open spec fn needs_escape(b: u8) -> bool {
    b < 0x20 || b == 0x22 || b == 0x5C
}

/// Lowercase hexadecimal digit for a value below 16.
pub open spec fn hex_digit(n: u8) -> u8 {
    if n < 10 {
        (0x30 + n) as u8
    } else {
        (0x57 + n) as u8
    }
}

/// The bytes an input byte contributes to the escaped text: a two-byte
/// mnemonic for the short escapes, `\u00XX` (lowercase hex) for the other
/// control bytes, and the byte itself where no escape is needed.
pub open spec fn escape_seq(b: u8) -> Seq<u8> {
    if b == 0x08 {
        seq![0x5Cu8, 0x62u8]
    } else if b == 0x09 {
        seq![0x5Cu8, 0x74u8]
    } else if b == 0x0A {
        seq![0x5Cu8, 0x6Eu8]
    } else if b == 0x0C {
        seq![0x5Cu8, 0x66u8]
    } else if b == 0x0D {
        seq![0x5Cu8, 0x72u8]
    } else if b == 0x22 {
        seq![0x5Cu8, 0x22u8]
    } else if b == 0x5C {
        seq![0x5Cu8, 0x5Cu8]
    } else if b < 0x20 {
        seq![0x5Cu8, 0x75u8, 0x30u8, 0x30u8, hex_digit(b / 16), hex_digit(b % 16)]
    } else {
        seq![b]
    }
}

/// The whole input, escaped byte for byte.
pub open spec fn escaped_bytes(s: Seq<u8>) -> Seq<u8>
    decreases s.len(),
{
    if s.len() == 0 {
        Seq::empty()
    } else {
        escape_seq(s[0]) + escaped_bytes(s.drop_first())
    }
}

/// The JSON string literal for an input: the escaped bytes between a
/// leading and a trailing double quote.
pub open spec fn json_string(s: Seq<u8>) -> Seq<u8> {
    seq![0x22u8] + escaped_bytes(s) + seq![0x22u8]
}

/// Executable form of the escape predicate.
pub fn needs_escaped(b: u8) -> (r: bool)
    ensures
        r == needs_escape(b),
{
    b < 0x20 || b == 0x22 || b == 0x5C
}

/// Appends the replacement for one byte that needs escaping.
pub fn write_escape(b: u8, out: &mut Vec<u8>)
    requires
        needs_escape(b),
    ensures
        final(out)@ == old(out)@ + escape_seq(b),
{
    if b == 0x08 {
        out.push(0x5C);
        out.push(0x62);
    } else if b == 0x09 {
        out.push(0x5C);
        out.push(0x74);
    } else if b == 0x0A {
        out.push(0x5C);
        out.push(0x6E);
    } else if b == 0x0C {
        out.push(0x5C);
        out.push(0x66);
    } else if b == 0x0D {
        out.push(0x5C);
        out.push(0x72);
    } else if b == 0x22 {
        out.push(0x5C);
        out.push(0x22);
    } else if b == 0x5C {
        out.push(0x5C);
        out.push(0x5C);
    } else {
        out.push(0x5C);
        out.push(0x75);
        out.push(0x30);
        out.push(0x30);
        out.push(hex_digit_exec(b / 16));
        out.push(hex_digit_exec(b % 16));
    }
    assert(out@ =~= old(out)@ + escape_seq(b));
}

/// Executable lowercase hex digit.
pub fn hex_digit_exec(n: u8) -> (r: u8)
    requires
        n < 16,
    ensures
        r == hex_digit(n),
{
    if n < 10 {
        0x30 + n
    } else {
        0x57 + n
    }
}

/// Escaping distributes over concatenation.
pub proof fn lemma_escaped_bytes_concat(a: Seq<u8>, b: Seq<u8>)
    ensures
        escaped_bytes(a + b) == escaped_bytes(a) + escaped_bytes(b),
    decreases a.len(),
{
    if a.len() == 0 {
        assert(a + b =~= b);
        assert(escaped_bytes(a) + escaped_bytes(b) =~= escaped_bytes(b));
    } else {
        assert((a + b).drop_first() =~= a.drop_first() + b);
        lemma_escaped_bytes_concat(a.drop_first(), b);
        assert(escaped_bytes(a + b) =~= escaped_bytes(a) + escaped_bytes(b));
    }
}

/// A run of bytes none of which needs escaping passes through unchanged.
pub proof fn lemma_escaped_bytes_clean(s: Seq<u8>)
    requires
        forall|j: int| 0 <= j < s.len() ==> !needs_escape(s[j]),
    ensures
        escaped_bytes(s) == s,
    decreases s.len(),
{
    if s.len() == 0 {
        assert(escaped_bytes(s) =~= s);
    } else {
        lemma_escaped_bytes_clean(s.drop_first());
        assert(escape_seq(s[0]) =~= seq![s[0]]);
        assert(escaped_bytes(s) =~= s);
    }
}

/// Escaping one more byte extends the escaped text by that byte's
/// replacement.
pub proof fn lemma_escaped_bytes_push(s: Seq<u8>, b: u8)
    ensures
        escaped_bytes(s.push(b)) == escaped_bytes(s) + escape_seq(b),
{
    assert(s.push(b) =~= s + seq![b]);
    lemma_escaped_bytes_concat(s, seq![b]);
    assert(seq![b].drop_first() =~= Seq::<u8>::empty());
    assert(escaped_bytes(Seq::<u8>::empty()) =~= Seq::<u8>::empty());
    assert(escaped_bytes(seq![b]) =~= escape_seq(b) + escaped_bytes(seq![b].drop_first()));
    assert(escaped_bytes(seq![b]) =~= escape_seq(b));
}

/// The escaped prefix grows by the escape of the covered range.
pub proof fn lemma_escaped_take_range(s: Seq<u8>, i: int, k: int)
    requires
        0 <= i <= k <= s.len(),
    ensures
        escaped_bytes(s.take(k)) == escaped_bytes(s.take(i)) + escaped_bytes(s.subrange(i, k)),
{
    assert(s.take(k) =~= s.take(i) + s.subrange(i, k));
    lemma_escaped_bytes_concat(s.take(i), s.subrange(i, k));
}

} // verus!
