//! The 16-lane scan path: a portable 128-bit vector of bytes, lane-wise
//! compares that build the escape mask, and the windowed scan-and-copy
//! loop proved to produce exactly the JSON string literal.
use vstd::prelude::*;

use crate::bits::{bit16, BitMask};
use crate::scalar::{append_range, escape_unchecked};
use crate::table::{
    escaped_bytes, json_string, lemma_escaped_bytes_clean, lemma_escaped_take_range, needs_escape,
};
use vstd::string::StringSliceAdditionalSpecFns;

verus! {

/// A 128-bit vector of 16 byte lanes.
#[derive(Clone, Copy)]
pub struct Simd128u([u8; 16]);

/// A lane-wise boolean mask over 16 byte lanes, one byte per lane,
/// holding 0 or 1.
#[derive(Clone, Copy)]
pub struct Mask128([u8; 16]);

impl View for Simd128u {
    type V = Seq<u8>;

    closed spec fn view(&self) -> Seq<u8> {
        self.0@
    }
}

impl View for Mask128 {
    type V = Seq<u8>;

    closed spec fn view(&self) -> Seq<u8> {
        self.0@
    }
}

impl Simd128u {
    /// Loads 16 bytes starting at `offset`.
    pub fn loadu(s: &[u8], offset: usize) -> (r: Self)
        requires
            offset + 16 <= s@.len(),
        ensures
            r@ == s@.subrange(offset as int, offset + 16),
    {
        let len = s.len();
        let mut a = [0u8; 16];
        let mut k: usize = 0;
        while k < 16
            invariant
                0 <= k <= 16,
                offset + 16 <= len == s@.len(),
                a@.len() == 16,
                forall|j: int| 0 <= j < k ==> a@[j] == s@[offset + j],
            decreases 16 - k,
        {
            a[k] = s[offset + k];
            k = k + 1;
        }
        let r = Simd128u(a);
        proof {
            assert(r@ =~= s@.subrange(offset as int, offset + 16));
        }
        r
    }

    /// Appends the 16 lanes to the output.
    pub fn storeu(&self, out: &mut Vec<u8>)
        ensures
            final(out)@ == old(out)@ + self@,
    {
        let mut k: usize = 0;
        while k < 16
            invariant
                0 <= k <= 16,
                self@.len() == 16,
                out@ == old(out)@ + self@.take(k as int),
            decreases 16 - k,
        {
            out.push(self.0[k]);
            proof {
                assert(self@.take(k + 1) =~= self@.take(k as int).push(self@[k as int]));
            }
            k = k + 1;
        }
        proof {
            assert(self@.take(16) =~= self@);
        }
    }

    /// A vector with every lane equal to `ch`.
    pub fn splat(ch: u8) -> (r: Self)
        ensures
            r@.len() == 16,
            forall|j: int| 0 <= j < 16 ==> r@[j] == ch,
    {
        Simd128u([ch; 16])
    }

    /// Lane-wise equality compare.
    pub fn eq(&self, rhs: &Self) -> (m: Mask128)
        ensures
            m.is_bool(),
            forall|j: int| 0 <= j < 16 ==> (m@[j] == 1u8 <==> self@[j] == rhs@[j]),
    {
        let mut a = [0u8; 16];
        let mut k: usize = 0;
        while k < 16
            invariant
                0 <= k <= 16,
                a@.len() == 16,
                forall|j: int|
                    0 <= j < k ==> a@[j] == (if self@[j] == rhs@[j] {
                        1u8
                    } else {
                        0u8
                    }),
            decreases 16 - k,
        {
            a[k] = if self.0[k] == rhs.0[k] {
                1
            } else {
                0
            };
            k = k + 1;
        }
        Mask128(a)
    }

    /// Lane-wise unsigned `<=` compare.
    pub fn le(&self, rhs: &Self) -> (m: Mask128)
        ensures
            m.is_bool(),
            forall|j: int| 0 <= j < 16 ==> (m@[j] == 1u8 <==> self@[j] <= rhs@[j]),
    {
        let mut a = [0u8; 16];
        let mut k: usize = 0;
        while k < 16
            invariant
                0 <= k <= 16,
                a@.len() == 16,
                forall|j: int|
                    0 <= j < k ==> a@[j] == (if self@[j] <= rhs@[j] {
                        1u8
                    } else {
                        0u8
                    }),
            decreases 16 - k,
        {
            a[k] = if self.0[k] <= rhs.0[k] {
                1
            } else {
                0
            };
            k = k + 1;
        }
        Mask128(a)
    }
}

proof fn lemma_or01(a: u8, b: u8)
    by (bit_vector)
    requires
        a == 0 || a == 1,
        b == 0 || b == 1,
    ensures
        (a | b) == 0 || (a | b) == 1,
        (a | b) == 1 <==> (a == 1 || b == 1),
{
}

proof fn lemma_and01(a: u8, b: u8)
    by (bit_vector)
    requires
        a == 0 || a == 1,
        b == 0 || b == 1,
    ensures
        (a & b) == 0 || (a & b) == 1,
        (a & b) == 1 <==> (a == 1 && b == 1),
{
}

proof fn lemma_or16_bit(acc: u16, b: u16, i: u16, j: u16)
    by (bit_vector)
    requires
        b == 0 || b == 1,
        i < 16,
        j < 16,
        (acc >> i) & 1u16 != 1u16,
    ensures
        j == i ==> (((acc | (b << i)) >> j) & 1u16 == 1u16 <==> b == 1),
        j != i ==> (((acc | (b << i)) >> j) & 1u16 == (acc >> j) & 1u16),
{
}

impl Mask128 {
    /// Every lane holds 0 or 1.
    pub open spec fn is_bool(&self) -> bool {
        forall|j: int| 0 <= j < 16 ==> (self@[j] == 0u8 || self@[j] == 1u8)
    }

    /// Lane-wise or.
    pub fn bitor(self, rhs: Self) -> (r: Self)
        requires
            self.is_bool(),
            rhs.is_bool(),
        ensures
            r.is_bool(),
            forall|j: int| 0 <= j < 16 ==> (r@[j] == 1u8 <==> (self@[j] == 1u8 || rhs@[j] == 1u8)),
    {
        let mut a = [0u8; 16];
        let mut k: usize = 0;
        while k < 16
            invariant
                0 <= k <= 16,
                a@.len() == 16,
                self.is_bool(),
                rhs.is_bool(),
                self@.len() == 16,
                rhs@.len() == 16,
                forall|j: int| 0 <= j < k ==> (a@[j] == 0u8 || a@[j] == 1u8),
                forall|j: int| 0 <= j < k ==> (a@[j] == 1u8 <==> (self@[j] == 1u8 || rhs@[j] == 1u8)),
            decreases 16 - k,
        {
            a[k] = self.0[k] | rhs.0[k];
            proof {
                lemma_or01(self@[k as int], rhs@[k as int]);
            }
            k = k + 1;
        }
        Mask128(a)
    }

    /// Lane-wise and.
    pub fn bitand(self, rhs: Self) -> (r: Self)
        requires
            self.is_bool(),
            rhs.is_bool(),
        ensures
            r.is_bool(),
            forall|j: int| 0 <= j < 16 ==> (r@[j] == 1u8 <==> (self@[j] == 1u8 && rhs@[j] == 1u8)),
    {
        let mut a = [0u8; 16];
        let mut k: usize = 0;
        while k < 16
            invariant
                0 <= k <= 16,
                a@.len() == 16,
                self.is_bool(),
                rhs.is_bool(),
                self@.len() == 16,
                rhs@.len() == 16,
                forall|j: int| 0 <= j < k ==> (a@[j] == 0u8 || a@[j] == 1u8),
                forall|j: int| 0 <= j < k ==> (a@[j] == 1u8 <==> (self@[j] == 1u8 && rhs@[j] == 1u8)),
            decreases 16 - k,
        {
            a[k] = self.0[k] & rhs.0[k];
            proof {
                lemma_and01(self@[k as int], rhs@[k as int]);
            }
            k = k + 1;
        }
        Mask128(a)
    }

    /// Packs the lanes into an integer bitmask, lane `j` at bit `j`.
    pub fn bitmask(self) -> (m: u16)
        requires
            self.is_bool(),
        ensures
            forall|j: int| 0 <= j < 16 ==> (bit16(m, j) <==> self@[j] == 1u8),
    {
        let mut acc: u16 = 0;
        proof {
            assert forall|j: int| 0 <= j < 16 implies !bit16(acc, j) by {
                crate::bits::lemma_u16_zero_bit(acc, j as u16);
            }
        }
        let mut k: usize = 0;
        while k < 16
            invariant
                0 <= k <= 16,
                self.is_bool(),
                self@.len() == 16,
                forall|j: int| 0 <= j < k ==> (bit16(acc, j) <==> self@[j] == 1u8),
                forall|j: int| k <= j < 16 ==> !bit16(acc, j),
            decreases 16 - k,
        {
            let b = self.0[k];
            let ghost acc0 = acc;
            proof {
                assert(!bit16(acc0, k as int));
            }
            acc = acc | ((b as u16) << (k as u16));
            proof {
                assert forall|j: int|
                    0 <= j < 16 implies (bit16(acc, j) <==> (if j == k {
                        b == 1u8
                    } else {
                        bit16(acc0, j)
                    })) by {
                    lemma_or16_bit(acc0, b as u16, k as u16, j as u16);
                }
            }
            k = k + 1;
        }
        acc
    }
}

/// The escape mask of a window: bit `j` is set iff lane `j` holds a byte
/// that must be escaped, computed as `lane <= 0x1F or lane == '\\' or
/// lane == '"'`.
pub fn escaped_mask(v: Simd128u) -> (m: u16)
    ensures
        forall|j: int| 0 <= j < 16 ==> (bit16(m, j) <==> needs_escape(v@[j])),
{
    let x1f = Simd128u::splat(0x1F);
    let blash = Simd128u::splat(0x5C);
    let quote = Simd128u::splat(0x22);
    let m = v.le(&x1f).bitor(v.eq(&blash)).bitor(v.eq(&quote));
    m.bitmask()
}

/// Escapes `value` into `out` with 16-byte windows: each clean window is
/// copied whole; at the first lane whose byte needs escaping the scalar
/// writer takes over; the tail shorter than one window goes through a
/// zero-padded buffer whose mask is cut to the valid remainder.
pub fn format_string(value: &str, out: &mut Vec<u8>)
    ensures
        final(out)@ == old(out)@ + json_string(value.spec_bytes()),
{
    let bytes = value.as_bytes();
    let n = bytes.len();
    out.push(0x22);
    proof {
        assert(bytes@.take(0) =~= Seq::<u8>::empty());
        assert(out@ =~= old(out)@ + seq![0x22u8] + escaped_bytes(bytes@.take(0)));
    }
    let mut i: usize = 0;
    while i < n
        invariant
            0 <= i <= n,
            n == bytes@.len(),
            out@ == old(out)@ + seq![0x22u8] + escaped_bytes(bytes@.take(i as int)),
        decreases n - i,
    {
        if n - i >= 16 {
            let v = Simd128u::loadu(bytes, i);
            let mask = escaped_mask(v);
            if mask.all_zero() {
                proof {
                    assert forall|j: int|
                        0 <= j < 16 implies !needs_escape(
                        #[trigger] bytes@.subrange(i as int, i + 16)[j],
                    ) by {
                        assert(!mask.bit(j));
                        assert(v@[j] == bytes@.subrange(i as int, i + 16)[j]);
                    }
                    lemma_escaped_bytes_clean(bytes@.subrange(i as int, i + 16));
                    lemma_escaped_take_range(bytes@, i as int, i + 16);
                }
                v.storeu(out);
                proof {
                    assert(out@ =~= old(out)@ + seq![0x22u8] + escaped_bytes(
                        bytes@.take(i + 16),
                    ));
                }
                i = i + 16;
            } else {
                let cn = mask.first_offset();
                proof {
                    assert forall|j: int| 0 <= j < cn implies !needs_escape(
                        #[trigger] bytes@.subrange(i as int, i + cn)[j],
                    ) by {
                        assert(!mask.bit(j));
                        assert(v@[j] == bytes@[i + j]);
                    }
                    assert(mask.bit(cn as int));
                    assert(v@[cn as int] == bytes@[i + cn]);
                    assert(needs_escape(bytes@[i + cn]));
                    lemma_escaped_bytes_clean(bytes@.subrange(i as int, i + cn));
                    lemma_escaped_take_range(bytes@, i as int, i + cn);
                }
                append_range(bytes, i, i + cn, out);
                let ghost i0 = i as int;
                proof {
                    assert(out@ =~= old(out)@ + seq![0x22u8] + escaped_bytes(
                        bytes@.take(i0 + cn),
                    ));
                }
                i = i + cn;
                escape_unchecked(bytes, &mut i, out);
                proof {
                    lemma_escaped_take_range(bytes@, i0 + cn, i as int);
                    assert(out@ =~= old(out)@ + seq![0x22u8] + escaped_bytes(
                        bytes@.take(i as int),
                    ));
                }
            }
        } else {
            let rem = n - i;
            let mut placeholder = [0u8; 16];
            let mut k: usize = 0;
            while k < rem
                invariant
                    0 <= k <= rem,
                    i + rem == n,
                    n == bytes@.len(),
                    rem < 16,
                    placeholder@.len() == 16,
                    forall|j: int| 0 <= j < k ==> placeholder@[j] == bytes@[i + j],
                decreases rem - k,
            {
                placeholder[k] = bytes[i + k];
                k = k + 1;
            }
            let v = Simd128u::loadu(placeholder.as_slice(), 0);
            let full = escaped_mask(v);
            let mask = full.clear_high_bits(16 - rem);
            proof {
                assert forall|j: int| 0 <= j < 16 implies (mask.bit(j) <==> (j < rem
                    && needs_escape(bytes@[i + j]))) by {
                    if j < rem {
                        assert(v@[j] == placeholder@[j]);
                        assert(placeholder@[j] == bytes@[i + j]);
                    }
                }
            }
            if mask.all_zero() {
                proof {
                    assert forall|j: int| 0 <= j < rem implies !needs_escape(
                        #[trigger] bytes@.subrange(i as int, n as int)[j],
                    ) by {
                        assert(!mask.bit(j));
                    }
                    lemma_escaped_bytes_clean(bytes@.subrange(i as int, n as int));
                    lemma_escaped_take_range(bytes@, i as int, n as int);
                }
                append_range(bytes, i, n, out);
                proof {
                    assert(out@ =~= old(out)@ + seq![0x22u8] + escaped_bytes(
                        bytes@.take(n as int),
                    ));
                }
                i = n;
            } else {
                let cn = mask.first_offset();
                proof {
                    assert forall|j: int| 0 <= j < cn implies !needs_escape(
                        #[trigger] bytes@.subrange(i as int, i + cn)[j],
                    ) by {
                        assert(!mask.bit(j));
                    }
                    assert(mask.bit(cn as int));
                    assert(needs_escape(bytes@[i + cn]));
                    lemma_escaped_bytes_clean(bytes@.subrange(i as int, i + cn));
                    lemma_escaped_take_range(bytes@, i as int, i + cn);
                }
                append_range(bytes, i, i + cn, out);
                let ghost i0 = i as int;
                proof {
                    assert(out@ =~= old(out)@ + seq![0x22u8] + escaped_bytes(
                        bytes@.take(i0 + cn),
                    ));
                }
                i = i + cn;
                escape_unchecked(bytes, &mut i, out);
                proof {
                    lemma_escaped_take_range(bytes@, i0 + cn, i as int);
                    assert(out@ =~= old(out)@ + seq![0x22u8] + escaped_bytes(
                        bytes@.take(i as int),
                    ));
                }
            }
        }
    }
    out.push(0x22);
    proof {
        assert(bytes@.take(n as int) =~= bytes@);
        assert(out@ =~= old(out)@ + json_string(value.spec_bytes()));
    }
}

} // verus!
