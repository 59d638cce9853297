//! Bitmask views of the per-lane escape masks: an integer whose low bits
//! say, lane by lane, whether that lane's byte needs escaping, with the
//! operations the scan loop needs (emptiness test, first set lane, and
//! clearing the lanes past the valid remainder).
use vstd::prelude::*;
use vstd::std_specs::bits::{
    axiom_u16_trailing_zeros, axiom_u32_trailing_zeros, axiom_u64_trailing_zeros,
    u16_trailing_zeros, u32_trailing_zeros, u64_trailing_zeros,
};

verus! {

/// Bit `i` of a 16-bit mask.
pub open spec fn bit16(m: u16, i: int) -> bool {
    0 <= i < 16 && (m >> (i as u16)) & 1u16 == 1u16
}

/// Bit `i` of a 32-bit mask.
pub open spec fn bit32(m: u32, i: int) -> bool {
    0 <= i < 32 && (m >> (i as u32)) & 1u32 == 1u32
}

/// Bit `i` of a 64-bit mask.
pub open spec fn bit64(m: u64, i: int) -> bool {
    0 <= i < 64 && (m >> (i as u64)) & 1u64 == 1u64
}

/// Lane `i` of a nibble-per-lane mask: set iff the nibble is nonzero.
pub open spec fn nib64(m: u64, i: int) -> bool {
    0 <= i < 16 && (m >> ((4 * i) as u64)) & 0xFu64 != 0u64
}

/// A per-lane bitmask over a fixed number of lanes.
pub trait BitMask: Sized {
    /// How many lanes the mask covers.
    spec fn mask_len(&self) -> nat;

    /// Whether lane `i` is set.
    spec fn bit(&self, i: int) -> bool;

    /// True iff no lane is set.
    fn all_zero(&self) -> (r: bool)
        ensures
            r <==> (forall|i: int| 0 <= i < self.mask_len() ==> !self.bit(i)),
    ;

    /// Index of the first set lane.
    fn first_offset(&self) -> (r: usize)
        requires
            exists|i: int| 0 <= i < self.mask_len() && self.bit(i),
        ensures
            0 <= r < self.mask_len(),
            self.bit(r as int),
            forall|j: int| 0 <= j < r ==> !self.bit(j),
    ;

    /// Clears the `n` highest lanes, keeping the rest.
    fn clear_high_bits(&self, n: usize) -> (r: Self)
        requires
            n < self.mask_len(),
        ensures
            r.mask_len() == self.mask_len(),
            forall|i: int|
                0 <= i < self.mask_len() ==> (r.bit(i) <==> (i < self.mask_len() - n
                    && self.bit(i))),
    ;
}

pub proof fn lemma_u16_zero_bit(m: u16, j: u16)
    by (bit_vector)
    requires
        m == 0,
    ensures
        (m >> j) & 1u16 == 0u16,
{
}

pub proof fn lemma_u32_zero_bit(m: u32, j: u32)
    by (bit_vector)
    requires
        m == 0,
    ensures
        (m >> j) & 1u32 == 0u32,
{
}

pub proof fn lemma_u64_zero_bit(m: u64, j: u64)
    by (bit_vector)
    requires
        m == 0,
    ensures
        (m >> j) & 1u64 == 0u64,
{
}

proof fn lemma_u16_clear_bit(m: u16, n: u16, j: u16)
    by (bit_vector)
    requires
        n < 16,
        j < 16,
    ensures
        ((m & (0xFFFFu16 >> n)) >> j) & 1u16 == 1u16 <==> (j < 16 - n && (m >> j) & 1u16 == 1u16),
{
}

proof fn lemma_u32_clear_bit(m: u32, n: u32, j: u32)
    by (bit_vector)
    requires
        n < 32,
        j < 32,
    ensures
        ((m & (0xFFFF_FFFFu32 >> n)) >> j) & 1u32 == 1u32 <==> (j < 32 - n && (m >> j) & 1u32
            == 1u32),
{
}

proof fn lemma_u64_clear_bit(m: u64, n: u64, j: u64)
    by (bit_vector)
    requires
        n < 64,
        j < 64,
    ensures
        ((m & (0xFFFF_FFFF_FFFF_FFFFu64 >> n)) >> j) & 1u64 == 1u64 <==> (j < 64 - n && (m >> j)
            & 1u64 == 1u64),
{
}

impl BitMask for u16 {
    open spec fn mask_len(&self) -> nat {
        16
    }

    open spec fn bit(&self, i: int) -> bool {
        bit16(*self, i)
    }

    fn all_zero(&self) -> (r: bool) {
        proof {
            if *self == 0 {
                assert forall|i: int| 0 <= i < 16 implies !self.bit(i) by {
                    lemma_u16_zero_bit(*self, i as u16);
                }
            } else {
                axiom_u16_trailing_zeros(*self);
                let t = u16_trailing_zeros(*self);
                assert(self.bit(t as int));
            }
        }
        *self == 0
    }

    fn first_offset(&self) -> (r: usize) {
        proof {
            axiom_u16_trailing_zeros(*self);
            if *self == 0 {
                let i = choose|i: int| 0 <= i < 16 && self.bit(i);
                lemma_u16_zero_bit(*self, i as u16);
            }
            assert(*self != 0);
        }
        let t = self.trailing_zeros();
        proof {
            assert(self.bit(t as int));
            assert forall|j: int| 0 <= j < t implies !self.bit(j) by {
                assert((*self >> (j as u16)) & 1u16 == 0u16);
            }
        }
        t as usize
    }

    fn clear_high_bits(&self, n: usize) -> (r: Self) {
        let r = *self & (0xFFFFu16 >> (n as u16));
        proof {
            assert forall|i: int| 0 <= i < 16 implies (r.bit(i) <==> (i < 16 - n && self.bit(
                i,
            ))) by {
                lemma_u16_clear_bit(*self, n as u16, i as u16);
            }
        }
        r
    }
}

impl BitMask for u32 {
    open spec fn mask_len(&self) -> nat {
        32
    }

    open spec fn bit(&self, i: int) -> bool {
        bit32(*self, i)
    }

    fn all_zero(&self) -> (r: bool) {
        proof {
            if *self == 0 {
                assert forall|i: int| 0 <= i < 32 implies !self.bit(i) by {
                    lemma_u32_zero_bit(*self, i as u32);
                }
            } else {
                axiom_u32_trailing_zeros(*self);
                let t = u32_trailing_zeros(*self);
                assert(self.bit(t as int));
            }
        }
        *self == 0
    }

    fn first_offset(&self) -> (r: usize) {
        proof {
            axiom_u32_trailing_zeros(*self);
            if *self == 0 {
                let i = choose|i: int| 0 <= i < 32 && self.bit(i);
                lemma_u32_zero_bit(*self, i as u32);
            }
            assert(*self != 0);
        }
        let t = self.trailing_zeros();
        proof {
            assert(self.bit(t as int));
            assert forall|j: int| 0 <= j < t implies !self.bit(j) by {
                assert((*self >> (j as u32)) & 1u32 == 0u32);
            }
        }
        t as usize
    }

    fn clear_high_bits(&self, n: usize) -> (r: Self) {
        let r = *self & (0xFFFF_FFFFu32 >> (n as u32));
        proof {
            assert forall|i: int| 0 <= i < 32 implies (r.bit(i) <==> (i < 32 - n && self.bit(
                i,
            ))) by {
                lemma_u32_clear_bit(*self, n as u32, i as u32);
            }
        }
        r
    }
}

impl BitMask for u64 {
    open spec fn mask_len(&self) -> nat {
        64
    }

    open spec fn bit(&self, i: int) -> bool {
        bit64(*self, i)
    }

    fn all_zero(&self) -> (r: bool) {
        proof {
            if *self == 0 {
                assert forall|i: int| 0 <= i < 64 implies !self.bit(i) by {
                    lemma_u64_zero_bit(*self, i as u64);
                }
            } else {
                axiom_u64_trailing_zeros(*self);
                let t = u64_trailing_zeros(*self);
                assert(self.bit(t as int));
            }
        }
        *self == 0
    }

    fn first_offset(&self) -> (r: usize) {
        proof {
            axiom_u64_trailing_zeros(*self);
            if *self == 0 {
                let i = choose|i: int| 0 <= i < 64 && self.bit(i);
                lemma_u64_zero_bit(*self, i as u64);
            }
            assert(*self != 0);
        }
        let t = self.trailing_zeros();
        proof {
            assert(self.bit(t as int));
            assert forall|j: int| 0 <= j < t implies !self.bit(j) by {
                assert((*self >> (j as u64)) & 1u64 == 0u64);
            }
        }
        t as usize
    }

    fn clear_high_bits(&self, n: usize) -> (r: Self) {
        let r = *self & (0xFFFF_FFFF_FFFF_FFFFu64 >> (n as u64));
        proof {
            assert forall|i: int| 0 <= i < 64 implies (r.bit(i) <==> (i < 64 - n && self.bit(
                i,
            ))) by {
                lemma_u64_clear_bit(*self, n as u64, i as u64);
            }
        }
        r
    }
}

/// A 16-lane mask packed four bits per lane in a `u64`, the form a
/// 128-bit byte-compare mask narrows to on some architectures: lane `i`
/// is set iff nibble `i` is nonzero.
pub struct NeonBits(u64);

impl NeonBits {
    /// The packed nibble value.
    pub closed spec fn spec_val(&self) -> u64 {
        self.0
    }

    pub fn new(u: u64) -> (r: Self)
        ensures
            r.spec_val() == u,
    {
        NeonBits(u)
    }
}

proof fn lemma_nib_of_zero(m: u64, k: u64)
    by (bit_vector)
    requires
        m == 0,
    ensures
        (m >> (4 * k)) & 0xFu64 == 0u64,
{
}

proof fn lemma_nib_at(m: u64, t: u64)
    by (bit_vector)
    requires
        t < 64,
        (m >> t) & 1u64 == 1u64,
    ensures
        (m >> (4 * (t / 4))) & 0xFu64 != 0u64,
        t / 4 < 16,
{
}

proof fn lemma_nib_all_clear(m: u64, k: u64)
    by (bit_vector)
    requires
        k < 16,
        (m >> (4 * k)) & 1u64 == 0u64,
        (m >> (4 * k + 1)) & 1u64 == 0u64,
        (m >> (4 * k + 2)) & 1u64 == 0u64,
        (m >> (4 * k + 3)) & 1u64 == 0u64,
    ensures
        (m >> (4 * k)) & 0xFu64 == 0u64,
{
}

proof fn lemma_shr2_div4(t: u64)
    by (bit_vector)
    ensures
        t >> 2u64 == t / 4,
{
}

proof fn lemma_nib_clear_high(m: u64, n: u64, k: u64)
    by (bit_vector)
    requires
        n < 16,
        k < 16,
    ensures
        ((m & (0xFFFF_FFFF_FFFF_FFFFu64 >> (4 * n))) >> (4 * k)) & 0xFu64 != 0u64 <==> (k < 16 - n
            && (m >> (4 * k)) & 0xFu64 != 0u64),
{
}

impl BitMask for NeonBits {
    open spec fn mask_len(&self) -> nat {
        16
    }

    open spec fn bit(&self, i: int) -> bool {
        nib64(self.spec_val(), i)
    }

    fn all_zero(&self) -> (r: bool) {
        proof {
            if self.0 == 0 {
                assert forall|i: int| 0 <= i < 16 implies !self.bit(i) by {
                    lemma_nib_of_zero(self.0, i as u64);
                }
            } else {
                axiom_u64_trailing_zeros(self.0);
                let t = u64_trailing_zeros(self.0);
                lemma_nib_at(self.0, t as u64);
                assert(self.bit((t / 4) as int));
            }
        }
        self.0 == 0
    }

    fn first_offset(&self) -> (r: usize) {
        proof {
            axiom_u64_trailing_zeros(self.0);
            if self.0 == 0 {
                let i = choose|i: int| 0 <= i < 16 && self.bit(i);
                lemma_nib_of_zero(self.0, i as u64);
            }
            assert(self.0 != 0);
        }
        let t = self.0.trailing_zeros();
        proof {
            lemma_nib_at(self.0, t as u64);
            lemma_shr2_div4(t as u64);
            assert(self.bit((t as u64 / 4) as int));
            assert forall|j: int| 0 <= j < (t as u64 / 4) implies !self.bit(j) by {
                let s = (4 * j) as u64;
                assert((self.0 >> s) & 1u64 == 0u64);
                assert((self.0 >> (s + 1)) & 1u64 == 0u64);
                assert((self.0 >> (s + 2)) & 1u64 == 0u64);
                assert((self.0 >> (s + 3)) & 1u64 == 0u64);
                lemma_nib_all_clear(self.0, j as u64);
            }
        }
        (t as usize) >> 2
    }

    fn clear_high_bits(&self, n: usize) -> (r: Self) {
        let r = NeonBits(self.0 & (0xFFFF_FFFF_FFFF_FFFFu64 >> (4 * (n as u64))));
        proof {
            assert forall|i: int| 0 <= i < 16 implies (r.bit(i) <==> (i < 16 - n && self.bit(
                i,
            ))) by {
                lemma_nib_clear_high(self.0, n as u64, i as u64);
            }
        }
        r
    }
}

} // verus!
