//! Single bits and bit access on unsigned machine words.
use vstd::prelude::*;

verus! {

/// A single bit, kept apart from arbitrary booleans in bitwise interfaces.
#[derive(Debug, Copy, Clone, PartialEq, Eq, Structural)]
pub enum Bit {
    /// The zero-valued bit.
    ZERO,
    /// The one-valued bit.
    ONE,
}

/// The bit that stands for `b`.
pub open spec fn bit_of(b: bool) -> Bit {
    if b {
        Bit::ONE
    } else {
        Bit::ZERO
    }
}

impl Bit {
    /// The boolean value of the bit.
    pub open spec fn value(self) -> bool {
        self is ONE
    }

    /// Whether the bit is set.
    pub fn is_set(&self) -> (r: bool)
        ensures
            r == self.value(),
    {
        match self {
            Bit::ONE => true,
            Bit::ZERO => false,
        }
    }

    /// Sets the bit to one.
    pub fn set(&mut self)
        ensures
            *final(self) == Bit::ONE,
    {
        *self = Bit::ONE;
    }

    /// Sets the bit to zero.
    pub fn clear(&mut self)
        ensures
            *final(self) == Bit::ZERO,
    {
        *self = Bit::ZERO;
    }

    /// The bit that stands for `b`.
    pub fn from_bool(b: bool) -> (r: Bit)
        ensures
            r == bit_of(b),
    {
        if b {
            Bit::ONE
        } else {
            Bit::ZERO
        }
    }
}

impl From<bool> for Bit {
    fn from(is_set: bool) -> (r: Bit) {
        Bit::from_bool(is_set)
    }
}

impl vstd::std_specs::convert::FromSpecImpl<bool> for Bit {
    open spec fn obeys_from_spec() -> bool {
        true
    }

    open spec fn from_spec(v: bool) -> Bit {
        bit_of(v)
    }
}

impl core::ops::BitAnd for Bit {
    type Output = Bit;

    fn bitand(self, rhs: Bit) -> (r: Bit) {
        Bit::from_bool(self.is_set() && rhs.is_set())
    }
}

impl vstd::std_specs::ops::BitAndSpecImpl for Bit {
    open spec fn obeys_bitand_spec() -> bool {
        true
    }

    open spec fn bitand_req(self, rhs: Bit) -> bool {
        true
    }

    open spec fn bitand_spec(self, rhs: Bit) -> Bit {
        bit_of(self.value() && rhs.value())
    }
}

impl core::ops::BitAndAssign for Bit {
    fn bitand_assign(&mut self, rhs: Bit) {
        *self = Bit::from_bool(self.is_set() && rhs.is_set());
    }
}


impl core::ops::BitOr for Bit {
    type Output = Bit;

    fn bitor(self, rhs: Bit) -> (r: Bit) {
        Bit::from_bool(self.is_set() || rhs.is_set())
    }
}

impl vstd::std_specs::ops::BitOrSpecImpl for Bit {
    open spec fn obeys_bitor_spec() -> bool {
        true
    }

    open spec fn bitor_req(self, rhs: Bit) -> bool {
        true
    }

    open spec fn bitor_spec(self, rhs: Bit) -> Bit {
        bit_of(self.value() || rhs.value())
    }
}

impl core::ops::BitXor for Bit {
    type Output = Bit;

    fn bitxor(self, rhs: Bit) -> (r: Bit) {
        Bit::from_bool(self.is_set() != rhs.is_set())
    }
}

impl vstd::std_specs::ops::BitXorSpecImpl for Bit {
    open spec fn obeys_bitxor_spec() -> bool {
        true
    }

    open spec fn bitxor_req(self, rhs: Bit) -> bool {
        true
    }

    open spec fn bitxor_spec(self, rhs: Bit) -> Bit {
        bit_of(self.value() != rhs.value())
    }
}

impl core::ops::Not for Bit {
    type Output = Bit;

    fn not(self) -> (r: Bit) {
        Bit::from_bool(!self.is_set())
    }
}

impl vstd::std_specs::ops::NotSpecImpl for Bit {
    open spec fn obeys_not_spec() -> bool {
        true
    }

    open spec fn not_req(self) -> bool {
        true
    }

    open spec fn not_spec(self) -> Bit {
        bit_of(!self.value())
    }
}

impl core::ops::BitOrAssign for Bit {
    fn bitor_assign(&mut self, rhs: Bit) {
        *self = Bit::from_bool(self.is_set() || rhs.is_set());
    }
}

impl core::ops::BitXorAssign for Bit {
    fn bitxor_assign(&mut self, rhs: Bit) {
        *self = Bit::from_bool(self.is_set() != rhs.is_set());
    }
}

/// The number of set bits among the first `n` bits of a word.
pub open spec fn ones_below<T: BitWise>(w: T, n: nat) -> nat
    decreases n,
{
    if n == 0 {
        0
    } else {
        ones_below(w, (n - 1) as nat) + if w.bit((n - 1) as nat) {
            1nat
        } else {
            0nat
        }
    }
}

/// Bit-level access on an unsigned machine word.
///
/// Bit `i` of a word is `(word >> i) & 1`: indexing is positional from the least significant
/// bit. Indices at or past the word's width are out of range.
pub trait BitWise: Sized + Copy {
    /// The number of bits in the word.
    spec fn width() -> nat;

    /// Whether bit `i` of the word is set (meaningful for `i < width()`).
    spec fn bit(self, i: nat) -> bool;

    /// The number of bits in the implementing type.
    fn n_bits() -> (r: u32)
        ensures
            r == Self::width(),
            8 <= r <= 128,
    ;

    /// The number of bytes in the implementing type.
    fn n_bytes() -> (r: u32)
        ensures
            r == Self::width() / 8,
    {
        Self::n_bits() / 8
    }

    /// The word with every bit clear.
    fn zero() -> (r: Self)
        ensures
            forall|j: nat| j < Self::width() ==> !r.bit(j),
    ;

    /// The bitwise exclusive or of two words.
    fn xor(self, other: Self) -> (r: Self)
        ensures
            forall|j: nat| j < Self::width() ==> r.bit(j) == (self.bit(j) != other.bit(j)),
    ;

    /// The state of bit `bit_index`, whose range the caller guarantees.
    fn get_bit_unchecked(&self, bit_index: usize) -> (r: Bit)
        requires
            bit_index < Self::width(),
        ensures
            r == bit_of(self.bit(bit_index as nat)),
    ;

    /// Sets bit `bit_index`, whose range the caller guarantees, to `val`; returns its former
    /// state. No other bit changes.
    fn set_bit_unchecked(&mut self, bit_index: usize, val: Bit) -> (r: Bit)
        requires
            bit_index < Self::width(),
        ensures
            r == bit_of(old(self).bit(bit_index as nat)),
            final(self).bit(bit_index as nat) == val.value(),
            forall|j: nat|
                j < Self::width() && j != bit_index ==> final(self).bit(j) == old(self).bit(j),
    ;

    /// The state of bit `bit_index`, or `None` where the index is out of range.
    fn get_bit(&self, bit_index: usize) -> (r: Option<Bit>)
        ensures
            bit_index < Self::width() ==> r == Some(bit_of(self.bit(bit_index as nat))),
            bit_index >= Self::width() ==> r is None,
    {
        if bit_index >= Self::n_bits() as usize {
            None
        } else {
            Some(self.get_bit_unchecked(bit_index))
        }
    }

    /// Sets bit `bit_index` to `val` and returns its former state; where the index is out of
    /// range, returns `None` and leaves the word as it was.
    fn set_bit(&mut self, bit_index: usize, val: Bit) -> (r: Option<Bit>)
        ensures
            bit_index < Self::width() ==> {
                &&& r == Some(bit_of(old(self).bit(bit_index as nat)))
                &&& final(self).bit(bit_index as nat) == val.value()
                &&& forall|j: nat|
                    j < Self::width() && j != bit_index ==> final(self).bit(j) == old(self).bit(
                        j,
                    )
            },
            bit_index >= Self::width() ==> r is None && *final(self) == *old(self),
    {
        if bit_index >= Self::n_bits() as usize {
            None
        } else {
            Some(self.set_bit_unchecked(bit_index, val))
        }
    }
}

/// The number of set bits of a word.
pub fn count_ones<T: BitWise>(word: T) -> (r: u32)
    ensures
        r == ones_below(word, T::width()),
{
    let n = T::n_bits();
    let mut count: u32 = 0;
    let mut i: u32 = 0;
    while i < n
        invariant
            n == T::width(),
            i <= n,
            count <= i,
            count == ones_below(word, i as nat),
        decreases n - i,
    {
        if word.get_bit_unchecked(i as usize).is_set() {
            count += 1;
        }
        i += 1;
    }
    count
}

proof fn lemma_bits_u8(x: u8, y: u8, i: u8, j: u8)
    by (bit_vector)
    requires
        i < 8,
        j < 8,
    ensures
        ((x & (1u8 << i)) != 0u8) == ((x >> i) & 1u8 == 1u8),
        ((x | (1u8 << i)) >> i) & 1u8 == 1u8,
        ((x & !(1u8 << i)) >> i) & 1u8 == 0u8,
        i != j ==> ((x | (1u8 << i)) >> j) & 1u8 == (x >> j) & 1u8,
        i != j ==> ((x & !(1u8 << i)) >> j) & 1u8 == (x >> j) & 1u8,
        (((x ^ y) >> j) & 1u8 == 1u8) == (((x >> j) & 1u8 == 1u8) != ((y >> j) & 1u8 == 1u8)),
        (0u8 >> j) & 1u8 == 0u8,
{
}

impl BitWise for u8 {
    open spec fn width() -> nat {
        8
    }

    open spec fn bit(self, i: nat) -> bool {
        (self >> (i as u8)) & 1u8 == 1u8
    }

    fn n_bits() -> (r: u32) {
        u8::BITS
    }

    fn zero() -> (r: u8) {
        proof {
            assert forall|j: nat| j < 8 implies !0u8.bit(j) by {
                lemma_bits_u8(0, 0, 0, j as u8);
            }
        }
        0
    }

    fn xor(self, other: u8) -> (r: u8) {
        let r = self ^ other;
        proof {
            assert forall|j: nat| j < 8 implies r.bit(j) == (self.bit(j) != other.bit(j)) by {
                lemma_bits_u8(self, other, 0, j as u8);
            }
        }
        r
    }

    fn get_bit_unchecked(&self, bit_index: usize) -> (r: Bit) {
        let i = bit_index as u8;
        proof {
            lemma_bits_u8(*self, 0, i, 0);
        }
        Bit::from_bool(*self & (1u8 << i) != 0)
    }

    fn set_bit_unchecked(&mut self, bit_index: usize, val: Bit) -> (r: Bit) {
        let i = bit_index as u8;
        let x = *self;
        proof {
            lemma_bits_u8(x, 0, i, 0);
        }
        let prior = Bit::from_bool(x & (1u8 << i) != 0);
        let y = if val.is_set() {
            x | (1u8 << i)
        } else {
            x & !(1u8 << i)
        };
        proof {
            lemma_bits_u8(x, 0, i, 0);
            assert forall|j: nat| j < 8 && j != bit_index implies y.bit(j) == x.bit(j) by {
                lemma_bits_u8(x, 0, i, j as u8);
            }
        }
        *self = y;
        prior
    }
}

proof fn lemma_bits_u16(x: u16, y: u16, i: u16, j: u16)
    by (bit_vector)
    requires
        i < 16,
        j < 16,
    ensures
        ((x & (1u16 << i)) != 0u16) == ((x >> i) & 1u16 == 1u16),
        ((x | (1u16 << i)) >> i) & 1u16 == 1u16,
        ((x & !(1u16 << i)) >> i) & 1u16 == 0u16,
        i != j ==> ((x | (1u16 << i)) >> j) & 1u16 == (x >> j) & 1u16,
        i != j ==> ((x & !(1u16 << i)) >> j) & 1u16 == (x >> j) & 1u16,
        (((x ^ y) >> j) & 1u16 == 1u16) == (((x >> j) & 1u16 == 1u16) != ((y >> j) & 1u16 == 1u16)),
        (0u16 >> j) & 1u16 == 0u16,
{
}

impl BitWise for u16 {
    open spec fn width() -> nat {
        16
    }

    open spec fn bit(self, i: nat) -> bool {
        (self >> (i as u16)) & 1u16 == 1u16
    }

    fn n_bits() -> (r: u32) {
        u16::BITS
    }

    fn zero() -> (r: u16) {
        proof {
            assert forall|j: nat| j < 16 implies !0u16.bit(j) by {
                lemma_bits_u16(0, 0, 0, j as u16);
            }
        }
        0
    }

    fn xor(self, other: u16) -> (r: u16) {
        let r = self ^ other;
        proof {
            assert forall|j: nat| j < 16 implies r.bit(j) == (self.bit(j) != other.bit(j)) by {
                lemma_bits_u16(self, other, 0, j as u16);
            }
        }
        r
    }

    fn get_bit_unchecked(&self, bit_index: usize) -> (r: Bit) {
        let i = bit_index as u16;
        proof {
            lemma_bits_u16(*self, 0, i, 0);
        }
        Bit::from_bool(*self & (1u16 << i) != 0)
    }

    fn set_bit_unchecked(&mut self, bit_index: usize, val: Bit) -> (r: Bit) {
        let i = bit_index as u16;
        let x = *self;
        proof {
            lemma_bits_u16(x, 0, i, 0);
        }
        let prior = Bit::from_bool(x & (1u16 << i) != 0);
        let y = if val.is_set() {
            x | (1u16 << i)
        } else {
            x & !(1u16 << i)
        };
        proof {
            lemma_bits_u16(x, 0, i, 0);
            assert forall|j: nat| j < 16 && j != bit_index implies y.bit(j) == x.bit(j) by {
                lemma_bits_u16(x, 0, i, j as u16);
            }
        }
        *self = y;
        prior
    }
}

proof fn lemma_bits_u32(x: u32, y: u32, i: u32, j: u32)
    by (bit_vector)
    requires
        i < 32,
        j < 32,
    ensures
        ((x & (1u32 << i)) != 0u32) == ((x >> i) & 1u32 == 1u32),
        ((x | (1u32 << i)) >> i) & 1u32 == 1u32,
        ((x & !(1u32 << i)) >> i) & 1u32 == 0u32,
        i != j ==> ((x | (1u32 << i)) >> j) & 1u32 == (x >> j) & 1u32,
        i != j ==> ((x & !(1u32 << i)) >> j) & 1u32 == (x >> j) & 1u32,
        (((x ^ y) >> j) & 1u32 == 1u32) == (((x >> j) & 1u32 == 1u32) != ((y >> j) & 1u32 == 1u32)),
        (0u32 >> j) & 1u32 == 0u32,
{
}

impl BitWise for u32 {
    open spec fn width() -> nat {
        32
    }

    open spec fn bit(self, i: nat) -> bool {
        (self >> (i as u32)) & 1u32 == 1u32
    }

    fn n_bits() -> (r: u32) {
        u32::BITS
    }

    fn zero() -> (r: u32) {
        proof {
            assert forall|j: nat| j < 32 implies !0u32.bit(j) by {
                lemma_bits_u32(0, 0, 0, j as u32);
            }
        }
        0
    }

    fn xor(self, other: u32) -> (r: u32) {
        let r = self ^ other;
        proof {
            assert forall|j: nat| j < 32 implies r.bit(j) == (self.bit(j) != other.bit(j)) by {
                lemma_bits_u32(self, other, 0, j as u32);
            }
        }
        r
    }

    fn get_bit_unchecked(&self, bit_index: usize) -> (r: Bit) {
        let i = bit_index as u32;
        proof {
            lemma_bits_u32(*self, 0, i, 0);
        }
        Bit::from_bool(*self & (1u32 << i) != 0)
    }

    fn set_bit_unchecked(&mut self, bit_index: usize, val: Bit) -> (r: Bit) {
        let i = bit_index as u32;
        let x = *self;
        proof {
            lemma_bits_u32(x, 0, i, 0);
        }
        let prior = Bit::from_bool(x & (1u32 << i) != 0);
        let y = if val.is_set() {
            x | (1u32 << i)
        } else {
            x & !(1u32 << i)
        };
        proof {
            lemma_bits_u32(x, 0, i, 0);
            assert forall|j: nat| j < 32 && j != bit_index implies y.bit(j) == x.bit(j) by {
                lemma_bits_u32(x, 0, i, j as u32);
            }
        }
        *self = y;
        prior
    }
}

proof fn lemma_bits_u64(x: u64, y: u64, i: u64, j: u64)
    by (bit_vector)
    requires
        i < 64,
        j < 64,
    ensures
        ((x & (1u64 << i)) != 0u64) == ((x >> i) & 1u64 == 1u64),
        ((x | (1u64 << i)) >> i) & 1u64 == 1u64,
        ((x & !(1u64 << i)) >> i) & 1u64 == 0u64,
        i != j ==> ((x | (1u64 << i)) >> j) & 1u64 == (x >> j) & 1u64,
        i != j ==> ((x & !(1u64 << i)) >> j) & 1u64 == (x >> j) & 1u64,
        (((x ^ y) >> j) & 1u64 == 1u64) == (((x >> j) & 1u64 == 1u64) != ((y >> j) & 1u64 == 1u64)),
        (0u64 >> j) & 1u64 == 0u64,
{
}

impl BitWise for u64 {
    open spec fn width() -> nat {
        64
    }

    open spec fn bit(self, i: nat) -> bool {
        (self >> (i as u64)) & 1u64 == 1u64
    }

    fn n_bits() -> (r: u32) {
        u64::BITS
    }

    fn zero() -> (r: u64) {
        proof {
            assert forall|j: nat| j < 64 implies !0u64.bit(j) by {
                lemma_bits_u64(0, 0, 0, j as u64);
            }
        }
        0
    }

    fn xor(self, other: u64) -> (r: u64) {
        let r = self ^ other;
        proof {
            assert forall|j: nat| j < 64 implies r.bit(j) == (self.bit(j) != other.bit(j)) by {
                lemma_bits_u64(self, other, 0, j as u64);
            }
        }
        r
    }

    fn get_bit_unchecked(&self, bit_index: usize) -> (r: Bit) {
        let i = bit_index as u64;
        proof {
            lemma_bits_u64(*self, 0, i, 0);
        }
        Bit::from_bool(*self & (1u64 << i) != 0)
    }

    fn set_bit_unchecked(&mut self, bit_index: usize, val: Bit) -> (r: Bit) {
        let i = bit_index as u64;
        let x = *self;
        proof {
            lemma_bits_u64(x, 0, i, 0);
        }
        let prior = Bit::from_bool(x & (1u64 << i) != 0);
        let y = if val.is_set() {
            x | (1u64 << i)
        } else {
            x & !(1u64 << i)
        };
        proof {
            lemma_bits_u64(x, 0, i, 0);
            assert forall|j: nat| j < 64 && j != bit_index implies y.bit(j) == x.bit(j) by {
                lemma_bits_u64(x, 0, i, j as u64);
            }
        }
        *self = y;
        prior
    }
}

proof fn lemma_bits_u128(x: u128, y: u128, i: u128, j: u128)
    by (bit_vector)
    requires
        i < 128,
        j < 128,
    ensures
        ((x & (1u128 << i)) != 0u128) == ((x >> i) & 1u128 == 1u128),
        ((x | (1u128 << i)) >> i) & 1u128 == 1u128,
        ((x & !(1u128 << i)) >> i) & 1u128 == 0u128,
        i != j ==> ((x | (1u128 << i)) >> j) & 1u128 == (x >> j) & 1u128,
        i != j ==> ((x & !(1u128 << i)) >> j) & 1u128 == (x >> j) & 1u128,
        (((x ^ y) >> j) & 1u128 == 1u128) == (((x >> j) & 1u128 == 1u128) != ((y >> j) & 1u128 == 1u128)),
        (0u128 >> j) & 1u128 == 0u128,
{
}

impl BitWise for u128 {
    open spec fn width() -> nat {
        128
    }

    open spec fn bit(self, i: nat) -> bool {
        (self >> (i as u128)) & 1u128 == 1u128
    }

    fn n_bits() -> (r: u32) {
        u128::BITS
    }

    fn zero() -> (r: u128) {
        proof {
            assert forall|j: nat| j < 128 implies !0u128.bit(j) by {
                lemma_bits_u128(0, 0, 0, j as u128);
            }
        }
        0
    }

    fn xor(self, other: u128) -> (r: u128) {
        let r = self ^ other;
        proof {
            assert forall|j: nat| j < 128 implies r.bit(j) == (self.bit(j) != other.bit(j)) by {
                lemma_bits_u128(self, other, 0, j as u128);
            }
        }
        r
    }

    fn get_bit_unchecked(&self, bit_index: usize) -> (r: Bit) {
        let i = bit_index as u128;
        proof {
            lemma_bits_u128(*self, 0, i, 0);
        }
        Bit::from_bool(*self & (1u128 << i) != 0)
    }

    fn set_bit_unchecked(&mut self, bit_index: usize, val: Bit) -> (r: Bit) {
        let i = bit_index as u128;
        let x = *self;
        proof {
            lemma_bits_u128(x, 0, i, 0);
        }
        let prior = Bit::from_bool(x & (1u128 << i) != 0);
        let y = if val.is_set() {
            x | (1u128 << i)
        } else {
            x & !(1u128 << i)
        };
        proof {
            lemma_bits_u128(x, 0, i, 0);
            assert forall|j: nat| j < 128 && j != bit_index implies y.bit(j) == x.bit(j) by {
                lemma_bits_u128(x, 0, i, j as u128);
            }
        }
        *self = y;
        prior
    }
}

} // verus!
