//! Symbols of a Huffman code: numbers below `2^width` with a fixed-width,
//! most-significant-bit-first serialization.
use vstd::prelude::*;
use bit_vec::BitVec;
use crate::bits::{bits_get, bits_new, bits_of, bits_push};

verus! {

/// `2^n`.
pub open spec fn two_pow(n: nat) -> nat
    decreases n,
{
    if n == 0 {
        1
    } else {
        2 * two_pow((n - 1) as nat)
    }
}

/// The `w` low bits of `v`, most significant first.
pub open spec fn value_bits(v: nat, w: nat) -> Seq<bool>
    decreases w,
{
    if w == 0 {
        Seq::empty()
    } else {
        value_bits(v / 2, (w - 1) as nat).push(v % 2 == 1)
    }
}

/// The number that a bit string spells, most significant bit first.
pub open spec fn bits_value(s: Seq<bool>) -> nat
    decreases s.len(),
{
    if s.len() == 0 {
        0
    } else {
        2 * bits_value(s.drop_last()) + if s.last() {
            1nat
        } else {
            0nat
        }
    }
}

pub(crate) proof fn lemma_value_bits(v: nat, w: nat)
    requires
        v < two_pow(w),
    ensures
        value_bits(v, w).len() == w,
        bits_value(value_bits(v, w)) == v,
    decreases w,
{
    if w > 0 {
        lemma_value_bits(v / 2, (w - 1) as nat);
        let s = value_bits(v, w);
        assert(s.drop_last() =~= value_bits(v / 2, (w - 1) as nat));
    }
}

pub(crate) proof fn lemma_value_bits_len(v: nat, w: nat)
    ensures
        value_bits(v, w).len() == w,
    decreases w,
{
    if w > 0 {
        lemma_value_bits_len(v / 2, (w - 1) as nat);
    }
}

pub(crate) proof fn lemma_bits_value_bound(s: Seq<bool>)
    ensures
        bits_value(s) < two_pow(s.len()),
    decreases s.len(),
{
    if s.len() > 0 {
        lemma_bits_value_bound(s.drop_last());
    }
}

/// A symbol of a Huffman code: a number below `2^width` with a fixed-width
/// bit serialization.
pub trait SerializedBits: Sized + Copy {
    /// The symbol as a number.
    spec fn value(&self) -> nat;

    /// The number of bits in the symbol's serialization.
    spec fn width() -> nat;

    /// The symbol whose number is `v`.
    spec fn from_value(v: nat) -> Self;

    fn bitlen() -> (r: usize)
        ensures
            r == Self::width(),
            1 <= r <= 16,
    ;

    fn index(&self) -> (r: usize)
        ensures
            r == self.value(),
    ;

    fn from_index(i: usize) -> (r: Self)
        requires
            i < two_pow(Self::width()),
        ensures
            r == Self::from_value(i as nat),
    ;

    fn serialize_to_bits(&self) -> (r: BitVec)
        ensures
            bits_of(r) == value_bits(self.value(), Self::width()),
    ;

    fn serialize_from_bits(bv: &BitVec) -> (r: Self)
        requires
            bits_of(*bv).len() == Self::width(),
        ensures
            r == Self::from_value(bits_value(bits_of(*bv))),
    ;

    proof fn lemma_symbol(a: Self, v: nat)
        ensures
            1 <= Self::width() <= 16,
            a.value() < two_pow(Self::width()),
            Self::from_value(a.value()) == a,
            v < two_pow(Self::width()) ==> Self::from_value(v).value() == v,
    ;
}

/// Appends the `w` low bits of `v` to `bv`, most significant first.
pub(crate) fn push_value_bits(bv: &mut BitVec, v: u32, w: usize)
    requires
        w <= 16,
        bits_of(*old(bv)).len() + w < usize::MAX,
    ensures
        bits_of(*final(bv)) == bits_of(*old(bv)) + value_bits(v as nat, w as nat),
    decreases w,
{
    if w > 0 {
        push_value_bits(bv, v / 2, w - 1);
        proof {
            lemma_value_bits_len(v as nat / 2, (w - 1) as nat);
        }
        bits_push(bv, v % 2 == 1);
        proof {
            assert(bits_of(*bv) =~= bits_of(*old(bv)) + value_bits(v as nat, w as nat));
        }
    }
}

/// The number spelled by the `w` bits of `bv` from `start` on.
pub(crate) fn read_value(bv: &BitVec, start: usize, w: usize) -> (r: u32)
    requires
        w <= 16,
        start + w <= bits_of(*bv).len(),
        start + w <= usize::MAX,
    ensures
        r == bits_value(bits_of(*bv).subrange(start as int, start + w)),
{
    let ghost s = bits_of(*bv);
    let mut v: u32 = 0;
    let mut i: usize = 0;
    while i < w
        invariant
            s == bits_of(*bv),
            w <= 16,
            start + w <= s.len(),
            start + w <= usize::MAX,
            i <= w,
            v == bits_value(s.subrange(start as int, start + i)),
        decreases w - i,
    {
        proof {
            lemma_bits_value_bound(s.subrange(start as int, start + i));
            assert(two_pow(i as nat) <= two_pow(15)) by {
                lemma_two_pow_mono(i as nat, 15);
            }
            reveal_with_fuel(two_pow, 16);
            let t = s.subrange(start as int, start + i + 1);
            assert(t.drop_last() =~= s.subrange(start as int, start + i));
        }
        let bit = match bits_get(bv, start + i) {
            Some(b) => b,
            None => false,
        };
        v = 2 * v + if bit {
            1
        } else {
            0
        };
        i += 1;
    }
    v
}

pub(crate) proof fn lemma_two_pow_mono(a: nat, b: nat)
    requires
        a <= b,
    ensures
        two_pow(a) <= two_pow(b),
    decreases b,
{
    if a < b {
        lemma_two_pow_mono(a, (b - 1) as nat);
    }
}

impl SerializedBits for u8 {
    open spec fn value(&self) -> nat {
        *self as nat
    }

    open spec fn width() -> nat {
        8
    }

    open spec fn from_value(v: nat) -> u8 {
        v as u8
    }

    fn bitlen() -> (r: usize) {
        8
    }

    fn index(&self) -> (r: usize) {
        *self as usize
    }

    fn from_index(i: usize) -> (r: u8) {
        i as u8
    }

    fn serialize_to_bits(&self) -> (r: BitVec) {
        let mut bv = bits_new();
        push_value_bits(&mut bv, *self as u32, 8);
        proof {
            assert(bits_of(bv) =~= value_bits(*self as nat, 8));
        }
        bv
    }

    fn serialize_from_bits(bv: &BitVec) -> (r: u8) {
        proof {
            assert(bits_of(*bv).subrange(0, 8) =~= bits_of(*bv));
            lemma_bits_value_bound(bits_of(*bv));
            reveal_with_fuel(two_pow, 9);
        }
        read_value(bv, 0, 8) as u8
    }

    proof fn lemma_symbol(a: u8, v: nat) {
        reveal_with_fuel(two_pow, 9);
    }
}

impl SerializedBits for u16 {
    open spec fn value(&self) -> nat {
        *self as nat
    }

    open spec fn width() -> nat {
        16
    }

    open spec fn from_value(v: nat) -> u16 {
        v as u16
    }

    fn bitlen() -> (r: usize) {
        16
    }

    fn index(&self) -> (r: usize) {
        *self as usize
    }

    fn from_index(i: usize) -> (r: u16) {
        i as u16
    }

    fn serialize_to_bits(&self) -> (r: BitVec) {
        let mut bv = bits_new();
        push_value_bits(&mut bv, *self as u32, 16);
        proof {
            assert(bits_of(bv) =~= value_bits(*self as nat, 16));
        }
        bv
    }

    fn serialize_from_bits(bv: &BitVec) -> (r: u16) {
        proof {
            assert(bits_of(*bv).subrange(0, 16) =~= bits_of(*bv));
            lemma_bits_value_bound(bits_of(*bv));
            reveal_with_fuel(two_pow, 17);
        }
        read_value(bv, 0, 16) as u16
    }

    proof fn lemma_symbol(a: u16, v: nat) {
        reveal_with_fuel(two_pow, 17);
    }
}

/// `2^w` for a symbol width `w`.
pub(crate) fn symbol_count(w: usize) -> (r: usize)
    requires
        w <= 16,
    ensures
        r == two_pow(w as nat),
{
    let mut size: usize = 1;
    let mut i: usize = 0;
    while i < w
        invariant
            i <= w <= 16,
            size == two_pow(i as nat),
        decreases w - i,
    {
        proof {
            lemma_two_pow_mono(i as nat, 15);
            reveal_with_fuel(two_pow, 16);
        }
        size = size * 2;
        i += 1;
    }
    size
}

} // verus!
