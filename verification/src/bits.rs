//! Conversions between unsigned integers and arrays of their low bits.

use vstd::prelude::*;
use vstd::arithmetic::power2::{pow2, lemma_pow2_unfold, lemma_pow2_pos};
use vstd::arithmetic::div_mod::{lemma_div_denominator, lemma_mod_breakdown};

verus! {

/// Bit `i` of `v`.
pub open spec fn bit_of(v: nat, i: nat) -> bool {
    (v / pow2(i)) % 2 == 1
}

/// The number whose bit `i` is `a[i]`.
pub open spec fn bits_value(a: Seq<bool>) -> nat
    decreases a.len(),
{
    if a.len() == 0 {
        0
    } else {
        (if a[0] { 1nat } else { 0nat }) + 2 * bits_value(a.drop_first())
    }
}

/// An unsigned integer type, seen as a number of `spec_bits` bits.
pub trait Integer: Copy + Sized {
    spec fn spec_bits() -> nat;

    spec fn spec_value(&self) -> nat;

    fn bits() -> (r: u32)
        ensures
            r == Self::spec_bits(),
    ;

    fn zero() -> (r: Self)
        ensures
            r.spec_value() == 0,
    ;

    /// Bit `i` of the value.
    fn bit(self, i: u32) -> (r: bool)
        requires
            i < Self::spec_bits(),
        ensures
            r == bit_of(self.spec_value(), i as nat),
    ;

    /// The value doubled, plus one if `b`.
    fn double_plus(self, b: bool) -> (r: Self)
        requires
            2 * self.spec_value() + 1 < pow2(Self::spec_bits()),
        ensures
            r.spec_value() == 2 * self.spec_value() + (if b { 1nat } else { 0nat }),
    ;

    proof fn lemma_value_bound(self)
        ensures
            self.spec_value() < pow2(Self::spec_bits()),
    ;

    proof fn lemma_bits_bound()
        ensures
            Self::spec_bits() <= 64,
    ;
}

impl Integer for u8 {
    open spec fn spec_bits() -> nat {
        8
    }

    open spec fn spec_value(&self) -> nat {
        *self as nat
    }

    fn bits() -> (r: u32) {
        8
    }

    fn zero() -> (r: Self) {
        0
    }

    fn bit(self, i: u32) -> (r: bool) {
        let s = self >> (i as u8);
        proof {
            vstd::bits::lemma_u8_shr_is_div(self, i as u8);
        }
        s % 2 == 1
    }

    fn double_plus(self, b: bool) -> (r: Self) {
        proof {
            vstd::arithmetic::power2::lemma2_to64();
        }
        self * 2 + (if b { 1 } else { 0 })
    }

    proof fn lemma_bits_bound() {
    }

    proof fn lemma_value_bound(self) {
        vstd::arithmetic::power2::lemma2_to64();
    }
}

impl Integer for u16 {
    open spec fn spec_bits() -> nat {
        16
    }

    open spec fn spec_value(&self) -> nat {
        *self as nat
    }

    fn bits() -> (r: u32) {
        16
    }

    fn zero() -> (r: Self) {
        0
    }

    fn bit(self, i: u32) -> (r: bool) {
        let s = self >> (i as u16);
        proof {
            vstd::bits::lemma_u16_shr_is_div(self, i as u16);
        }
        s % 2 == 1
    }

    fn double_plus(self, b: bool) -> (r: Self) {
        proof {
            vstd::arithmetic::power2::lemma2_to64();
        }
        self * 2 + (if b { 1 } else { 0 })
    }

    proof fn lemma_bits_bound() {
    }

    proof fn lemma_value_bound(self) {
        vstd::arithmetic::power2::lemma2_to64();
    }
}

impl Integer for u32 {
    open spec fn spec_bits() -> nat {
        32
    }

    open spec fn spec_value(&self) -> nat {
        *self as nat
    }

    fn bits() -> (r: u32) {
        32
    }

    fn zero() -> (r: Self) {
        0
    }

    fn bit(self, i: u32) -> (r: bool) {
        let s = self >> i;
        proof {
            vstd::bits::lemma_u32_shr_is_div(self, i);
        }
        s % 2 == 1
    }

    fn double_plus(self, b: bool) -> (r: Self) {
        proof {
            vstd::arithmetic::power2::lemma2_to64();
        }
        self * 2 + (if b { 1 } else { 0 })
    }

    proof fn lemma_bits_bound() {
    }

    proof fn lemma_value_bound(self) {
        vstd::arithmetic::power2::lemma2_to64();
    }
}

impl Integer for u64 {
    open spec fn spec_bits() -> nat {
        64
    }

    open spec fn spec_value(&self) -> nat {
        *self as nat
    }

    fn bits() -> (r: u32) {
        64
    }

    fn zero() -> (r: Self) {
        0
    }

    fn bit(self, i: u32) -> (r: bool) {
        let s = self >> (i as u64);
        proof {
            vstd::bits::lemma_u64_shr_is_div(self, i as u64);
        }
        s % 2 == 1
    }

    fn double_plus(self, b: bool) -> (r: Self) {
        proof {
            vstd::arithmetic::power2::lemma2_to64();
            vstd::arithmetic::power2::lemma2_to64_rest();
        }
        self * 2 + (if b { 1 } else { 0 })
    }

    proof fn lemma_bits_bound() {
    }

    proof fn lemma_value_bound(self) {
        vstd::arithmetic::power2::lemma2_to64();
        vstd::arithmetic::power2::lemma2_to64_rest();
    }
}

/// The low `N` bits of `v`, bit `i` at position `i`.
pub fn integer_to_bit_array<const N: usize, I: Integer>(v: I) -> (r: [bool; N])
    requires
        N <= I::spec_bits(),
    ensures
        forall|i: int| 0 <= i < N ==> #[trigger] r@[i] == bit_of(v.spec_value(), i as nat),
{
    proof {
        I::lemma_bits_bound();
    }
    let mut out = [false; N];
    let mut i: usize = 0;
    while i < N
        invariant
            N <= I::spec_bits(),
            I::spec_bits() <= 64,
            i <= N,
            out@.len() == N,
            forall|j: int| 0 <= j < i ==> #[trigger] out@[j] == bit_of(v.spec_value(), j as nat),
        decreases N - i,
    {
        out[i] = v.bit(i as u32);
        i = i + 1;
    }
    out
}

/// The number whose bit `i` is `bit_array[i]`.
pub fn bit_array_to_integer<const N: usize, I: Integer>(bit_array: [bool; N]) -> (r: I)
    requires
        N <= I::spec_bits(),
    ensures
        r.spec_value() == bits_value(bit_array@),
{
    let mut acc = I::zero();
    let mut i: usize = N;
    proof {
        vstd::arithmetic::power2::lemma2_to64();
        assert(bit_array@.skip(N as int) =~= Seq::<bool>::empty());
    }
    while i > 0
        invariant
            N <= I::spec_bits(),
            i <= N,
            bit_array@.len() == N,
            acc.spec_value() == bits_value(bit_array@.skip(i as int)),
            acc.spec_value() < pow2((N - i) as nat),
        decreases i,
    {
        proof {
            let rest = bit_array@.skip(i - 1);
            assert(rest.drop_first() =~= bit_array@.skip(i as int));
            assert(rest[0] == bit_array@[i - 1]);
            lemma_pow2_unfold((N - i + 1) as nat);
            if ((N - i + 1) as nat) < I::spec_bits() {
                vstd::arithmetic::power2::lemma_pow2_strictly_increases((N - i + 1) as nat, I::spec_bits());
            }
        }
        acc = acc.double_plus(bit_array[i - 1]);
        i = i - 1;
    }
    proof {
        assert(bit_array@.skip(0) =~= bit_array@);
    }
    acc
}

/// The bits of `v`, `n` of them.
pub open spec fn bits_of(v: nat, n: nat) -> Seq<bool> {
    Seq::new(n, |i: int| bit_of(v, i as nat))
}

/// Reading back the low `n` bits of `v` gives `v` modulo `2^n`.
pub proof fn lemma_bits_roundtrip(v: nat, n: nat)
    ensures
        bits_value(bits_of(v, n)) == v % pow2(n),
    decreases n,
{
    if n == 0 {
        vstd::arithmetic::power2::lemma2_to64();
    } else {
        lemma_bits_roundtrip(v / 2, (n - 1) as nat);
        let s = bits_of(v, n);
        assert forall|i: int| 0 <= i < n - 1 implies #[trigger] s.drop_first()[i] == bits_of(v / 2, (n - 1) as nat)[i] by {
            lemma_pow2_pos(i as nat);
            lemma_pow2_unfold((i + 1) as nat);
            lemma_div_denominator(v as int, 2, pow2(i as nat) as int);
        }
        assert(s.drop_first() =~= bits_of(v / 2, (n - 1) as nat));
        vstd::arithmetic::power2::lemma2_to64();
        assert(s[0] == (v % 2 == 1));
        lemma_pow2_unfold(n);
        lemma_pow2_pos((n - 1) as nat);
        lemma_mod_breakdown(v as int, 2, pow2((n - 1) as nat) as int);
    }
}

/// Converting an integer to its low `N` bits and back keeps exactly those bits.
pub proof fn lemma_integer_bit_array_roundtrip<I: Integer>(v: I, n: nat)
    ensures
        bits_value(bits_of(v.spec_value(), n)) == v.spec_value() % pow2(n),
{
    lemma_bits_roundtrip(v.spec_value(), n);
}

} // verus!
