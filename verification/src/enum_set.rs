//! A set of the variants of a small enum, stored as one bit per variant in a
//! byte.
use std::marker::PhantomData;
use vstd::prelude::*;

use crate::grid::{Axis, CardinalDirection, Sign};

verus! {

/// Whether bit `i` of `x` is set (for `i < 8`).
pub open spec fn has_bit(x: u8, i: u8) -> bool {
    (x >> i) & 1u8 == 1u8
}

/// The mask of the lowest `n` bits, `1 <= n <= 8`.
pub open spec fn low_mask(n: nat) -> u8 {
    (0xffu8 >> ((8 - n) as u8))
}

/// The number of set bits among the lowest `n` bits of `x`.
pub open spec fn bit_count(x: u8, n: nat) -> nat
    decreases n,
{
    if n == 0 {
        0
    } else {
        bit_count(x, (n - 1) as nat) + if has_bit(x, (n - 1) as u8) { 1nat } else { 0nat }
    }
}

/// An enum whose variants are numbered `0..count`, with at most eight of them.
pub trait SetEnum: Sized + Copy {
    spec fn index_spec(self) -> nat;

    spec fn count_spec() -> nat;

    proof fn lemma_count()
        ensures
            1 <= Self::count_spec() <= 8,
    ;

    proof fn lemma_index_bound(e: Self)
        ensures
            e.index_spec() < Self::count_spec(),
    ;

    proof fn lemma_index_injective(a: Self, b: Self)
        ensures
            a.index_spec() == b.index_spec() ==> a == b,
    ;

    proof fn lemma_surjective(i: nat)
        requires
            i < Self::count_spec(),
        ensures
            exists|e: Self| e.index_spec() == i,
    ;

    fn variant_count() -> (c: u32)
        ensures
            c == Self::count_spec(),
    ;

    fn into_index(self) -> (i: u32)
        ensures
            i == self.index_spec(),
    ;

    fn from_index(i: u32) -> (e: Self)
        requires
            i < Self::count_spec(),
        ensures
            e.index_spec() == i,
    ;
}

proof fn lemma_bit_ops(a: u8, b: u8, i: u8) by (bit_vector)
    requires
        i < 8,
    ensures
        has_bit(a & b, i) == (has_bit(a, i) && has_bit(b, i)),
        has_bit(a | b, i) == (has_bit(a, i) || has_bit(b, i)),
        has_bit(a & !b, i) == (has_bit(a, i) && !has_bit(b, i)),
{
}

proof fn lemma_mask_bits(a: u8, c: u8, s: u8, i: u8) by (bit_vector)
    requires
        1 <= c <= 8,
        s == 8 - c,
        i < 8,
    ensures
        has_bit(0xffu8 >> s, i) == (i < c),
        has_bit(a ^ (0xffu8 >> s), i) == (has_bit(a, i) != (i < c)),
        (a & !(0xffu8 >> s) == 0 && has_bit(a, i)) ==> i < c,
        has_bit(a & (0xffu8 >> s), i) == (has_bit(a, i) && i < c),
{
}

proof fn lemma_mask_closed(a: u8, b: u8, c: u8, s: u8) by (bit_vector)
    requires
        1 <= c <= 8,
        s == 8 - c,
    ensures
        (a & (0xffu8 >> s)) & !(0xffu8 >> s) == 0,
        (a & !(0xffu8 >> s) == 0 && b & !(0xffu8 >> s) == 0) ==> (a | b) & !(0xffu8 >> s) == 0,
        (a & !(0xffu8 >> s) == 0) ==> (a & b) & !(0xffu8 >> s) == 0,
        (a & !(0xffu8 >> s) == 0) ==> (a & !b) & !(0xffu8 >> s) == 0,
        (a & !(0xffu8 >> s) == 0) ==> (a ^ (0xffu8 >> s)) & !(0xffu8 >> s) == 0,
        (0xffu8 >> s) & !(0xffu8 >> s) == 0,
        0u8 & !(0xffu8 >> s) == 0,
{
}

proof fn lemma_single_bit(k: u8, c: u8, s: u8, i: u8) by (bit_vector)
    requires
        k < c,
        1 <= c <= 8,
        s == 8 - c,
        i < 8,
    ensures
        has_bit(1u8 << k, i) == (i == k),
        (1u8 << k) & !(0xffu8 >> s) == 0,
{
}

proof fn lemma_no_bits(a: u8) by (bit_vector)
    ensures
        has_bit(a, 0) || has_bit(a, 1) || has_bit(a, 2) || has_bit(a, 3) || has_bit(a, 4)
            || has_bit(a, 5) || has_bit(a, 6) || has_bit(a, 7) || a == 0,
        !has_bit(0, 0) && !has_bit(0, 1) && !has_bit(0, 2) && !has_bit(0, 3) && !has_bit(0, 4)
            && !has_bit(0, 5) && !has_bit(0, 6) && !has_bit(0, 7),
{
}

proof fn lemma_zero_bit(i: u8) by (bit_vector)
    ensures
        !has_bit(0u8, i),
{
}

proof fn lemma_bits_ext(a: u8, b: u8) by (bit_vector)
    requires
        has_bit(a, 0) == has_bit(b, 0),
        has_bit(a, 1) == has_bit(b, 1),
        has_bit(a, 2) == has_bit(b, 2),
        has_bit(a, 3) == has_bit(b, 3),
        has_bit(a, 4) == has_bit(b, 4),
        has_bit(a, 5) == has_bit(b, 5),
        has_bit(a, 6) == has_bit(b, 6),
        has_bit(a, 7) == has_bit(b, 7),
    ensures
        a == b,
{
}

/// Bits that agree below eight are the same byte.
proof fn lemma_bits_agree(a: u8, b: u8)
    requires
        forall|i: u8| i < 8 ==> has_bit(a, i) == has_bit(b, i),
    ensures
        a == b,
{
    assert(has_bit(a, 0) == has_bit(b, 0));
    assert(has_bit(a, 1) == has_bit(b, 1));
    assert(has_bit(a, 2) == has_bit(b, 2));
    assert(has_bit(a, 3) == has_bit(b, 3));
    assert(has_bit(a, 4) == has_bit(b, 4));
    assert(has_bit(a, 5) == has_bit(b, 5));
    assert(has_bit(a, 6) == has_bit(b, 6));
    assert(has_bit(a, 7) == has_bit(b, 7));
    lemma_bits_ext(a, b);
}

/// A set of variants of `E`.
pub struct EnumSet<E: SetEnum> {
    inner: u8,
    marker: PhantomData<E>,
}

impl<E: SetEnum> View for EnumSet<E> {
    type V = Set<E>;

    closed spec fn view(&self) -> Set<E> {
        Set::new(|e: E| has_bit(self.inner, e.index_spec() as u8))
    }
}

impl<E: SetEnum> EnumSet<E> {
    #[verifier::type_invariant]
    spec fn only_variant_bits(self) -> bool {
        self.inner & !low_mask(E::count_spec()) == 0
    }

    /// The byte that stores the set: bit `i` is set iff variant `i` is in it.
    pub closed spec fn bits(self) -> u8 {
        self.inner
    }

    /// A bit of the set's byte is set only for a variant in the set.
    proof fn lemma_bit_of_member(self, i: u8)
        requires
            i < 8,
            has_bit(self.inner, i),
            self.inner & !low_mask(E::count_spec()) == 0,
        ensures
            (i as nat) < E::count_spec(),
            exists|e: E| e.index_spec() == i && #[trigger] self@.contains(e),
    {
        E::lemma_count();
        let c = E::count_spec() as u8;
        lemma_mask_bits(self.inner, c, (8 - c) as u8, i);
        E::lemma_surjective(i as nat);
        let e = choose|e: E| e.index_spec() == i;
        assert(self@.contains(e));
    }

    /// Two sets with the same members have the same byte.
    proof fn lemma_view_eq(self, other: Self)
        requires
            self@ == other@,
            self.inner & !low_mask(E::count_spec()) == 0,
            other.inner & !low_mask(E::count_spec()) == 0,
        ensures
            self.inner == other.inner,
    {
        E::lemma_count();
        let c = E::count_spec() as u8;
        assert forall|i: u8| i < 8 implies has_bit(self.inner, i) == has_bit(other.inner, i) by {
            if has_bit(self.inner, i) {
                self.lemma_bit_of_member(i);
                let e = choose|e: E| e.index_spec() == i && #[trigger] self@.contains(e);
                assert(other@.contains(e));
            }
            if has_bit(other.inner, i) {
                other.lemma_bit_of_member(i);
                let e = choose|e: E| e.index_spec() == i && #[trigger] other@.contains(e);
                assert(self@.contains(e));
            }
        }
        lemma_bits_agree(self.inner, other.inner);
    }

    fn mask() -> (m: u8)
        ensures
            m == low_mask(E::count_spec()),
    {
        proof {
            E::lemma_count();
        }
        let c = E::variant_count();
        0xffu8 >> ((8 - c) as u8)
    }

    /// The empty set.
    pub fn empty() -> (r: Self)
        ensures
            r@ == Set::<E>::empty(),
    {
        proof {
            E::lemma_count();
            let c = E::count_spec() as u8;
            lemma_mask_closed(0, 0, c, (8 - c) as u8);
            lemma_no_bits(0);
        }
        let r = EnumSet { inner: 0, marker: PhantomData };
        proof {
            assert forall|e: E| !r@.contains(e) by {
                E::lemma_index_bound(e);
            }
            assert(r@ =~= Set::<E>::empty());
        }
        r
    }

    /// The set of every variant.
    pub fn all() -> (r: Self)
        ensures
            r@ == Set::<E>::full(),
    {
        let m = Self::mask();
        proof {
            E::lemma_count();
            let c = E::count_spec() as u8;
            lemma_mask_closed(m, m, c, (8 - c) as u8);
        }
        let r = EnumSet { inner: m, marker: PhantomData };
        proof {
            let c = E::count_spec() as u8;
            assert forall|e: E| r@.contains(e) by {
                E::lemma_index_bound(e);
                lemma_mask_bits(m, c, (8 - c) as u8, e.index_spec() as u8);
            }
            assert(r@ =~= Set::<E>::full());
        }
        r
    }

    /// The set of the variants whose bit is set in `bits`; other bits are
    /// dropped.
    pub fn from_bits(bits: u8) -> (r: Self)
        ensures
            r.bits() == bits & low_mask(E::count_spec()),
            forall|e: E| #[trigger] r@.contains(e) == has_bit(bits, e.index_spec() as u8),
    {
        let m = Self::mask();
        proof {
            E::lemma_count();
            let c = E::count_spec() as u8;
            lemma_mask_closed(bits, bits, c, (8 - c) as u8);
        }
        let r = EnumSet { inner: bits & m, marker: PhantomData };
        proof {
            let c = E::count_spec() as u8;
            assert forall|e: E| #[trigger] r@.contains(e) == has_bit(bits, e.index_spec() as u8) by {
                E::lemma_index_bound(e);
                lemma_mask_bits(bits, c, (8 - c) as u8, e.index_spec() as u8);
            }
        }
        r
    }

    /// The byte of the set.
    pub fn into_bits(self) -> (r: u8)
        ensures
            r == self.bits(),
            r & !low_mask(E::count_spec()) == 0,
            forall|e: E| #[trigger] self@.contains(e) == has_bit(r, e.index_spec() as u8),
    {
        proof {
            use_type_invariant(&self);
        }
        self.inner
    }

    /// The members whose variant number is below `k`.
    spec fn members_below(self, k: nat) -> Set<E> {
        Set::new(|e: E| e.index_spec() < k && has_bit(self.inner, e.index_spec() as u8))
    }

    /// The members numbered below `k` are as many as the set bits below `k`.
    proof fn lemma_members_below(self, k: nat)
        requires
            k <= E::count_spec(),
        ensures
            self.members_below(k).finite(),
            self.members_below(k).len() == bit_count(self.inner, k),
        decreases k,
    {
        E::lemma_count();
        if k == 0 {
            assert(self.members_below(0) =~= Set::<E>::empty());
        } else {
            let j = (k - 1) as nat;
            self.lemma_members_below(j);
            E::lemma_surjective(j);
            let e = choose|e: E| e.index_spec() == j;
            if has_bit(self.inner, j as u8) {
                assert forall|x: E| #[trigger] self.members_below(k).contains(x) == self.members_below(j).insert(e).contains(x) by {
                    if x.index_spec() == j {
                        E::lemma_index_injective(x, e);
                    }
                }
                assert(self.members_below(k) =~= self.members_below(j).insert(e));
                assert(!self.members_below(j).contains(e));
            } else {
                assert(self.members_below(k) =~= self.members_below(j));
            }
        }
    }

    /// No bit is set from the variant count up to `n`.
    proof fn lemma_count_upper_bits(self, n: nat)
        requires
            E::count_spec() <= n <= 8,
            self.inner & !low_mask(E::count_spec()) == 0,
        ensures
            bit_count(self.inner, n) == bit_count(self.inner, E::count_spec()),
        decreases n,
    {
        E::lemma_count();
        if n > E::count_spec() {
            let c = E::count_spec() as u8;
            lemma_mask_bits(self.inner, c, (8 - c) as u8, (n - 1) as u8);
            self.lemma_count_upper_bits((n - 1) as nat);
        }
    }

    /// The number of variants in the set.
    pub fn len(self) -> (r: usize)
        ensures
            r == bit_count(self.bits(), 8),
            self@.finite(),
            r == self@.len(),
    {
        proof {
            use_type_invariant(&self);
            E::lemma_count();
            self.lemma_members_below(E::count_spec());
            self.lemma_count_upper_bits(8);
            assert forall|e: E| #[trigger] self@.contains(e) == self.members_below(E::count_spec()).contains(e) by {
                E::lemma_index_bound(e);
            }
            assert(self@ =~= self.members_below(E::count_spec()));
        }
        let mut n: usize = 0;
        let mut i: u8 = 0;
        while i < 8
            invariant
                i <= 8,
                n == bit_count(self.inner, i as nat),
                n <= i,
            decreases 8 - i,
        {
            if (self.inner >> i) & 1u8 == 1u8 {
                n = n + 1;
            }
            i = i + 1;
        }
        n
    }

    pub fn is_empty(self) -> (r: bool)
        ensures
            r == (self@ == Set::<E>::empty()),
    {
        proof {
            use_type_invariant(&self);
        }
        let r = self.inner == 0;
        proof {
            lemma_no_bits(self.inner);
            if r {
                assert forall|e: E| !self@.contains(e) by {
                    lemma_zero_bit(e.index_spec() as u8);
                }
                assert(self@ =~= Set::<E>::empty());
            } else {
                assert(has_bit(self.inner, 0) || has_bit(self.inner, 1) || has_bit(self.inner, 2)
                    || has_bit(self.inner, 3) || has_bit(self.inner, 4) || has_bit(self.inner, 5)
                    || has_bit(self.inner, 6) || has_bit(self.inner, 7));
                let i: u8 = if has_bit(self.inner, 0) { 0 } else if has_bit(self.inner, 1) { 1 }
                    else if has_bit(self.inner, 2) { 2 } else if has_bit(self.inner, 3) { 3 }
                    else if has_bit(self.inner, 4) { 4 } else if has_bit(self.inner, 5) { 5 }
                    else if has_bit(self.inner, 6) { 6 } else { 7 };
                self.lemma_bit_of_member(i);
                let e = choose|e: E| e.index_spec() == i && #[trigger] self@.contains(e);
                assert(!Set::<E>::empty().contains(e));
            }
        }
        r
    }

    pub fn is_all(self) -> (r: bool)
        ensures
            r == (self@ == Set::<E>::full()),
    {
        proof {
            use_type_invariant(&self);
        }
        let all = Self::all();
        proof {
            use_type_invariant(&all);
        }
        let r = self.inner == all.inner;
        proof {
            if !r && self@ == Set::<E>::full() {
                self.lemma_view_eq(all);
            }
        }
        r
    }

    /// The variants that are not in the set.
    pub fn inverse(self) -> (r: Self)
        ensures
            r@ == self@.complement(),
    {
        proof {
            use_type_invariant(&self);
        }
        let m = Self::mask();
        proof {
            E::lemma_count();
            let c = E::count_spec() as u8;
            lemma_mask_closed(self.inner, self.inner, c, (8 - c) as u8);
        }
        let r = EnumSet { inner: self.inner ^ m, marker: PhantomData };
        proof {
            let c = E::count_spec() as u8;
            assert forall|e: E| #[trigger] r@.contains(e) == !self@.contains(e) by {
                E::lemma_index_bound(e);
                lemma_mask_bits(self.inner, c, (8 - c) as u8, e.index_spec() as u8);
            }
            assert(r@ =~= self@.complement());
        }
        r
    }

    pub fn intersection(self, rhs: Self) -> (r: Self)
        ensures
            r@ == self@.intersect(rhs@),
    {
        proof {
            use_type_invariant(&self);
            E::lemma_count();
            let c = E::count_spec() as u8;
            lemma_mask_closed(self.inner, rhs.inner, c, (8 - c) as u8);
        }
        let r = EnumSet { inner: self.inner & rhs.inner, marker: PhantomData };
        proof {
            assert forall|e: E| #[trigger] r@.contains(e) == (self@.contains(e) && rhs@.contains(e)) by {
                E::lemma_index_bound(e);
                lemma_bit_ops(self.inner, rhs.inner, e.index_spec() as u8);
            }
            assert(r@ =~= self@.intersect(rhs@));
        }
        r
    }

    pub fn union(self, rhs: Self) -> (r: Self)
        ensures
            r@ == self@.union(rhs@),
    {
        proof {
            use_type_invariant(&self);
            use_type_invariant(&rhs);
            E::lemma_count();
            let c = E::count_spec() as u8;
            lemma_mask_closed(self.inner, rhs.inner, c, (8 - c) as u8);
        }
        let r = EnumSet { inner: self.inner | rhs.inner, marker: PhantomData };
        proof {
            assert forall|e: E| #[trigger] r@.contains(e) == (self@.contains(e) || rhs@.contains(e)) by {
                E::lemma_index_bound(e);
                lemma_bit_ops(self.inner, rhs.inner, e.index_spec() as u8);
            }
            assert(r@ =~= self@.union(rhs@));
        }
        r
    }

    pub fn difference(self, rhs: Self) -> (r: Self)
        ensures
            r@ == self@.difference(rhs@),
    {
        proof {
            use_type_invariant(&self);
            E::lemma_count();
            let c = E::count_spec() as u8;
            lemma_mask_closed(self.inner, rhs.inner, c, (8 - c) as u8);
        }
        let r = EnumSet { inner: self.inner & !rhs.inner, marker: PhantomData };
        proof {
            assert forall|e: E| #[trigger] r@.contains(e) == (self@.contains(e) && !rhs@.contains(e)) by {
                E::lemma_index_bound(e);
                lemma_bit_ops(self.inner, rhs.inner, e.index_spec() as u8);
            }
            assert(r@ =~= self@.difference(rhs@));
        }
        r
    }

    /// Whether `rhs` contains all elements of `self`.
    pub fn is_subset(self, rhs: Self) -> (r: bool)
        ensures
            r == self@.subset_of(rhs@),
    {
        let i = rhs.intersection(self);
        proof {
            use_type_invariant(&self);
            use_type_invariant(&i);
        }
        let r = i.inner == self.inner;
        proof {
            if r {
                assert(self@ =~= i@);
            } else if self@.subset_of(rhs@) {
                assert(i@ =~= self@);
                i.lemma_view_eq(self);
            }
        }
        r
    }

    /// Whether `self` contains all elements of `rhs`.
    pub fn is_superset(self, rhs: Self) -> (r: bool)
        ensures
            r == rhs@.subset_of(self@),
    {
        rhs.is_subset(self)
    }

    fn single(value: E) -> (r: Self)
        ensures
            r@ == Set::<E>::empty().insert(value),
    {
        let k = value.into_index();
        proof {
            E::lemma_count();
            E::lemma_index_bound(value);
        }
        let bit: u8 = 1u8 << (k as u8);
        proof {
            let c = E::count_spec() as u8;
            lemma_single_bit(k as u8, c, (8 - c) as u8, 0);
        }
        let r = EnumSet { inner: bit, marker: PhantomData };
        proof {
            let c = E::count_spec() as u8;
            assert forall|e: E| #[trigger] r@.contains(e) == (e == value) by {
                E::lemma_index_bound(e);
                lemma_single_bit(k as u8, c, (8 - c) as u8, e.index_spec() as u8);
                E::lemma_index_injective(e, value);
            }
            assert(r@ =~= Set::<E>::empty().insert(value));
        }
        r
    }

    /// The set with `value` added.
    pub fn with(self, value: E) -> (r: Self)
        ensures
            r@ == self@.insert(value),
    {
        let r = self.union(Self::single(value));
        proof {
            assert(r@ =~= self@.insert(value));
        }
        r
    }

    pub fn insert(&mut self, value: E)
        ensures
            final(self)@ == old(self)@.insert(value),
    {
        *self = self.with(value);
    }

    /// The set with `value` taken out.
    pub fn without(self, value: E) -> (r: Self)
        ensures
            r@ == self@.remove(value),
    {
        let r = self.difference(Self::empty().with(value));
        proof {
            assert(r@ =~= self@.remove(value));
        }
        r
    }

    /// Takes `value` out of the set.
    pub fn remove(&mut self, value: E)
        ensures
            final(self)@ == old(self)@.remove(value),
    {
        *self = self.without(value);
    }

    pub fn contains(self, value: E) -> (r: bool)
        ensures
            r == self@.contains(value),
    {
        let r = !self.intersection(Self::empty().with(value)).is_empty();
        proof {
            if self@.contains(value) {
                assert(self@.intersect(Set::<E>::empty().insert(value)).contains(value));
            } else {
                assert(self@.intersect(Set::<E>::empty().insert(value)) =~= Set::<E>::empty());
            }
        }
        r
    }

    pub fn clear(&mut self)
        ensures
            final(self)@ == Set::<E>::empty(),
    {
        *self = Self::empty();
    }

    /// The members of the set, in the order of their variants.
    pub fn iter(self) -> (r: Vec<E>)
        ensures
            forall|i: int, j: int| 0 <= i < j < r.len() ==> r@[i].index_spec() < r@[j].index_spec(),
            forall|e: E| self@.contains(e) <==> #[trigger] r@.contains(e),
    {
        proof {
            use_type_invariant(&self);
            E::lemma_count();
        }
        let c = E::variant_count();
        let mut r: Vec<E> = Vec::new();
        let mut i: u32 = 0;
        while i < c
            invariant
                i <= c,
                c == E::count_spec(),
                1 <= c <= 8,
                forall|k: int| 0 <= k < r.len() ==> r@[k].index_spec() < i,
                forall|k: int, l: int| 0 <= k < l < r.len() ==> r@[k].index_spec() < r@[l].index_spec(),
                forall|e: E| e.index_spec() < i ==> (self@.contains(e) <==> #[trigger] r@.contains(e)),
                forall|e: E| #[trigger] r@.contains(e) ==> e.index_spec() < i,
            decreases c - i,
        {
            let ghost old_r = r@;
            if (self.inner >> (i as u8)) & 1u8 == 1u8 {
                let e = E::from_index(i);
                r.push(e);
                proof {
                    assert forall|x: E| x.index_spec() < i + 1 implies (self@.contains(x) <==> #[trigger] r@.contains(x)) by {
                        if x.index_spec() == i {
                            E::lemma_index_injective(x, e);
                            assert(r@[r.len() - 1] == e);
                        } else {
                            if r@.contains(x) && x != e {
                                let k = choose|k: int| 0 <= k < r.len() && r@[k] == x;
                                assert(old_r[k] == x);
                            }
                            if old_r.contains(x) {
                                let k = choose|k: int| 0 <= k < old_r.len() && old_r[k] == x;
                                assert(r@[k] == x);
                            }
                        }
                    }
                    assert forall|x: E| #[trigger] r@.contains(x) implies x.index_spec() < i + 1 by {
                        let k = choose|k: int| 0 <= k < r.len() && r@[k] == x;
                        if k < old_r.len() {
                            assert(old_r[k] == x);
                            assert(old_r.contains(x));
                        }
                    }
                }
            } else {
                proof {
                    assert forall|x: E| x.index_spec() < i + 1 implies (self@.contains(x) <==> #[trigger] r@.contains(x)) by {
                        if x.index_spec() == i {
                            assert(!self@.contains(x));
                        }
                    }
                }
            }
            i = i + 1;
        }
        proof {
            assert forall|e: E| self@.contains(e) <==> #[trigger] r@.contains(e) by {
                E::lemma_index_bound(e);
            }
        }
        r
    }
}

impl<E: SetEnum> Clone for EnumSet<E> {
    fn clone(&self) -> (r: Self)
        ensures
            r@ == self@,
    {
        proof {
            use_type_invariant(self);
        }
        EnumSet { inner: self.inner, marker: PhantomData }
    }
}

impl<E: SetEnum> Copy for EnumSet<E> {}

impl<E: SetEnum> Default for EnumSet<E> {
    fn default() -> (r: Self)
        ensures
            r@ == Set::<E>::empty(),
    {
        Self::empty()
    }
}

impl<E: SetEnum> PartialEq for EnumSet<E> {
    fn eq(&self, other: &Self) -> (r: bool) {
        proof {
            use_type_invariant(self);
            use_type_invariant(other);
            if self@ == other@ {
                self.lemma_view_eq(*other);
            }
        }
        self.inner == other.inner
    }
}

impl<E: SetEnum> vstd::std_specs::cmp::PartialEqSpecImpl for EnumSet<E> {
    open spec fn obeys_eq_spec() -> bool {
        true
    }

    open spec fn eq_spec(&self, other: &Self) -> bool {
        self@ == other@
    }
}

impl<E: SetEnum> Eq for EnumSet<E> {}

impl SetEnum for Axis {
    open spec fn index_spec(self) -> nat {
        match self {
            Axis::X => 0,
            Axis::Y => 1,
            Axis::Z => 2,
        }
    }

    open spec fn count_spec() -> nat {
        3
    }

    proof fn lemma_count() {
    }

    proof fn lemma_index_bound(e: Self) {
    }

    proof fn lemma_index_injective(a: Self, b: Self) {
    }

    proof fn lemma_surjective(i: nat) {
        if i == 0 {
            assert(Axis::X.index_spec() == i);
        } else if i == 1 {
            assert(Axis::Y.index_spec() == i);
        } else {
            assert(Axis::Z.index_spec() == i);
        }
    }

    fn variant_count() -> (c: u32) {
        3
    }

    fn into_index(self) -> (i: u32) {
        match self {
            Axis::X => 0,
            Axis::Y => 1,
            Axis::Z => 2,
        }
    }

    fn from_index(i: u32) -> (e: Self) {
        if i == 0 {
            Axis::X
        } else if i == 1 {
            Axis::Y
        } else {
            Axis::Z
        }
    }
}

impl SetEnum for CardinalDirection {
    open spec fn index_spec(self) -> nat {
        2 * self.axis.index_spec() + match self.sign {
            Sign::Positive => 0nat,
            Sign::Negative => 1nat,
        }
    }

    open spec fn count_spec() -> nat {
        6
    }

    proof fn lemma_count() {
    }

    proof fn lemma_index_bound(e: Self) {
    }

    proof fn lemma_index_injective(a: Self, b: Self) {
    }

    proof fn lemma_surjective(i: nat) {
        let axis = axis_at(i / 2);
        let sign = if i % 2 == 0 { Sign::Positive } else { Sign::Negative };
        assert((CardinalDirection { sign, axis }).index_spec() == i);
    }

    fn variant_count() -> (c: u32) {
        6
    }

    fn into_index(self) -> (i: u32) {
        let r = self.into_usize();
        proof {
            assert(r == 0 || r == 1 || r == 2 || r == 3 || r == 4 || r == 5);
        }
        r as u32
    }

    fn from_index(i: u32) -> (e: Self) {
        let axis = Axis::from_index(i / 2);
        let sign = if i % 2 == 0 { Sign::Positive } else { Sign::Negative };
        CardinalDirection { sign, axis }
    }
}

spec fn axis_at(i: nat) -> Axis {
        if i == 0 {
            Axis::X
        } else if i == 1 {
            Axis::Y
        } else {
            Axis::Z
    }
}

} // verus!
