use vstd::prelude::*;

verus! {

/// Whether bit `i` of `x` is set (for `i` below 128).
pub open spec fn bit_of(x: u128, i: usize) -> bool {
    i < 128 && (x >> (i as u128)) & 1u128 == 1u128
}

/// The number of set bits of `x` among its lowest `n` bits.
pub open spec fn ones_below(x: u128, n: nat) -> nat
    decreases n,
{
    if n == 0 {
        0
    } else {
        ones_below(x, (n - 1) as nat) + if bit_of(x, (n - 1) as usize) {
            1nat
        } else {
            0nat
        }
    }
}

/// The set of the bits of `x` below `n`.
pub open spec fn bits_below(x: u128, n: nat) -> Set<usize> {
    Set::new(|i: usize| i < n && bit_of(x, i))
}

/// The number of ones in the binary representation of `x`.
fn count_ones(x: u128) -> (r: u32)
    ensures
        r == ones_below(x, 128),
{
    let mut n: u32 = 0;
    let mut i: u128 = 0;
    while i < 128
        invariant
            i <= 128,
            n <= i,
            n == ones_below(x, i as nat),
        decreases 128 - i,
    {
        if (x >> i) & 1u128 == 1u128 {
            n = n + 1;
        }
        proof {
            assert(bit_of(x, i as usize) == ((x >> i) & 1u128 == 1u128));
        }
        i = i + 1;
    }
    n
}

/// The number of trailing zeros in the binary representation of `x` (128 for
/// zero): the lowest `r` bits are zero and, for a nonzero `x`, bit `r` is one.
fn trailing_zeros(x: u128) -> (r: u32)
    ensures
        r <= 128,
        (r == 128) == (x == 0),
        r < 128 ==> (x >> (r as u128)) & 1u128 == 1u128,
        r < 128 ==> x & (((1u128 << (r as u128)) - 1u128) as u128) == 0u128,
{
    let mut i: u128 = 0;
    proof {
        lemma_mask_zero(x);
    }
    while i < 128 && (x >> i) & 1u128 == 0u128
        invariant
            i <= 128,
            i < 128 ==> x & (((1u128 << i) - 1u128) as u128) == 0u128,
            i == 128 ==> x == 0u128,
        decreases 128 - i,
    {
        proof {
            if i < 127 {
                lemma_mask_step(x, i);
            } else {
                lemma_mask_last(x);
            }
        }
        i = i + 1;
    }
    proof {
        if i < 128 {
            lemma_bit_01(x, i);
            if x == 0 {
                lemma_bit_zero(i);
            }
        }
        assert((i as u32) as u128 == i);
    }
    i as u32
}

proof fn lemma_bit_and(a: u128, b: u128, i: u128)
    by (bit_vector)
    requires
        i < 128,
    ensures
        ((a & b) >> i) & 1u128 == 1u128 <==> ((a >> i) & 1u128 == 1u128 && (b >> i) & 1u128
            == 1u128),
{
}

proof fn lemma_bit_or(a: u128, b: u128, i: u128)
    by (bit_vector)
    requires
        i < 128,
    ensures
        ((a | b) >> i) & 1u128 == 1u128 <==> ((a >> i) & 1u128 == 1u128 || (b >> i) & 1u128
            == 1u128),
{
}

proof fn lemma_bit_xor(a: u128, b: u128, i: u128)
    by (bit_vector)
    requires
        i < 128,
    ensures
        ((a ^ b) >> i) & 1u128 == 1u128 <==> ((a >> i) & 1u128 == 1u128) != ((b >> i) & 1u128
            == 1u128),
{
}

proof fn lemma_bit_not(a: u128, i: u128)
    by (bit_vector)
    requires
        i < 128,
    ensures
        ((!a) >> i) & 1u128 == 1u128 <==> !((a >> i) & 1u128 == 1u128),
{
}

proof fn lemma_bit_single(k: u128, i: u128)
    by (bit_vector)
    requires
        i < 128,
        k < 128,
    ensures
        (((1u128 << k) >> i) & 1u128 == 1u128) == (i == k),
{
}

proof fn lemma_bit_zero(i: u128)
    by (bit_vector)
    requires
        i < 128,
    ensures
        (0u128 >> i) & 1u128 == 0u128,
{
}

proof fn lemma_clear_lowest(b: u128, t: u128, i: u128)
    by (bit_vector)
    requires
        t < 128,
        i < 128,
        (b >> t) & 1u128 == 1u128,
        b & (((1u128 << t) - 1u128) as u128) == 0u128,
    ensures
        ((b & ((b - 1u128) as u128)) >> i) & 1u128 == 1u128 <==> ((b >> i) & 1u128 == 1u128 && i != t),
        i < t ==> (b >> i) & 1u128 == 0u128,
        (b & ((b - 1u128) as u128)) < b,
{
}

proof fn lemma_ones_below(x: u128, n: nat)
    requires
        n <= 128,
    ensures
        bits_below(x, n).finite(),
        bits_below(x, n).len() == ones_below(x, n),
    decreases n,
{
    if n == 0 {
        assert(bits_below(x, 0) =~= Set::<usize>::empty());
    } else {
        let m = (n - 1) as nat;
        lemma_ones_below(x, m);
        let k = m as usize;
        if bit_of(x, k) {
            assert(bits_below(x, n) =~= bits_below(x, m).insert(k));
        } else {
            assert(bits_below(x, n) =~= bits_below(x, m));
        }
    }
}

proof fn lemma_bit_01(z: u128, i: u128)
    by (bit_vector)
    ensures
        (z >> i) & 1u128 == 0u128 || (z >> i) & 1u128 == 1u128,
{
}

proof fn lemma_mask_step(z: u128, n: u128)
    by (bit_vector)
    requires
        n < 127,
        z & (((1u128 << n) - 1u128) as u128) == 0u128,
        (z >> n) & 1u128 == 0u128,
    ensures
        z & (((1u128 << ((n + 1) as u128)) - 1u128) as u128) == 0u128,
{
}

proof fn lemma_mask_last(z: u128)
    by (bit_vector)
    requires
        z & (((1u128 << 127u128) - 1u128) as u128) == 0u128,
        (z >> 127u128) & 1u128 == 0u128,
    ensures
        z == 0u128,
{
}

proof fn lemma_mask_zero(z: u128)
    by (bit_vector)
    ensures
        z & (((1u128 << 0u128) - 1u128) as u128) == 0u128,
{
}

proof fn lemma_low_bits_zero(z: u128, n: u128)
    requires
        n <= 127,
        forall|i: usize| #[trigger] bit_of(z, i) ==> i >= n,
    ensures
        z & (((1u128 << n) - 1u128) as u128) == 0u128,
    decreases n,
{
    if n == 0 {
        lemma_mask_zero(z);
    } else {
        let m = (n - 1) as u128;
        lemma_low_bits_zero(z, m);
        assert(!bit_of(z, m as usize));
        lemma_bit_01(z, m);
        lemma_mask_step(z, m);
    }
}

/// A `u128` with no bit set is zero.
proof fn lemma_no_bits_zero(z: u128)
    requires
        forall|i: usize| !#[trigger] bit_of(z, i),
    ensures
        z == 0,
{
    lemma_low_bits_zero(z, 127);
    assert(!bit_of(z, 127));
    lemma_bit_01(z, 127);
    lemma_mask_last(z);
}

proof fn lemma_xor_zero(a: u128, b: u128)
    by (bit_vector)
    requires
        a ^ b == 0u128,
    ensures
        a == b,
{
}

/// A set of component ids below 128, stored as the bits of a `u128`.
#[derive(Copy, Clone, PartialEq, Eq, Structural, Hash)]
pub struct BitSet {
    pub(crate) id: u128,
}

impl View for BitSet {
    type V = Set<usize>;

    closed spec fn view(&self) -> Set<usize> {
        Set::new(|i: usize| bit_of(self.id, i))
    }
}

impl BitSet {
    /// Every member of the set is below 128, so the set is finite.
    pub proof fn lemma_bounded(self)
        ensures
            self@.finite(),
            forall|i: usize| #[trigger] self@.contains(i) ==> i < 128,
    {
        lemma_ones_below(self.id, 128);
        assert(self@ =~= bits_below(self.id, 128));
    }

    /// The set of the given component ids.
    pub fn from_component_ids(ids: &[usize]) -> (r: BitSet)
        requires
            forall|k: int| 0 <= k < ids@.len() ==> ids@[k] < 128,
        ensures
            forall|i: usize| #[trigger] r@.contains(i) <==> ids@.contains(i),
    {
        let mut res: u128 = 0;
        let mut j: usize = 0;
        proof {
            assert forall|i: usize| #[trigger]
                bit_of(res, i) <==> exists|k: int| 0 <= k < j && ids@[k] == i by {
                if i < 128 {
                    lemma_bit_zero(i as u128);
                }
            }
        }
        while j < ids.len()
            invariant
                j <= ids@.len(),
                forall|k: int| 0 <= k < ids@.len() ==> ids@[k] < 128,
                forall|i: usize| #[trigger]
                    bit_of(res, i) <==> exists|k: int| 0 <= k < j && ids@[k] == i,
            decreases ids@.len() - j,
        {
            let id = ids[j];
            let ghost old_res = res;
            res = res | (1u128 << (id as u128));
            proof {
                assert forall|i: usize| #[trigger]
                    bit_of(res, i) <==> exists|k: int| 0 <= k < j + 1 && ids@[k] == i by {
                    assert(bit_of(old_res, i) <==> exists|k: int| 0 <= k < j && ids@[k] == i);
                    if i < 128 {
                        lemma_bit_or(old_res, 1u128 << (id as u128), i as u128);
                        lemma_bit_single(id as u128, i as u128);
                    }
                    if exists|k: int| 0 <= k < j + 1 && ids@[k] == i {
                        let k = choose|k: int| 0 <= k < j + 1 && ids@[k] == i;
                        if k < j {
                            assert(exists|k: int| 0 <= k < j && ids@[k] == i);
                        }
                    }
                }
            }
            j = j + 1;
        }
        proof {
            assert forall|i: usize| #[trigger] bit_of(res, i) <==> ids@.contains(i) by {
                if ids@.contains(i) {
                    let k = choose|k: int| 0 <= k < ids@.len() && ids@[k] == i;
                    assert(exists|k: int| 0 <= k < j && ids@[k] == i);
                }
            }
        }
        BitSet { id: res }
    }

    /// The number of members of the set.
    pub fn count(&self) -> (r: usize)
        ensures
            self@.finite(),
            r == self@.len(),
    {
        proof {
            lemma_ones_below(self.id, 128);
            assert(self@ =~= bits_below(self.id, 128));
        }
        count_ones(self.id) as usize
    }

    /// An iterator over the members of the set, in increasing order.
    pub fn iter(self) -> (r: BitSetIterator)
        ensures
            r@ == self@,
    {
        BitSetIterator { bits: self.id }
    }

    /// Two sets with the same members are the same value.
    pub proof fn lemma_ext(a: BitSet, b: BitSet)
        requires
            a@ == b@,
        ensures
            a == b,
    {
        let z = a.id ^ b.id;
        assert forall|i: usize| !#[trigger] bit_of(z, i) by {
            if i < 128 {
                lemma_bit_xor(a.id, b.id, i as u128);
                assert(a@.contains(i) == b@.contains(i));
                assert(a@.contains(i) == bit_of(a.id, i));
                assert(b@.contains(i) == bit_of(b.id, i));
            }
        }
        lemma_no_bits_zero(z);
        lemma_xor_zero(a.id, b.id);
    }

    /// The intersection of two sets (`&`).
    pub fn bitand(self, rhs: Self) -> (r: Self)
        ensures
            r@ == self@.intersect(rhs@),
    {
        let r = BitSet { id: self.id & rhs.id };
        proof {
            assert forall|i: usize| r@.contains(i) <==> self@.intersect(rhs@).contains(i) by {
                if i < 128 {
                    lemma_bit_and(self.id, rhs.id, i as u128);
                }
            }
            assert(r@ =~= self@.intersect(rhs@));
        }
        r
    }

    /// Keeps only the members that `rhs` holds too (`&=`).
    pub fn bitand_assign(&mut self, rhs: Self)
        ensures
            final(self)@ == old(self)@.intersect(rhs@),
    {
        *self = self.bitand(rhs);
    }

    /// The union of two sets (`|`).
    pub fn bitor(self, rhs: Self) -> (r: Self)
        ensures
            r@ == self@.union(rhs@),
    {
        let r = BitSet { id: self.id | rhs.id };
        proof {
            assert forall|i: usize| r@.contains(i) <==> self@.union(rhs@).contains(i) by {
                if i < 128 {
                    lemma_bit_or(self.id, rhs.id, i as u128);
                }
            }
            assert(r@ =~= self@.union(rhs@));
        }
        r
    }

    /// Adds the members of `rhs` (`|=`).
    pub fn bitor_assign(&mut self, rhs: Self)
        ensures
            final(self)@ == old(self)@.union(rhs@),
    {
        *self = self.bitor(rhs);
    }

    /// The members of exactly one of the two sets (`^`).
    pub fn bitxor(self, rhs: Self) -> (r: Self)
        ensures
            r@ == self@.difference(rhs@).union(rhs@.difference(self@)),
    {
        let r = BitSet { id: self.id ^ rhs.id };
        proof {
            assert forall|i: usize|
                r@.contains(i) <==> self@.difference(rhs@).union(rhs@.difference(self@)).contains(
                    i,
                ) by {
                if i < 128 {
                    lemma_bit_xor(self.id, rhs.id, i as u128);
                }
            }
            assert(r@ =~= self@.difference(rhs@).union(rhs@.difference(self@)));
        }
        r
    }

    /// Toggles the members of `rhs` (`^=`).
    pub fn bitxor_assign(&mut self, rhs: Self)
        ensures
            final(self)@ == old(self)@.difference(rhs@).union(rhs@.difference(old(self)@)),
    {
        *self = self.bitxor(rhs);
    }

    /// The ids below 128 that are not members (`!`).
    pub fn not(self) -> (r: Self)
        ensures
            forall|i: usize| #[trigger] r@.contains(i) <==> (i < 128 && !self@.contains(i)),
    {
        let r = BitSet { id: !self.id };
        proof {
            assert forall|i: usize| #[trigger] r@.contains(i) <==> (i < 128 && !self@.contains(i)) by {
                if i < 128 {
                    lemma_bit_not(self.id, i as u128);
                }
            }
        }
        r
    }
}

/// A hasher for bitsets: it folds the two halves of a `u128` together.
pub(crate) struct BitSetHasher {
    pub(crate) hash: u64,
}

impl BitSetHasher {
    /// The hash written last (0 if none).
    pub(crate) fn finish(&self) -> (r: u64)
        ensures
            r == self.hash,
    {
        self.hash
    }

    /// Hashes a `u128`: the exclusive or of its low and high 64 bits.
    pub(crate) fn write_u128(&mut self, i: u128)
        ensures
            final(self).hash == (i as u64) ^ ((i >> 64u128) as u64),
    {
        self.hash = (i as u64) ^ ((i >> 64u128) as u64);
    }
}

/// Makes `BitSetHasher`s.
pub(crate) struct BuildBitSetHasher;

impl BuildBitSetHasher {
    /// A fresh hasher, with hash 0.
    pub(crate) fn build_hasher(&self) -> (r: BitSetHasher)
        ensures
            r.hash == 0,
    {
        BitSetHasher { hash: 0 }
    }
}

/// The members of a `BitSet` that are still to come, lowest first.
pub struct BitSetIterator {
    bits: u128,
}

impl View for BitSetIterator {
    type V = Set<usize>;

    closed spec fn view(&self) -> Set<usize> {
        Set::new(|i: usize| bit_of(self.bits, i))
    }
}

impl BitSetIterator {
    /// A measure that each step decreases.
    pub closed spec fn remaining_measure(&self) -> nat {
        self.bits as nat
    }

    /// Takes out the lowest remaining member.
    pub fn next(&mut self) -> (r: Option<usize>)
        ensures
            match r {
                None => old(self)@ == Set::<usize>::empty() && final(self)@ == old(self)@,
                Some(t) => {
                    &&& old(self)@.contains(t)
                    &&& forall|j: usize| #[trigger] old(self)@.contains(j) ==> t <= j
                    &&& final(self)@ == old(self)@.remove(t)
                    &&& final(self).remaining_measure() < old(self).remaining_measure()
                },
            },
    {
        if self.bits == 0 {
            proof {
                assert forall|i: usize| !old(self)@.contains(i) by {
                    if i < 128 {
                        lemma_bit_zero(i as u128);
                    }
                }
                assert(old(self)@ =~= Set::<usize>::empty());
            }
            return None;
        }
        let ghost b = self.bits;
        let bit_index = trailing_zeros(self.bits);
        self.bits = self.bits & (self.bits - 1);
        proof {
            let t = bit_index as u128;
            assert forall|i: usize| #[trigger] self@.contains(i) == old(self)@.remove(
                bit_index as usize,
            ).contains(i) by {
                if i < 128 {
                    lemma_clear_lowest(b, t, i as u128);
                }
            }
            assert(self@ =~= old(self)@.remove(bit_index as usize));
            assert forall|j: usize| #[trigger] old(self)@.contains(j) implies bit_index <= j by {
                if j < bit_index {
                    lemma_clear_lowest(b, t, j as u128);
                }
            }
            lemma_clear_lowest(b, t, 0);
        }
        Some(bit_index as usize)
    }
}

} // verus!
