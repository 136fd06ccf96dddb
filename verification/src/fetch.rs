use vstd::prelude::*;
use crate::bitset::BitSet;

verus! {

/// What a bundle gives each component id: the value of its last entry for
/// that id.
pub open spec fn bundle_map<V>(s: Seq<(usize, V)>) -> Map<usize, V>
    decreases s.len(),
{
    if s.len() == 0 {
        Map::empty()
    } else {
        bundle_map(s.drop_last()).insert(s.last().0, s.last().1)
    }
}

/// The component ids of a bundle are those of its entries.
pub proof fn lemma_bundle_map_dom<V>(s: Seq<(usize, V)>)
    ensures
        bundle_map(s).dom().finite(),
        forall|c: usize|
            #[trigger] bundle_map(s).dom().contains(c) <==> exists|k: int|
                0 <= k < s.len() && (#[trigger] s[k]).0 == c,
    decreases s.len(),
{
    if s.len() > 0 {
        lemma_bundle_map_dom(s.drop_last());
        assert forall|c: usize| #[trigger] bundle_map(s).dom().contains(c) <==> exists|k: int|
            0 <= k < s.len() && (#[trigger] s[k]).0 == c by {
            if bundle_map(s.drop_last()).dom().contains(c) {
                let k = choose|k: int| 0 <= k < s.drop_last().len() && (#[trigger] s.drop_last()[k]).0 == c;
                assert(s[k] == s.drop_last()[k]);
            }
            if exists|k: int| 0 <= k < s.len() && (#[trigger] s[k]).0 == c {
                let k = choose|k: int| 0 <= k < s.len() && (#[trigger] s[k]).0 == c;
                if k < s.len() - 1 {
                    assert(s.drop_last()[k] == s[k]);
                }
            }
        }
    }
}

/// Components to give an entity: pairs of a component id and a value. Where
/// an id occurs twice, the later value is the one that is stored.
pub struct Bundle<V> {
    pub components: Vec<(usize, V)>,
}

impl<V> Bundle<V> {
    /// The component ids of the bundle are all below 128, the ids a `BitSet` holds.
    pub open spec fn ids_valid(&self) -> bool {
        forall|k: int| 0 <= k < self.components@.len() ==> (#[trigger] self.components@[k]).0 < 128
    }

    /// The components that the bundle gives, by id.
    pub open spec fn spec_map(&self) -> Map<usize, V> {
        bundle_map(self.components@)
    }

    /// A bundle of the given pairs.
    pub fn new(components: Vec<(usize, V)>) -> (r: Self)
        ensures
            r.components@ == components@,
    {
        Bundle { components }
    }

    /// The number of entries (ids may repeat).
    pub fn len(&self) -> (r: usize)
        ensures
            r == self.components@.len(),
    {
        self.components.len()
    }

    /// The component ids of the entries, in order.
    pub fn component_ids(&self) -> (r: Vec<usize>)
        ensures
            r@.len() == self.components@.len(),
            forall|k: int| 0 <= k < r@.len() ==> #[trigger] r@[k] == self.components@[k].0,
    {
        let mut r: Vec<usize> = Vec::new();
        let mut k: usize = 0;
        while k < self.components.len()
            invariant
                k <= self.components@.len(),
                r@.len() == k,
                forall|j: int| 0 <= j < k ==> #[trigger] r@[j] == self.components@[j].0,
            decreases self.components@.len() - k,
        {
            r.push(self.components[k].0);
            k = k + 1;
        }
        r
    }

    /// The set of the bundle's component ids.
    pub fn get_bit_set(&self) -> (r: BitSet)
        requires
            self.ids_valid(),
        ensures
            r@ == self.spec_map().dom(),
    {
        let ids = self.component_ids();
        let r = BitSet::from_component_ids(ids.as_slice());
        proof {
            lemma_bundle_map_dom(self.components@);
            assert forall|c: usize| r@.contains(c) <==> self.spec_map().dom().contains(c) by {
                if ids@.contains(c) {
                    let k = choose|k: int| 0 <= k < ids@.len() && ids@[k] == c;
                    assert(self.components@[k].0 == c);
                }
                if self.spec_map().dom().contains(c) {
                    let k = choose|k: int| 0 <= k < self.components@.len() && (#[trigger] self.components@[k]).0 == c;
                    assert(ids@[k] == c);
                }
            }
            assert(r@ =~= self.spec_map().dom());
        }
        r
    }
}

} // verus!
