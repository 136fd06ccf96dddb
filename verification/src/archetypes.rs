use vstd::prelude::*;

use crate::bitset::BitSet;
use crate::fetch::{self, Bundle};
use crate::entity::{self, EntityId, EntityLocation, Entities, MAX_GENERATIONS};
use std::collections::HashMap;
use std::mem::ManuallyDrop;

verus! {

/// The number of rows an archetype can hold.
pub const INITIAL_CAPACITY: usize = 25;

/// Lexicographic order on pairs of a component id and a column index.
pub open spec fn pair_leq(a: (usize, usize), b: (usize, usize)) -> bool {
    a.0 < b.0 || (a.0 == b.0 && a.1 <= b.1)
}

/// The entries are ordered by their ids, with no id twice.
pub open spec fn strictly_sorted_by_id(s: Seq<(usize, usize)>) -> bool {
    forall|i: int, j: int| 0 <= i < j < s.len() ==> #[trigger] s[i].0 < #[trigger] s[j].0
}

/// `slice::sort_unstable_by_key` with the id as key: the entries are permuted
/// into nondecreasing order of their ids (the order among equal ids is not
/// fixed).
#[verifier::external_body]
fn sort_by_id(v: &mut Vec<(usize, usize)>)
    ensures
        final(v)@.to_multiset() == old(v)@.to_multiset(),
        forall|i: int, j: int| 0 <= i < j < final(v)@.len() ==> #[trigger] final(v)@[i].0 <= #[trigger] final(v)@[j].0,
{
    v.sort_unstable_by_key(|entry| entry.0)
}

/// `slice::binary_search_by_key` with the id as key, on entries sorted by id:
/// `Ok` with the position of an entry with that id if there is one, else `Err`
/// with the position where such an entry would go.
#[verifier::external_body]
fn search_by_id(v: &[(usize, usize)], id: usize) -> (r: Result<usize, usize>)
    requires
        forall|i: int, j: int| 0 <= i < j < v@.len() ==> #[trigger] v@[i].0 <= #[trigger] v@[j].0,
    ensures
        match r {
            Ok(k) => k < v@.len() && v@[k as int].0 == id,
            Err(k) => {
                &&& k <= v@.len()
                &&& forall|i: int| 0 <= i < v@.len() ==> #[trigger] v@[i].0 != id
                &&& forall|i: int| 0 <= i < k ==> #[trigger] v@[i].0 < id
                &&& forall|i: int| k <= i < v@.len() ==> #[trigger] v@[i].0 > id
            },
        },
{
    v.binary_search_by_key(&id, |entry| entry.0)
}

proof fn lemma_pair_leq_total()
    ensures
        vstd::relations::total_ordering(|a: (usize, usize), b: (usize, usize)| pair_leq(a, b)),
{
}

/// A permutation, sorted by id, of entries that are strictly sorted by id is
/// those entries in the same order.
proof fn lemma_sorted_permutation(r: Seq<(usize, usize)>, s: Seq<(usize, usize)>)
    requires
        strictly_sorted_by_id(s),
        r.to_multiset() == s.to_multiset(),
        forall|i: int, j: int| 0 <= i < j < r.len() ==> #[trigger] r[i].0 <= #[trigger] r[j].0,
    ensures
        r == s,
{
    broadcast use vstd::multiset::group_multiset_axioms;
    broadcast use vstd::seq_lib::group_to_multiset_ensures;

    assert forall|i: int, j: int| 0 <= i < s.len() && 0 <= j < s.len() && i != j implies s[i] != s[j] by {
        if i < j {
            assert(s[i].0 < s[j].0);
        } else {
            assert(s[j].0 < s[i].0);
        }
    }
    assert(s.no_duplicates());
    s.lemma_multiset_has_no_duplicates();
    r.lemma_multiset_has_no_duplicates_conv();
    assert forall|i: int, j: int| 0 <= i < j < r.len() implies #[trigger] r[i].0 < #[trigger] r[j].0 by {
        if r[i].0 == r[j].0 {
            assert(r.to_multiset().contains(r[i]));
            assert(r.to_multiset().contains(r[j]));
            let a = choose|a: int| 0 <= a < s.len() && s[a] == r[i];
            let b = choose|b: int| 0 <= b < s.len() && s[b] == r[j];
            if a < b {
                assert(s[a].0 < s[b].0);
            } else if b < a {
                assert(s[b].0 < s[a].0);
            }
            assert(r[i] == r[j]);
        }
    }
    let leq = |a: (usize, usize), b: (usize, usize)| pair_leq(a, b);
    lemma_pair_leq_total();
    assert(vstd::relations::sorted_by(r, leq));
    assert(vstd::relations::sorted_by(s, leq));
    vstd::seq_lib::lemma_sorted_unique(r, s, leq);
}

/// The position of the entry for `c` in an id map.
pub open spec fn column_of(m: OrderedIdMap, c: usize) -> int {
    choose|k: int| 0 <= k < m.0@.len() && m.0@[k].0 == c
}

/// Maps each component id of an archetype to the index of its column.
pub struct OrderedIdMap(pub Vec<(usize, usize)>);

impl OrderedIdMap {
    /// The entries are sorted by id.
    pub open spec fn sorted(&self) -> bool {
        forall|i: int, j: int| 0 <= i < j < self.0@.len() ==> #[trigger] self.0@[i].0 <= #[trigger] self.0@[j].0
    }

    /// The map of the given entries, sorted by id.
    pub fn new(entries: Vec<(usize, usize)>) -> (r: Self)
        ensures
            r.sorted(),
            r.0@.to_multiset() == entries@.to_multiset(),
    {
        let mut vals = entries;
        sort_by_id(&mut vals);
        OrderedIdMap(vals)
    }

    /// The position of an entry for `id`, if there is one.
    pub fn search(&self, id: &usize) -> (r: Option<usize>)
        requires
            self.sorted(),
        ensures
            match r {
                Some(k) => k < self.0@.len() && self.0@[k as int].0 == *id,
                None => forall|i: int| 0 <= i < self.0@.len() ==> #[trigger] self.0@[i].0 != *id,
            },
    {
        match search_by_id(self.0.as_slice(), *id) {
            Ok(k) => Some(k),
            Err(_) => None,
        }
    }

    /// The column index that `id` maps to, if any.
    pub fn get(&self, id: &usize) -> (r: Option<&usize>)
        requires
            self.sorted(),
        ensures
            match r {
                Some(c) => exists|k: int| 0 <= k < self.0@.len() && (#[trigger] self.0@[k]).0 == *id && self.0@[k].1 == *c,
                None => forall|i: int| 0 <= i < self.0@.len() ==> #[trigger] self.0@[i].0 != *id,
            },
    {
        match self.search(id) {
            Some(k) => Some(&self.0[k].1),
            None => None,
        }
    }
}


/// A column of `capacity` empty slots.
fn empty_column<T>(capacity: usize) -> (r: Vec<Option<T>>)
    ensures
        r@.len() == capacity,
        forall|j: int| 0 <= j < capacity ==> #[trigger] r@[j] is None,
{
    let mut col: Vec<Option<T>> = Vec::new();
    let mut j: usize = 0;
    while j < capacity
        invariant
            j <= capacity,
            col@.len() == j,
            forall|l: int| 0 <= l < j ==> #[trigger] col@[l] is None,
        decreases capacity - j,
    {
        col.push(None);
        j = j + 1;
    }
    col
}

/// The storage of all entities that have one set of components: one column per
/// component, each with a slot per row, and the id of the entity of each row.
/// Values sit in `ManuallyDrop` slots: the storage runs a destructor only where
/// a row or a component is removed (`remove`, `drop_row_components`), never when
/// a slot is overwritten or the storage itself goes away.
pub struct Archetype<V> {
    pub id_to_index: OrderedIdMap,
    pub component_bits: BitSet,
    pub data: Vec<Vec<Option<ManuallyDrop<V>>>>,
    pub entities: Vec<u32>,
    pub capacity: usize,
    pub len: usize,
}

impl<V> Archetype<V> {
    /// The number of columns.
    pub open spec fn ncols(&self) -> int {
        self.data@.len() as int
    }

    /// The component id of column `k`.
    pub open spec fn key(&self, k: int) -> usize {
        self.id_to_index.0@[k].0
    }

    /// Whether the archetype has component `c`.
    pub open spec fn has(&self, c: usize) -> bool {
        self.component_bits@.contains(c)
    }

    /// The column of component `c`.
    pub open spec fn col_of(&self, c: usize) -> int {
        column_of(self.id_to_index, c)
    }

    /// The value in column `k` at row `r`.
    pub open spec fn cell(&self, k: int, r: int) -> Option<V> {
        match self.data@[k]@[r] {
            Some(m) => Some(m@),
            None => None,
        }
    }

    /// Row `r` holds a value in every column.
    pub open spec fn filled(&self, r: int) -> bool {
        forall|k: int| 0 <= k < self.ncols() ==> (#[trigger] self.cell(k, r)) is Some
    }

    /// The components of row `r`, by id.
    pub open spec fn row_map(&self, r: int) -> Map<usize, V> {
        Map::new(|c: usize| self.has(c), |c: usize| self.cell(self.col_of(c), r)->Some_0)
    }

    /// The columns are those of the component set, in increasing id order, each
    /// with `capacity` slots; `len` rows are in use.
    pub open spec fn shape_wf(&self) -> bool {
        &&& self.id_to_index.0@.len() == self.data@.len()
        &&& forall|k: int| 0 <= k < self.ncols() ==> #[trigger] self.id_to_index.0@[k].1 == k
        &&& forall|k: int| 0 <= k < self.ncols() ==> #[trigger] self.key(k) < 128
        &&& strictly_sorted_by_id(self.id_to_index.0@)
        &&& forall|c: usize| #[trigger] self.has(c) <==> exists|k: int| 0 <= k < self.ncols() && #[trigger] self.key(k) == c
        &&& self.capacity == INITIAL_CAPACITY
        &&& self.len <= self.capacity
        &&& self.entities@.len() == self.capacity
        &&& forall|k: int| 0 <= k < self.ncols() ==> (#[trigger] self.data@[k])@.len() == self.capacity
    }

    /// The shape holds and every row in use holds a value in every column.
    pub open spec fn wf(&self) -> bool {
        &&& self.shape_wf()
        &&& forall|r: int| 0 <= r < self.len ==> #[trigger] self.filled(r)
    }

    /// The shape only depends on the id map, the component set, the counts and
    /// the column lengths.
    pub proof fn lemma_shape_frame(a: &Self, b: &Self)
        requires
            a.shape_wf(),
            b.id_to_index == a.id_to_index,
            b.component_bits == a.component_bits,
            b.capacity == a.capacity,
            b.len <= b.capacity,
            b.entities@.len() == a.entities@.len(),
            b.data@.len() == a.data@.len(),
            forall|k: int| 0 <= k < b.ncols() ==> (#[trigger] b.data@[k])@.len() == b.capacity,
        ensures
            b.shape_wf(),
    {
        assert forall|k: int| 0 <= k < b.ncols() implies #[trigger] b.key(k) < 128 by {
            assert(a.key(k) < 128);
        }
        assert forall|c: usize| #[trigger] b.has(c) <==> exists|k: int| 0 <= k < b.ncols() && #[trigger] b.key(k) == c by {
            if a.has(c) {
                let k = choose|k: int| 0 <= k < a.ncols() && #[trigger] a.key(k) == c;
                assert(b.key(k) == c);
            }
            if exists|k: int| 0 <= k < b.ncols() && #[trigger] b.key(k) == c {
                let k = choose|k: int| 0 <= k < b.ncols() && #[trigger] b.key(k) == c;
                assert(a.key(k) == c);
            }
        }
    }

    /// Column `col_of(c)` holds component `c`.
    pub proof fn lemma_col_of(&self, c: usize)
        requires
            self.shape_wf(),
            self.has(c),
        ensures
            0 <= self.col_of(c) < self.ncols(),
            self.key(self.col_of(c)) == c,
            forall|k: int| 0 <= k < self.ncols() && self.key(k) == c ==> k == self.col_of(c),
    {
        let k = choose|k: int| 0 <= k < self.ncols() && #[trigger] self.key(k) == c;
        assert forall|l: int| 0 <= l < self.ncols() && self.key(l) == c implies l == self.col_of(c) by {
            let m = self.col_of(c);
            if l < m {
                assert(self.id_to_index.0@[l].0 < self.id_to_index.0@[m].0);
            } else if m < l {
                assert(self.id_to_index.0@[m].0 < self.id_to_index.0@[l].0);
            }
        }
    }

    /// An empty archetype for the component set `mask`, with a column per member
    /// in increasing id order.
    pub fn new(mask: BitSet) -> (r: Self)
        ensures
            r.wf(),
            r.component_bits == mask,
            r.len == 0,
    {
        let count = mask.count();
        let mut data: Vec<Vec<Option<ManuallyDrop<V>>>> = Vec::with_capacity(count);
        let mut component_ids: Vec<(usize, usize)> = Vec::with_capacity(count);
        proof {
            mask.lemma_bounded();
        }
        let mut it = mask.iter();
        let mut i: usize = 0;
        loop
            invariant
                data@.len() == i,
                component_ids@.len() == i,
                forall|k: int| 0 <= k < i ==> #[trigger] component_ids@[k].1 == k,
                forall|k: int| 0 <= k < i ==> #[trigger] component_ids@[k].0 >= k,
                forall|k: int| 0 <= k < i ==> #[trigger] component_ids@[k].0 < 128,
                strictly_sorted_by_id(component_ids@),
                forall|c: usize| #[trigger] mask@.contains(c) <==> (it@.contains(c) || exists|k: int|
                    0 <= k < i && #[trigger] component_ids@[k].0 == c),
                forall|k: int, c: usize| 0 <= k < i && #[trigger] it@.contains(c) ==> #[trigger] component_ids@[k].0 < c,
                forall|c: usize| #[trigger] mask@.contains(c) ==> c < 128,
                forall|k: int| 0 <= k < i ==> (#[trigger] data@[k])@.len() == INITIAL_CAPACITY,
                forall|k: int, j: int| 0 <= k < i && 0 <= j < INITIAL_CAPACITY ==> #[trigger] data@[k]@[j] is None,
            ensures
                it@ == Set::<usize>::empty(),
            decreases it.remaining_measure(),
        {
            let ghost before = it@;
            let ghost old_ids = component_ids@;
            match it.next() {
                None => break,
                Some(comp_id) => {
                    proof {
                        assert(mask@.contains(comp_id));
                        if i > 0 {
                            assert(component_ids@[i - 1].0 < comp_id);
                        }
                    }
                    data.push(empty_column(INITIAL_CAPACITY));
                    component_ids.push((comp_id, i));
                    proof {
                        assert forall|c: usize| #[trigger] mask@.contains(c) <==> (it@.contains(c) || exists|k: int|
                            0 <= k < i + 1 && #[trigger] component_ids@[k].0 == c) by {
                            if mask@.contains(c) && !it@.contains(c) && c != comp_id {
                                assert(before.contains(c) || exists|k: int| 0 <= k < i && #[trigger] old_ids[k].0 == c);
                                let k = choose|k: int| 0 <= k < i && #[trigger] old_ids[k].0 == c;
                                assert(component_ids@[k] == old_ids[k]);
                            }
                            if exists|k: int| 0 <= k < i + 1 && #[trigger] component_ids@[k].0 == c {
                                let k = choose|k: int| 0 <= k < i + 1 && #[trigger] component_ids@[k].0 == c;
                                if k < i {
                                    assert(component_ids@[k] == old_ids[k]);
                                }
                            }
                            if c == comp_id {
                                assert(component_ids@[i as int].0 == c);
                            }
                        }
                        assert forall|k: int, c: usize| 0 <= k < i + 1 && #[trigger] it@.contains(c) implies #[trigger] component_ids@[k].0 < c by {
                            assert(before.contains(c));
                            if k == i {
                                assert(comp_id <= c);
                            }
                        }
                    }
                    i = i + 1;
                },
            }
        }
        let mut entities: Vec<u32> = Vec::new();
        let mut j: usize = 0;
        while j < INITIAL_CAPACITY
            invariant
                j <= INITIAL_CAPACITY,
                entities@.len() == j,
            decreases INITIAL_CAPACITY - j,
        {
            entities.push(0);
            j = j + 1;
        }
        let ghost ids = component_ids@;
        let id_to_index = OrderedIdMap::new(component_ids);
        proof {
            lemma_sorted_permutation(id_to_index.0@, ids);
        }
        let r = Archetype {
            component_bits: mask,
            id_to_index,
            data,
            entities,
            capacity: INITIAL_CAPACITY,
            len: 0,
        };
        proof {
            assert forall|c: usize| #[trigger] r.has(c) <==> exists|k: int| 0 <= k < r.ncols() && #[trigger] r.key(k) == c by {
                if r.has(c) {
                    let k = choose|k: int| 0 <= k < i && #[trigger] ids[k].0 == c;
                    assert(r.key(k) == c);
                }
                if exists|k: int| 0 <= k < r.ncols() && #[trigger] r.key(k) == c {
                    let k = choose|k: int| 0 <= k < r.ncols() && #[trigger] r.key(k) == c;
                    assert(ids[k].0 == c);
                }
            }
        }
        r
    }

    /// Writes the values of a bundle into row `row`; where an id occurs twice in
    /// the bundle the later value is the one that stays. A value that is
    /// overwritten is not dropped.
    pub fn write_bundle(&mut self, components: Bundle<V>, row: usize)
        requires
            old(self).shape_wf(),
            row < old(self).capacity,
            components.components@.len() <= 32,
            forall|k: int| 0 <= k < components.components@.len() ==> old(self).has(#[trigger] components.components@[k].0),
        ensures
            final(self).id_to_index == old(self).id_to_index,
            final(self).component_bits == old(self).component_bits,
            final(self).entities == old(self).entities,
            final(self).capacity == old(self).capacity,
            final(self).len == old(self).len,
            final(self).data@.len() == old(self).data@.len(),
            final(self).shape_wf(),
            forall|k: int, r: int| 0 <= k < old(self).ncols() && 0 <= r < old(self).capacity ==>
                #[trigger] final(self).cell(k, r) == if r == row && components.spec_map().contains_key(old(self).key(k)) {
                    Some(components.spec_map()[old(self).key(k)])
                } else {
                    old(self).cell(k, r)
                },
    {
        let Bundle { components: items } = components;
        let ghost s = items@;
        for item in iter: items.into_iter()
            invariant
                iter.seq() == s,
                self.id_to_index == old(self).id_to_index,
                self.component_bits == old(self).component_bits,
                self.entities == old(self).entities,
                self.capacity == old(self).capacity,
                self.len == old(self).len,
                self.data@.len() == old(self).data@.len(),
                self.shape_wf(),
                row < self.capacity,
                forall|k: int| 0 <= k < s.len() ==> old(self).has(#[trigger] s[k].0),
                forall|k: int, r: int| 0 <= k < old(self).ncols() && 0 <= r < old(self).capacity ==>
                    #[trigger] self.cell(k, r) == if r == row && fetch::bundle_map(s.take(iter.index() as int)).contains_key(old(self).key(k)) {
                        Some(fetch::bundle_map(s.take(iter.index() as int))[old(self).key(k)])
                    } else {
                        old(self).cell(k, r)
                    },
        {
            let ghost j = iter.index();
            assert(item == s[j as int]);
            let (id, value) = item;
            proof {
                assert(self.has(id));
                let k = choose|k: int| 0 <= k < self.ncols() && #[trigger] self.key(k) == id;
            }
            let col_idx = *self.id_to_index.get(&id).unwrap();
            proof {
                self.lemma_col_of(id);
                assert(col_idx == self.col_of(id));
            }
            let ghost pre = *self;
            let stored = ManuallyDrop::new(value);
            self.data[col_idx][row] = Some(stored);
            proof {
                assert(self.data@.len() == pre.data@.len());
                assert(self.data@[col_idx as int]@ == pre.data@[col_idx as int]@.update(row as int, Some(stored)));
                assert(forall|k: int| 0 <= k < self.data@.len() && k != col_idx ==> #[trigger] self.data@[k] == pre.data@[k]);
                assert(s.take(j + 1).drop_last() =~= s.take(j as int));
                let m = fetch::bundle_map(s.take(j + 1));
                assert(m == fetch::bundle_map(s.take(j as int)).insert(id, value));
                assert forall|k: int| 0 <= k < self.ncols() implies (#[trigger] self.data@[k])@.len() == self.capacity by {
                    if k != col_idx {
                        assert(self.data@[k] == pre.data@[k]);
                    }
                }
                Self::lemma_shape_frame(&pre, self);
                assert forall|k: int, r: int| 0 <= k < old(self).ncols() && 0 <= r < old(self).capacity implies
                    #[trigger] self.cell(k, r) == if r == row && m.contains_key(old(self).key(k)) {
                        Some(m[old(self).key(k)])
                    } else {
                        old(self).cell(k, r)
                    } by {
                    assert(pre.cell(k, r) == if r == row && fetch::bundle_map(s.take(j as int)).contains_key(old(self).key(k)) {
                        Some(fetch::bundle_map(s.take(j as int))[old(self).key(k)])
                    } else {
                        old(self).cell(k, r)
                    });
                    if k != col_idx {
                        assert(self.data@[k] == pre.data@[k]);
                        assert(self.key(k) != id);
                    }
                }
            }
        }
        proof {
            assert(s.take(s.len() as int) =~= s);
        }
    }

    /// Moves the values in row `last` of every column to row `row` and empties
    /// row `last`. Whatever row `row` held is overwritten without being dropped:
    /// callers drop it first where it is still owned.
    fn move_row(&mut self, last: usize, row: usize)
        requires
            old(self).shape_wf(),
            last < old(self).capacity,
            row < old(self).capacity,
            row != last,
        ensures
            final(self).id_to_index == old(self).id_to_index,
            final(self).component_bits == old(self).component_bits,
            final(self).entities == old(self).entities,
            final(self).capacity == old(self).capacity,
            final(self).len == old(self).len,
            final(self).data@.len() == old(self).data@.len(),
            final(self).shape_wf(),
            forall|k: int, r: int| 0 <= k < old(self).ncols() && 0 <= r < old(self).capacity ==>
                #[trigger] final(self).cell(k, r) == if r == row {
                    old(self).cell(k, last as int)
                } else if r == last {
                    None
                } else {
                    old(self).cell(k, r)
                },
    {
        let mut k: usize = 0;
        while k < self.data.len()
            invariant
                self.id_to_index == old(self).id_to_index,
                self.component_bits == old(self).component_bits,
                self.entities == old(self).entities,
                self.capacity == old(self).capacity,
                self.len == old(self).len,
                self.data@.len() == old(self).data@.len(),
                self.shape_wf(),
                last < self.capacity,
                row < self.capacity,
                row != last,
                k <= self.data@.len(),
                forall|j: int, r: int| 0 <= j < old(self).ncols() && 0 <= r < old(self).capacity ==>
                    #[trigger] self.cell(j, r) == if j < k && r == row {
                        old(self).cell(j, last as int)
                    } else if j < k && r == last {
                        None
                    } else {
                        old(self).cell(j, r)
                    },
            decreases self.data@.len() - k,
        {
            let ghost pre = *self;
            let v = self.data[k][last].take();
            self.data[k][row] = v;
            proof {
                assert(self.data@[k as int]@ == pre.data@[k as int]@.update(last as int, None).update(row as int, v));
                assert(forall|j: int| 0 <= j < self.data@.len() && j != k ==> #[trigger] self.data@[j] == pre.data@[j]);
                assert forall|j: int| 0 <= j < self.ncols() implies (#[trigger] self.data@[j])@.len() == self.capacity by {
                    if j != k {
                        assert(self.data@[j] == pre.data@[j]);
                    }
                }
                Self::lemma_shape_frame(&pre, self);
                assert forall|j: int, r: int| 0 <= j < old(self).ncols() && 0 <= r < old(self).capacity implies
                    #[trigger] self.cell(j, r) == if j < k + 1 && r == row {
                        old(self).cell(j, last as int)
                    } else if j < k + 1 && r == last {
                        None
                    } else {
                        old(self).cell(j, r)
                    } by {
                    assert(pre.cell(j, r) == if j < k && r == row {
                        old(self).cell(j, last as int)
                    } else if j < k && r == last {
                        None
                    } else {
                        old(self).cell(j, r)
                    });
                    if j != k {
                        assert(self.data@[j] == pre.data@[j]);
                    } else {
                        assert(pre.cell(j, last as int) == old(self).cell(j, last as int));
                    }
                }
            }
            k = k + 1;
        }
    }

    /// Removes row `row`: its values are dropped and the last row's values and
    /// entity id move into it.
    pub fn remove(&mut self, row: usize)
        requires
            old(self).wf(),
            row < old(self).len,
        ensures
            final(self).id_to_index == old(self).id_to_index,
            final(self).component_bits == old(self).component_bits,
            final(self).capacity == old(self).capacity,
            final(self).len == old(self).len - 1,
            final(self).data@.len() == old(self).data@.len(),
            final(self).wf(),
            forall|k: int, r: int| 0 <= k < old(self).ncols() && 0 <= r < final(self).len ==>
                #[trigger] final(self).cell(k, r) == if r == row {
                    old(self).cell(k, old(self).len - 1)
                } else {
                    old(self).cell(k, r)
                },
            forall|r: int| 0 <= r < final(self).len ==>
                #[trigger] final(self).entities@[r] == if r == row {
                    old(self).entities@[old(self).len - 1]
                } else {
                    old(self).entities@[r]
                },
    {
        let last = self.len - 1;
        let all = self.component_bits;
        proof {
            assert forall|c: usize| #[trigger] all@.contains(c) implies self.has(c) by {}
        }
        self.drop_row_components(all, row);
        let ghost emptied = *self;
        proof {
            assert forall|k: int| 0 <= k < self.ncols() implies all@.contains(#[trigger] self.key(k)) by {
                assert(self.has(self.key(k)));
            }
        }
        if row != last {
            self.move_row(last, row);
            let ghost mid = *self;
            let moved = self.entities[last];
            self.entities.set(row, moved);
            proof {
                Self::lemma_shape_frame(&mid, self);
                assert forall|k: int, r: int| 0 <= k < old(self).ncols() && 0 <= r < old(self).capacity implies
                    #[trigger] self.cell(k, r) == if r == row {
                        old(self).cell(k, last as int)
                    } else if r == last {
                        None
                    } else {
                        old(self).cell(k, r)
                    } by {
                    assert(self.cell(k, r) == mid.cell(k, r));
                    assert(emptied.cell(k, last as int) == old(self).cell(k, last as int));
                }
            }
        }
        let ghost pre = *self;
        self.len = last;
        proof {
            Self::lemma_shape_frame(&pre, self);
            assert forall|k: int, r: int| 0 <= k < old(self).ncols() && 0 <= r < self.len implies
                #[trigger] self.cell(k, r) == if r == row {
                    old(self).cell(k, old(self).len - 1)
                } else {
                    old(self).cell(k, r)
                } by {
                assert(self.cell(k, r) == pre.cell(k, r));
            }
            assert forall|r: int| 0 <= r < self.len implies #[trigger] self.filled(r) by {
                assert forall|k: int| 0 <= k < self.ncols() implies (#[trigger] self.cell(k, r)) is Some by {
                    assert(self.cell(k, r) == pre.cell(k, r));
                    if r == row {
                        assert(old(self).filled(last as int));
                        assert(old(self).cell(k, last as int) is Some);
                    } else {
                        assert(old(self).filled(r));
                        assert(old(self).cell(k, r) is Some);
                    }
                }
            }
        }
    }

    /// Moves the entity at row `src_row` of `src` to row `dst_row` of `dst`: the
    /// values of the components that both archetypes have move over, and the
    /// last row of `src` moves into `src_row`, one row shorter. Values of
    /// `src_row` in columns that `dst` lacks are not dropped here: callers drop
    /// them first where they are still owned. Entity ids are left to the caller.
    pub fn swap(src: &mut Self, src_row: usize, dst: &mut Self, dst_row: usize)
        requires
            old(src).shape_wf(),
            forall|r: int| 0 <= r < old(src).len && r != src_row ==> #[trigger] old(src).filled(r),
            old(dst).shape_wf(),
            src_row < old(src).len,
            dst_row < old(dst).capacity,
        ensures
            final(dst).id_to_index == old(dst).id_to_index,
            final(dst).component_bits == old(dst).component_bits,
            final(dst).entities == old(dst).entities,
            final(dst).capacity == old(dst).capacity,
            final(dst).len == old(dst).len,
            final(dst).data@.len() == old(dst).data@.len(),
            final(dst).shape_wf(),
            forall|k: int, r: int| 0 <= k < old(dst).ncols() && 0 <= r < old(dst).capacity ==>
                #[trigger] final(dst).cell(k, r) == if r == dst_row && old(src).has(old(dst).key(k)) {
                    old(src).cell(old(src).col_of(old(dst).key(k)), src_row as int)
                } else {
                    old(dst).cell(k, r)
                },
            final(src).id_to_index == old(src).id_to_index,
            final(src).component_bits == old(src).component_bits,
            final(src).entities == old(src).entities,
            final(src).capacity == old(src).capacity,
            final(src).len == old(src).len - 1,
            final(src).data@.len() == old(src).data@.len(),
            final(src).wf(),
            forall|k: int, r: int| 0 <= k < old(src).ncols() && 0 <= r < final(src).len ==>
                #[trigger] final(src).cell(k, r) == if r == src_row {
                    old(src).cell(k, old(src).len - 1)
                } else {
                    old(src).cell(k, r)
                },
    {
        let ghost os = *src;
        let ghost od = *dst;
        let mut si: usize = 0;
        let mut di: usize = 0;
        while si < src.data.len() && di < dst.data.len()
            invariant
                src.id_to_index == os.id_to_index,
                src.component_bits == os.component_bits,
                src.entities == os.entities,
                src.capacity == os.capacity,
                src.len == os.len,
                src.data@.len() == os.data@.len(),
                src.shape_wf(),
                dst.id_to_index == od.id_to_index,
                dst.component_bits == od.component_bits,
                dst.entities == od.entities,
                dst.capacity == od.capacity,
                dst.len == od.len,
                dst.data@.len() == od.data@.len(),
                dst.shape_wf(),
                os.shape_wf(),
                od.shape_wf(),
                src_row < os.len <= os.capacity,
                dst_row < od.capacity,
                si <= os.ncols(),
                di <= od.ncols(),
                forall|m: int, l: int| 0 <= m < si && di <= l < od.ncols() ==> #[trigger] os.key(m) < #[trigger] od.key(l),
                forall|l: int, m: int| 0 <= l < di && si <= m < os.ncols() ==> #[trigger] od.key(l) < #[trigger] os.key(m),
                forall|l: int, r: int| 0 <= l < od.ncols() && 0 <= r < od.capacity ==>
                    #[trigger] dst.cell(l, r) == if l < di && r == dst_row && os.has(od.key(l)) {
                        os.cell(os.col_of(od.key(l)), src_row as int)
                    } else {
                        od.cell(l, r)
                    },
                forall|m: int, r: int| 0 <= m < os.ncols() && 0 <= r < os.capacity ==>
                    #[trigger] src.cell(m, r) == if m < si && r == src_row && od.has(os.key(m)) {
                        None
                    } else {
                        os.cell(m, r)
                    },
            decreases os.ncols() + od.ncols() - si - di,
        {
            let src_component_id = src.id_to_index.0[si].0;
            let dst_component_id = dst.id_to_index.0[di].0;
            if src_component_id > dst_component_id {
                proof {
                    assert forall|m: int| 0 <= m < os.ncols() implies os.key(m) != od.key(di as int) by {
                        if m >= si && m != si {
                            assert(os.key(si as int) < os.key(m));
                        }
                    }
                    assert(!os.has(od.key(di as int)));
                    assert forall|l: int, m: int| 0 <= l < di + 1 && si <= m < os.ncols() implies #[trigger] od.key(l) < #[trigger] os.key(m) by {
                        if l == di && m != si {
                            assert(os.key(si as int) < os.key(m));
                        }
                    }
                }
                di = di + 1;
            } else if dst_component_id > src_component_id {
                proof {
                    assert forall|l: int| 0 <= l < od.ncols() implies od.key(l) != os.key(si as int) by {
                        if l >= di && l != di {
                            assert(od.key(di as int) < od.key(l));
                        }
                    }
                    assert(!od.has(os.key(si as int)));
                    assert forall|m: int, l: int| 0 <= m < si + 1 && di <= l < od.ncols() implies #[trigger] os.key(m) < #[trigger] od.key(l) by {
                        if m == si && l != di {
                            assert(od.key(di as int) < od.key(l));
                        }
                    }
                }
                si = si + 1;
            } else {
                let ghost ps = *src;
                let ghost pd = *dst;
                let v = src.data[si][src_row].take();
                dst.data[di][dst_row] = v;
                proof {
                    os.lemma_col_of(os.key(si as int));
                    assert(od.has(od.key(di as int)));
                    assert(os.has(os.key(si as int)));
                    assert(os.col_of(od.key(di as int)) == si);
                    assert(ps.cell(si as int, src_row as int) == os.cell(si as int, src_row as int));
                    assert(v == ps.data@[si as int]@[src_row as int]);
                    assert(src.data@[si as int]@ == ps.data@[si as int]@.update(src_row as int, None));
                    assert(forall|j: int| 0 <= j < src.data@.len() && j != si ==> #[trigger] src.data@[j] == ps.data@[j]);
                    assert(dst.data@[di as int]@ == pd.data@[di as int]@.update(dst_row as int, v));
                    assert(dst.cell(di as int, dst_row as int) == os.cell(si as int, src_row as int));
                    assert(forall|j: int| 0 <= j < dst.data@.len() && j != di ==> #[trigger] dst.data@[j] == pd.data@[j]);
                    assert forall|j: int| 0 <= j < src.ncols() implies (#[trigger] src.data@[j])@.len() == src.capacity by {
                        if j != si {
                            assert(src.data@[j] == ps.data@[j]);
                        }
                    }
                    assert forall|j: int| 0 <= j < dst.ncols() implies (#[trigger] dst.data@[j])@.len() == dst.capacity by {
                        if j != di {
                            assert(dst.data@[j] == pd.data@[j]);
                        }
                    }
                    Self::lemma_shape_frame(&ps, src);
                    Self::lemma_shape_frame(&pd, dst);
                    assert forall|l: int, r: int| 0 <= l < od.ncols() && 0 <= r < od.capacity implies
                        #[trigger] dst.cell(l, r) == if l < di + 1 && r == dst_row && os.has(od.key(l)) {
                            os.cell(os.col_of(od.key(l)), src_row as int)
                        } else {
                            od.cell(l, r)
                        } by {
                        assert(pd.cell(l, r) == if l < di && r == dst_row && os.has(od.key(l)) {
                            os.cell(os.col_of(od.key(l)), src_row as int)
                        } else {
                            od.cell(l, r)
                        });
                        if l != di {
                            assert(dst.data@[l] == pd.data@[l]);
                        }
                    }
                    assert forall|m: int, r: int| 0 <= m < os.ncols() && 0 <= r < os.capacity implies
                        #[trigger] src.cell(m, r) == if m < si + 1 && r == src_row && od.has(os.key(m)) {
                            None
                        } else {
                            os.cell(m, r)
                        } by {
                        assert(ps.cell(m, r) == if m < si && r == src_row && od.has(os.key(m)) {
                            None
                        } else {
                            os.cell(m, r)
                        });
                        if m != si {
                            assert(src.data@[m] == ps.data@[m]);
                        }
                    }
                    assert forall|m: int, l: int| 0 <= m < si + 1 && di + 1 <= l < od.ncols() implies #[trigger] os.key(m) < #[trigger] od.key(l) by {
                        if m == si {
                            assert(od.key(di as int) < od.key(l));
                        }
                    }
                    assert forall|l: int, m: int| 0 <= l < di + 1 && si + 1 <= m < os.ncols() implies #[trigger] od.key(l) < #[trigger] os.key(m) by {
                        if l == di {
                            assert(os.key(si as int) < os.key(m));
                        }
                    }
                }
                si = si + 1;
                di = di + 1;
            }
        }
        proof {
            assert forall|l: int, r: int| 0 <= l < od.ncols() && 0 <= r < od.capacity implies
                #[trigger] dst.cell(l, r) == if r == dst_row && os.has(od.key(l)) {
                    os.cell(os.col_of(od.key(l)), src_row as int)
                } else {
                    od.cell(l, r)
                } by {
                if l >= di && r == dst_row {
                    assert forall|m: int| 0 <= m < os.ncols() implies os.key(m) != od.key(l) by {
                        assert(os.key(m) < od.key(l));
                    }
                }
            }
            assert forall|m: int, r: int| 0 <= m < os.ncols() && 0 <= r < os.capacity implies
                #[trigger] src.cell(m, r) == if r == src_row && od.has(os.key(m)) {
                    None
                } else {
                    os.cell(m, r)
                } by {
                if m >= si && r == src_row {
                    assert forall|l: int| 0 <= l < od.ncols() implies od.key(l) != os.key(m) by {
                        assert(od.key(l) < os.key(m));
                    }
                }
            }
        }
        let last = src.len - 1;
        if src_row != last {
            src.move_row(last, src_row);
        }
        let ghost pre = *src;
        src.len = last;
        proof {
            Self::lemma_shape_frame(&pre, src);
            assert forall|k: int, r: int| 0 <= k < os.ncols() && 0 <= r < src.len implies
                #[trigger] src.cell(k, r) == if r == src_row {
                    os.cell(k, os.len - 1)
                } else {
                    os.cell(k, r)
                } by {
                assert(src.cell(k, r) == pre.cell(k, r));
            }
            assert forall|r: int| 0 <= r < src.len implies #[trigger] src.filled(r) by {
                assert forall|k: int| 0 <= k < src.ncols() implies (#[trigger] src.cell(k, r)) is Some by {
                    assert(src.cell(k, r) == pre.cell(k, r));
                    if r == src_row {
                        assert(os.filled(last as int));
                        assert(os.cell(k, last as int) is Some);
                    } else {
                        assert(os.filled(r));
                        assert(os.cell(k, r) is Some);
                    }
                }
            }
        }
    }

    /// Moves the entity `entity_id` from row `src_row` of `src` into a new row
    /// of `dst`: the values of the components that both have move over (see
    /// `swap`), the last entity of `src` takes the vacated row, and the new row
    /// of `dst` records `entity_id`. Returns the new row and, if another entity
    /// moved inside `src`, that entity's id.
    pub fn move_entity(src: &mut Self, src_row: usize, dst: &mut Self, entity_id: EntityId) -> (r: (usize, Option<EntityId>))
        requires
            old(src).shape_wf(),
            forall|r: int| 0 <= r < old(src).len && r != src_row ==> #[trigger] old(src).filled(r),
            old(dst).shape_wf(),
            src_row < old(src).len,
            old(dst).len < old(dst).capacity,
        ensures
            r.0 == old(dst).len,
            r.1 == if src_row == old(src).len - 1 {
                None
            } else {
                Some(old(src).entities@[old(src).len - 1])
            },
            final(dst).id_to_index == old(dst).id_to_index,
            final(dst).component_bits == old(dst).component_bits,
            final(dst).capacity == old(dst).capacity,
            final(dst).len == old(dst).len + 1,
            final(dst).data@.len() == old(dst).data@.len(),
            final(dst).shape_wf(),
            final(dst).entities@ == old(dst).entities@.update(r.0 as int, entity_id),
            forall|k: int, row: int| 0 <= k < old(dst).ncols() && 0 <= row < old(dst).capacity ==>
                #[trigger] final(dst).cell(k, row) == if row == r.0 && old(src).has(old(dst).key(k)) {
                    old(src).cell(old(src).col_of(old(dst).key(k)), src_row as int)
                } else {
                    old(dst).cell(k, row)
                },
            final(src).id_to_index == old(src).id_to_index,
            final(src).component_bits == old(src).component_bits,
            final(src).capacity == old(src).capacity,
            final(src).len == old(src).len - 1,
            final(src).data@.len() == old(src).data@.len(),
            final(src).wf(),
            forall|k: int, row: int| 0 <= k < old(src).ncols() && 0 <= row < final(src).len ==>
                #[trigger] final(src).cell(k, row) == if row == src_row {
                    old(src).cell(k, old(src).len - 1)
                } else {
                    old(src).cell(k, row)
                },
            forall|row: int| 0 <= row < final(src).len ==>
                #[trigger] final(src).entities@[row] == if row == src_row {
                    old(src).entities@[old(src).len - 1]
                } else {
                    old(src).entities@[row]
                },
    {
        let last_row = src.len - 1;
        let dst_row = dst.reserve();
        Self::swap(src, src_row, dst, dst_row);
        let ghost src_mid = *src;
        let mut moved_last_entity = None;
        if src_row != last_row {
            let last_id = src.entities[last_row];
            src.entities.set(src_row, last_id);
            proof {
                Self::lemma_shape_frame(&src_mid, src);
            }
            moved_last_entity = Some(last_id);
        }
        proof {
            assert forall|row: int| 0 <= row < src.len implies #[trigger] src.filled(row) by {
                assert forall|k: int| 0 <= k < src.ncols() implies (#[trigger] src.cell(k, row)) is Some by {
                    assert(src.cell(k, row) == src_mid.cell(k, row));
                    assert(src_mid.filled(row));
                }
            }
            assert forall|k: int, row: int| 0 <= k < old(src).ncols() && 0 <= row < src.len implies
                #[trigger] src.cell(k, row) == if row == src_row {
                    old(src).cell(k, old(src).len - 1)
                } else {
                    old(src).cell(k, row)
                } by {
                assert(src.cell(k, row) == src_mid.cell(k, row));
            }
        }
        let ghost pre = *dst;
        dst.entities.set(dst_row, entity_id);
        proof {
            Self::lemma_shape_frame(&pre, dst);
            assert forall|k: int, row: int| 0 <= k < old(dst).ncols() && 0 <= row < old(dst).capacity implies
                #[trigger] dst.cell(k, row) == if row == dst_row && old(src).has(old(dst).key(k)) {
                    old(src).cell(old(src).col_of(old(dst).key(k)), src_row as int)
                } else {
                    old(dst).cell(k, row)
                } by {
                assert(dst.cell(k, row) == pre.cell(k, row));
            }
        }
        (dst_row, moved_last_entity)
    }

    /// Drops the values of the components in `to_drop` at row `row`.
    pub fn drop_row_components(&mut self, to_drop: BitSet, row: usize)
        requires
            old(self).shape_wf(),
            row < old(self).capacity,
            forall|c: usize| #[trigger] to_drop@.contains(c) ==> old(self).has(c),
        ensures
            final(self).id_to_index == old(self).id_to_index,
            final(self).component_bits == old(self).component_bits,
            final(self).entities == old(self).entities,
            final(self).capacity == old(self).capacity,
            final(self).len == old(self).len,
            final(self).data@.len() == old(self).data@.len(),
            final(self).shape_wf(),
            forall|k: int, r: int| 0 <= k < old(self).ncols() && 0 <= r < old(self).capacity ==>
                #[trigger] final(self).cell(k, r) == if r == row && to_drop@.contains(old(self).key(k)) {
                    None
                } else {
                    old(self).cell(k, r)
                },
    {
        let mut it = to_drop.iter();
        loop
            invariant
                self.id_to_index == old(self).id_to_index,
                self.component_bits == old(self).component_bits,
                self.entities == old(self).entities,
                self.capacity == old(self).capacity,
                self.len == old(self).len,
                self.data@.len() == old(self).data@.len(),
                self.shape_wf(),
                row < self.capacity,
                forall|c: usize| #[trigger] to_drop@.contains(c) ==> old(self).has(c),
                forall|c: usize| #[trigger] it@.contains(c) ==> to_drop@.contains(c),
                forall|k: int, r: int| 0 <= k < old(self).ncols() && 0 <= r < old(self).capacity ==>
                    #[trigger] self.cell(k, r) == if r == row && to_drop@.contains(old(self).key(k)) && !it@.contains(old(self).key(k)) {
                        None
                    } else {
                        old(self).cell(k, r)
                    },
            ensures
                it@ == Set::<usize>::empty(),
            decreases it.remaining_measure(),
        {
            let ghost before = it@;
            match it.next() {
                None => break,
                Some(id) => {
                    proof {
                        assert(to_drop@.contains(id));
                        assert(self.has(id));
                        let k = choose|k: int| 0 <= k < self.ncols() && #[trigger] self.key(k) == id;
                    }
                    let col_index = *self.id_to_index.get(&id).expect("Hmm");
                    proof {
                        self.lemma_col_of(id);
                        assert(col_index == self.col_of(id));
                    }
                    let ghost pre = *self;
                    let taken = self.data[col_index][row].take();
                    if let Some(slot) = taken {
                        // The value leaves its slot here, and its destructor runs.
                        let _value: V = ManuallyDrop::into_inner(slot);
                    }
                    proof {
                        assert(self.data@[col_index as int]@ == pre.data@[col_index as int]@.update(row as int, None));
                        assert(forall|j: int| 0 <= j < self.data@.len() && j != col_index ==> #[trigger] self.data@[j] == pre.data@[j]);
                        assert forall|j: int| 0 <= j < self.ncols() implies (#[trigger] self.data@[j])@.len() == self.capacity by {
                            if j != col_index {
                                assert(self.data@[j] == pre.data@[j]);
                            }
                        }
                        Self::lemma_shape_frame(&pre, self);
                        assert forall|k: int, r: int| 0 <= k < old(self).ncols() && 0 <= r < old(self).capacity implies
                            #[trigger] self.cell(k, r) == if r == row && to_drop@.contains(old(self).key(k)) && !it@.contains(old(self).key(k)) {
                                None
                            } else {
                                old(self).cell(k, r)
                            } by {
                            assert(pre.cell(k, r) == if r == row && to_drop@.contains(old(self).key(k)) && !before.contains(old(self).key(k)) {
                                None
                            } else {
                                old(self).cell(k, r)
                            });
                            if k != col_index {
                                assert(self.data@[k] == pre.data@[k]);
                                assert(self.key(k) != id);
                            }
                        }
                    }
                },
            }
        }
    }

    /// Replaces the values in columns `cols` of row `r` by what `f` returns
    /// when given the row's entity and those values, in order. Returns that one
    /// call of `f`: its arguments and its result.
    pub fn map_row<F: Fn(EntityId, Vec<V>) -> Vec<V>>(&mut self, r: usize, cols: &Vec<usize>, f: &F) -> (call: Ghost<((EntityId, Vec<V>), Vec<V>)>)
        requires
            old(self).wf(),
            r < old(self).len,
            forall|j: int| 0 <= j < cols@.len() ==> 0 <= #[trigger] cols@[j] < old(self).ncols(),
            cols@.no_duplicates(),
            forall|args: (EntityId, Vec<V>)| call_requires(*f, args),
            forall|args: (EntityId, Vec<V>), out: Vec<V>| call_ensures(*f, args, out) ==> out@.len() == args.1@.len(),
        ensures
            final(self).id_to_index == old(self).id_to_index,
            final(self).component_bits == old(self).component_bits,
            final(self).entities == old(self).entities,
            final(self).capacity == old(self).capacity,
            final(self).len == old(self).len,
            final(self).data@.len() == old(self).data@.len(),
            final(self).wf(),
            row_mapped(*f, *old(self), *final(self), cols@, r as int),
            call_ensures(*f, call@.0, call@.1),
            call@.0.0 == old(self).entities@[r as int],
            call@.0.1@ == row_values(*old(self), cols@, r as int),
            call@.1@.len() == cols@.len(),
            forall|l: int| 0 <= l < cols@.len() ==> #[trigger] final(self).cell(cols@[l] as int, r as int) == Some(call@.1@[l]),
            forall|k: int, r2: int| 0 <= k < old(self).ncols() && 0 <= r2 < old(self).capacity && (r2 != r || !cols@.contains(k as usize)) ==>
                #[trigger] final(self).cell(k, r2) == old(self).cell(k, r2),
    {
        let ghost a0 = *self;
        let mut vals: Vec<V> = Vec::new();
        let mut j: usize = 0;
        while j < cols.len()
            invariant
                self.id_to_index == a0.id_to_index,
                self.component_bits == a0.component_bits,
                self.entities == a0.entities,
                self.capacity == a0.capacity,
                self.len == a0.len,
                self.data@.len() == a0.data@.len(),
                self.shape_wf(),
                a0.wf(),
                r < a0.len,
                forall|l: int| 0 <= l < cols@.len() ==> 0 <= #[trigger] cols@[l] < a0.ncols(),
                cols@.no_duplicates(),
                j <= cols@.len(),
                vals@.len() == j,
                forall|l: int| 0 <= l < j ==> #[trigger] vals@[l] == a0.cell(cols@[l] as int, r as int)->Some_0,
                forall|k: int, r2: int| 0 <= k < a0.ncols() && 0 <= r2 < a0.capacity ==>
                    #[trigger] self.cell(k, r2) == if r2 == r && (exists|l: int| 0 <= l < j && cols@[l] == k) {
                        None
                    } else {
                        a0.cell(k, r2)
                    },
            decreases cols@.len() - j,
        {
            let c = cols[j];
            let ghost pre = *self;
            proof {
                assert(a0.filled(r as int));
                assert(pre.cell(c as int, r as int) == a0.cell(c as int, r as int)) by {
                    if exists|l: int| 0 <= l < j && cols@[l] == c {
                        let l = choose|l: int| 0 <= l < j && cols@[l] == c;
                        assert(cols@[l] == cols@[j as int]);
                    }
                }
            }
            let v = ManuallyDrop::into_inner(self.data[c][r].take().unwrap());
            vals.push(v);
            proof {
                assert(self.data@[c as int]@ == pre.data@[c as int]@.update(r as int, None));
                assert(forall|k: int| 0 <= k < self.data@.len() && k != c ==> #[trigger] self.data@[k] == pre.data@[k]);
                assert forall|k: int| 0 <= k < self.ncols() implies (#[trigger] self.data@[k])@.len() == self.capacity by {
                    if k != c {
                        assert(self.data@[k] == pre.data@[k]);
                    }
                }
                Self::lemma_shape_frame(&pre, self);
                assert forall|k: int, r2: int| 0 <= k < a0.ncols() && 0 <= r2 < a0.capacity implies
                    #[trigger] self.cell(k, r2) == if r2 == r && (exists|l: int| 0 <= l < j + 1 && cols@[l] == k) {
                        None
                    } else {
                        a0.cell(k, r2)
                    } by {
                    assert(pre.cell(k, r2) == if r2 == r && (exists|l: int| 0 <= l < j && cols@[l] == k) {
                        None
                    } else {
                        a0.cell(k, r2)
                    });
                    if k != c {
                        assert(self.data@[k] == pre.data@[k]);
                        if exists|l: int| 0 <= l < j + 1 && cols@[l] == k {
                            let l = choose|l: int| 0 <= l < j + 1 && cols@[l] == k;
                            assert(l != j);
                        }
                    } else {
                        assert(cols@[j as int] == k);
                    }
                }
            }
            j = j + 1;
        }
        let e = self.entities[r];
        let ghost args = (e, vals);
        let ghost olds = vals@;
        let out = f(e, vals);
        let ghost out_g = out;
        let ghost news = out@;
        proof {
            assert(olds =~= row_values(a0, cols@, r as int));
        }
        let mut out = out;
        let mut j: usize = cols.len();
        while j > 0
            invariant
                self.id_to_index == a0.id_to_index,
                self.component_bits == a0.component_bits,
                self.entities == a0.entities,
                self.capacity == a0.capacity,
                self.len == a0.len,
                self.data@.len() == a0.data@.len(),
                self.shape_wf(),
                a0.wf(),
                r < a0.len,
                forall|l: int| 0 <= l < cols@.len() ==> 0 <= #[trigger] cols@[l] < a0.ncols(),
                cols@.no_duplicates(),
                news.len() == cols@.len(),
                j <= cols@.len(),
                out@ == news.subrange(0, j as int),
                forall|k: int, r2: int| 0 <= k < a0.ncols() && 0 <= r2 < a0.capacity ==>
                    #[trigger] self.cell(k, r2) == if r2 == r && (exists|l: int| 0 <= l < j && cols@[l] == k) {
                        None
                    } else if r2 == r && (exists|l: int| j <= l < cols@.len() && cols@[l] == k) {
                        Some(news[choose|l: int| j <= l < cols@.len() && cols@[l] == k])
                    } else {
                        a0.cell(k, r2)
                    },
            decreases j,
        {
            j = j - 1;
            let c = cols[j];
            let v = out.pop().unwrap();
            let ghost pre = *self;
            let stored = ManuallyDrop::new(v);
            self.data[c][r] = Some(stored);
            proof {
                assert(v == news[j as int]);
                assert(out@ =~= news.subrange(0, j as int));
                assert(self.data@[c as int]@ == pre.data@[c as int]@.update(r as int, Some(stored)));
                assert(forall|k: int| 0 <= k < self.data@.len() && k != c ==> #[trigger] self.data@[k] == pre.data@[k]);
                assert forall|k: int| 0 <= k < self.ncols() implies (#[trigger] self.data@[k])@.len() == self.capacity by {
                    if k != c {
                        assert(self.data@[k] == pre.data@[k]);
                    }
                }
                Self::lemma_shape_frame(&pre, self);
                assert forall|k: int, r2: int| 0 <= k < a0.ncols() && 0 <= r2 < a0.capacity implies
                    #[trigger] self.cell(k, r2) == if r2 == r && (exists|l: int| 0 <= l < j && cols@[l] == k) {
                        None
                    } else if r2 == r && (exists|l: int| j <= l < cols@.len() && cols@[l] == k) {
                        Some(news[choose|l: int| j <= l < cols@.len() && cols@[l] == k])
                    } else {
                        a0.cell(k, r2)
                    } by {
                    assert(pre.cell(k, r2) == if r2 == r && (exists|l: int| 0 <= l < j + 1 && cols@[l] == k) {
                        None
                    } else if r2 == r && (exists|l: int| j + 1 <= l < cols@.len() && cols@[l] == k) {
                        Some(news[choose|l: int| j + 1 <= l < cols@.len() && cols@[l] == k])
                    } else {
                        a0.cell(k, r2)
                    });
                    if k != c {
                        assert(self.data@[k] == pre.data@[k]);
                        if exists|l: int| 0 <= l < j + 1 && cols@[l] == k {
                            let l = choose|l: int| 0 <= l < j + 1 && cols@[l] == k;
                            assert(l != j);
                            assert(exists|l: int| 0 <= l < j && cols@[l] == k);
                        }
                        if exists|l: int| j <= l < cols@.len() && cols@[l] == k {
                            let l = choose|l: int| j <= l < cols@.len() && cols@[l] == k;
                            assert(l != j);
                            assert(exists|l: int| j + 1 <= l < cols@.len() && cols@[l] == k);
                            let l2 = choose|l: int| j + 1 <= l < cols@.len() && cols@[l] == k;
                            assert(cols@[l] == cols@[l2]);
                        }
                    } else {
                        assert(cols@[j as int] == k);
                        assert(exists|l: int| j <= l < cols@.len() && cols@[l] == k);
                        let l2 = choose|l: int| j <= l < cols@.len() && cols@[l] == k;
                        assert(cols@[l2] == cols@[j as int]);
                        if exists|l: int| 0 <= l < j && cols@[l] == k {
                            let l = choose|l: int| 0 <= l < j && cols@[l] == k;
                            assert(cols@[l] == cols@[j as int]);
                        }
                    }
                }
            }
        }
        proof {
            assert forall|l: int| 0 <= l < cols@.len() implies #[trigger] self.cell(cols@[l] as int, r as int) == Some(news[l]) by {
                assert(exists|l2: int| 0 <= l2 < cols@.len() && cols@[l2] == cols@[l]);
                let l2 = choose|l2: int| 0 <= l2 < cols@.len() && cols@[l2] == cols@[l];
                assert(l2 == l);
            }
            assert(row_mapped(*f, a0, *self, cols@, r as int)) by {
                assert(call_ensures(*f, args, out_g));
            }
            assert forall|r2: int| 0 <= r2 < self.len implies #[trigger] self.filled(r2) by {
                assert forall|k: int| 0 <= k < self.ncols() implies (#[trigger] self.cell(k, r2)) is Some by {
                    assert(a0.filled(r2));
                    if r2 == r && cols@.contains(k as usize) {
                        let l = choose|l: int| 0 <= l < cols@.len() && cols@[l] == k as usize;
                        assert(self.cell(cols@[l] as int, r as int) == Some(news[l]));
                    }
                }
            }
            assert forall|k: int, r2: int| 0 <= k < a0.ncols() && 0 <= r2 < a0.capacity && (r2 != r || !cols@.contains(k as usize)) implies
                #[trigger] self.cell(k, r2) == a0.cell(k, r2) by {
                if r2 == r {
                    if exists|l: int| 0 <= l < cols@.len() && cols@[l] == k {
                        let l = choose|l: int| 0 <= l < cols@.len() && cols@[l] == k;
                        assert(cols@.contains(k as usize));
                    }
                }
            }
            assert(call_ensures(*f, args, out_g));
        }
        Ghost((args, out_g))
    }

    /// Takes the next free row and returns its index.
    pub fn reserve(&mut self) -> (r: usize)
        requires
            old(self).shape_wf(),
            old(self).len < old(self).capacity,
        ensures
            r == old(self).len,
            *final(self) == (Archetype { len: (old(self).len + 1) as usize, ..*old(self) }),
            final(self).shape_wf(),
    {
        let vacant = self.len;
        self.len = self.len + 1;
        proof {
            Self::lemma_shape_frame(old(self), self);
        }
        vacant
    }
}


/// Row `r` of archetype `a` holds an entity whose slot is in use, at the id's
/// generation, and records this very row as its location.
pub open spec fn row_linked<V>(ents: Entities, archs: Seq<Archetype<V>>, a: int, r: int) -> bool {
    let e = archs[a].entities@[r];
    let i = entity::spec_entity_index(e) as int;
    &&& i < ents.entries@.len()
    &&& !ents.is_free(i)
    &&& ents.version_of(i) == entity::spec_entity_version(e)
    &&& ents.location_of(i) == (EntityLocation { archetype_id: a as u32, row: r as u32 })
}

/// Slot `i`, in use, has a generation that fits an id and records a row in use
/// whose entity is the slot's current id.
pub open spec fn slot_linked<V>(ents: Entities, archs: Seq<Archetype<V>>, i: int) -> bool {
    let l = ents.location_of(i);
    &&& ents.version_of(i) < MAX_GENERATIONS
    &&& l.archetype_id < archs.len()
    &&& l.row < archs[l.archetype_id as int].len
    &&& archs[l.archetype_id as int].entities@[l.row as int] == entity::spec_make_entity(i as u32, ents.version_of(i))
}

/// The slots in use and the rows in use name each other.
pub open spec fn linked<V>(ents: Entities, archs: Seq<Archetype<V>>) -> bool {
    &&& forall|a: int, r: int| 0 <= a < archs.len() && 0 <= r < archs[a].len ==> #[trigger] row_linked(ents, archs, a, r)
    &&& forall|i: int| 0 <= i < ents.entries@.len() && !ents.is_free(i) ==> #[trigger] slot_linked(ents, archs, i)
}

/// Whether `e` names a live entity: its slot is in use at `e`'s generation.
pub open spec fn entity_live(ents: Entities, e: EntityId) -> bool {
    let i = entity::spec_entity_index(e) as int;
    &&& i < ents.entries@.len()
    &&& !ents.is_free(i)
    &&& ents.version_of(i) == entity::spec_entity_version(e)
}

/// The components stored at the location that `e`'s slot records.
pub open spec fn entity_components<V>(ents: Entities, archs: Seq<Archetype<V>>, e: EntityId) -> Map<usize, V> {
    let l = ents.location_of(entity::spec_entity_index(e) as int);
    archs[l.archetype_id as int].row_map(l.row as int)
}

/// The live entities, each with its components by id.
pub open spec fn live_map<V>(ents: Entities, archs: Seq<Archetype<V>>) -> Map<EntityId, Map<usize, V>> {
    Map::new(|e: EntityId| entity_live(ents, e), |e: EntityId| entity_components(ents, archs, e))
}

/// A row mapped column by column (`Archetype::map_row`) is updated component by
/// component.
pub proof fn lemma_row_mapped_updated<V, F: Fn(EntityId, Vec<V>) -> Vec<V>>(
    f: F,
    a0: Archetype<V>,
    cur: Archetype<V>,
    next: Archetype<V>,
    cols: Seq<usize>,
    ids: Seq<usize>,
    r: int,
    call: ((EntityId, Vec<V>), Vec<V>),
)
    requires
        a0.wf(),
        0 <= r < a0.len,
        cur.id_to_index == a0.id_to_index,
        cur.component_bits == a0.component_bits,
        cur.data@.len() == a0.data@.len(),
        cur.entities == a0.entities,
        next.id_to_index == a0.id_to_index,
        next.component_bits == a0.component_bits,
        next.data@.len() == a0.data@.len(),
        forall|k: int| 0 <= k < a0.ncols() ==> #[trigger] cur.cell(k, r) == a0.cell(k, r),
        call_ensures(f, call.0, call.1),
        call.0.0 == cur.entities@[r],
        call.0.1@ == row_values(cur, cols, r),
        call.1@.len() == cols.len(),
        forall|l: int| 0 <= l < cols.len() ==> #[trigger] next.cell(cols[l] as int, r) == Some(call.1@[l]),
        forall|k: int| 0 <= k < a0.ncols() && !cols.contains(k as usize) ==> #[trigger] next.cell(k, r) == cur.cell(k, r),
        cols.len() == ids.len(),
        forall|l: int| 0 <= l < ids.len() ==> a0.has(#[trigger] ids[l]),
        forall|l: int| 0 <= l < ids.len() ==> #[trigger] cols[l] == a0.col_of(ids[l]),
        ids.no_duplicates(),
    ensures
        row_updated_by(f, a0, next, ids, r, call),
        row_updated(f, a0, next, ids, r),
{
    let (args, out) = call;
    let m0 = a0.row_map(r);
    assert forall|l: int| 0 <= l < ids.len() implies #[trigger] row_values(cur, cols, r)[l] == ids.map_values(|c: usize| m0[c])[l] by {
        a0.lemma_col_of(ids[l]);
    }
    assert(args.1@ =~= ids.map_values(|c: usize| m0[c]));
    assert forall|c: usize| #[trigger] next.row_map(r).contains_key(c) <==> assign(m0, ids, out@).contains_key(c) by {}
    assert forall|c: usize| a0.has(c) implies #[trigger] next.row_map(r)[c] == assign(m0, ids, out@)[c] by {
        a0.lemma_col_of(c);
        assert(next.col_of(c) == a0.col_of(c));
        if ids.contains(c) {
            let l = ids.index_of(c);
            assert(ids[l] == c);
            assert(next.cell(cols[l] as int, r) == Some(out@[l]));
        } else {
            let k = a0.col_of(c);
            assert(0 <= k < a0.ncols());
            assert(a0.data@.len() == a0.data.len());
            assert((k as usize) as int == k);
            if cols.contains(k as usize) {
                let l = choose|l: int| 0 <= l < cols.len() && cols[l] == k as usize;
                a0.lemma_col_of(ids[l]);
                assert(a0.col_of(ids[l]) == k);
                assert(a0.key(k) == ids[l]);
                assert(ids[l] == c);
                assert(ids.contains(c));
            }
            assert(next.cell(k, r) == cur.cell(k, r));
        }
    }
    assert(next.row_map(r) =~= assign(m0, ids, out@));
}

/// Two rows with the same values in every column have the same components.
pub proof fn lemma_row_map_eq<V>(a: Archetype<V>, b: Archetype<V>, ra: int, rb: int)
    requires
        a.shape_wf(),
        b.id_to_index == a.id_to_index,
        b.component_bits == a.component_bits,
        b.data@.len() == a.data@.len(),
        forall|k: int| 0 <= k < a.ncols() ==> #[trigger] b.cell(k, rb) == a.cell(k, ra),
    ensures
        b.row_map(rb) == a.row_map(ra),
{
    assert forall|c: usize| a.has(c) implies #[trigger] b.row_map(rb)[c] == a.row_map(ra)[c] by {
        a.lemma_col_of(c);
        assert(b.col_of(c) == a.col_of(c));
    }
    assert(b.row_map(rb) =~= a.row_map(ra));
}

/// Moving the live entity `id` from row `rr` of archetype `aa` into the one row
/// of a new archetype pushed at the end (the last row of `aa` taking its place,
/// and the slots recording the new locations) keeps slots and rows linked, and
/// changes no entity's components but `id`'s.
pub proof fn lemma_migrate<V>(
    e0: Entities,
    a0: Seq<Archetype<V>>,
    e1: Entities,
    a1: Seq<Archetype<V>>,
    id: EntityId,
    aa: int,
    rr: int,
    moved: Option<EntityId>,
)
    requires
        e0.wf(),
        linked(e0, a0),
        forall|a: int| 0 <= a < a0.len() ==> (#[trigger] a0[a]).wf(),
        a0.len() <= u32::MAX,
        entity_live(e0, id),
        0 <= aa < a0.len(),
        0 <= rr < a0[aa].len,
        e0.location_of(entity::spec_entity_index(id) as int) == (EntityLocation { archetype_id: aa as u32, row: rr as u32 }),
        a1.len() == a0.len() + 1,
        forall|a: int| 0 <= a < a0.len() && a != aa ==> #[trigger] a1[a] == a0[a],
        a1[aa].len == a0[aa].len - 1,
        a1[aa].id_to_index == a0[aa].id_to_index,
        a1[aa].component_bits == a0[aa].component_bits,
        a1[aa].data@.len() == a0[aa].data@.len(),
        forall|r: int| 0 <= r < a1[aa].len ==> #[trigger] a1[aa].entities@[r] == if r == rr {
            a0[aa].entities@[a0[aa].len - 1]
        } else {
            a0[aa].entities@[r]
        },
        forall|k: int, r: int| 0 <= k < a0[aa].ncols() && 0 <= r < a1[aa].len ==> #[trigger] a1[aa].cell(k, r) == if r == rr {
            a0[aa].cell(k, a0[aa].len - 1)
        } else {
            a0[aa].cell(k, r)
        },
        a1[a0.len() as int].len == 1,
        a1[a0.len() as int].entities@[0] == id,
        forall|a: int| 0 <= a < a1.len() ==> (#[trigger] a1[a]).wf(),
        e1.wf(),
        e1.entries@.len() == e0.entries@.len(),
        e1.free@ == e0.free@,
        moved == if rr == a0[aa].len - 1 {
            None
        } else {
            Some(a0[aa].entities@[a0[aa].len - 1])
        },
        forall|k: int| 0 <= k < e0.entries@.len() ==> #[trigger] e1.version_of(k) == e0.version_of(k),
        forall|k: int| 0 <= k < e0.entries@.len() ==> #[trigger] e1.location_of(k) == if k == entity::spec_entity_index(id) {
            EntityLocation { archetype_id: a0.len() as u32, row: 0 }
        } else if moved is Some && k == entity::spec_entity_index(moved->Some_0) {
            EntityLocation { archetype_id: aa as u32, row: rr as u32 }
        } else {
            e0.location_of(k)
        },
    ensures
        linked(e1, a1),
        live_map(e1, a1) == live_map(e0, a0).insert(id, a1[a0.len() as int].row_map(0)),
{
    let i = entity::spec_entity_index(id) as int;
    let n = a0.len() as int;
    let ll = a0[aa].len - 1;
    let last_id = a0[aa].entities@[ll];
    let j = entity::spec_entity_index(last_id) as int;
    assert(slot_linked(e0, a0, i));
    entity::lemma_entity_from_parts(id);
    assert(row_linked(e0, a0, aa, ll));
    assert(forall|k: int| 0 <= k < e0.entries@.len() ==> (#[trigger] e1.is_free(k)) == e0.is_free(k));
    if rr != ll {
        if j == i {
            assert(e0.location_of(i) == (EntityLocation { archetype_id: aa as u32, row: ll as u32 }));
        }
        assert(j != i);
    }
    // two slots in use with the same location are the same slot
    assert forall|k: int| 0 <= k < e0.entries@.len() && !e0.is_free(k) && e0.location_of(k).archetype_id == aa
        && (e0.location_of(k).row == rr || e0.location_of(k).row == ll) implies
        (#[trigger] e0.location_of(k).row == rr ==> k == i) && (e0.location_of(k).row == ll ==> k == j) by {
        assert(slot_linked(e0, a0, k));
        entity::lemma_entity_roundtrip(k as u32, e0.version_of(k));
        entity::lemma_entity_roundtrip(i as u32, e0.version_of(i));
    }
    assert forall|a: int, r: int| 0 <= a < a1.len() && 0 <= r < a1[a].len implies #[trigger] row_linked(e1, a1, a, r) by {
        if a == n {
            assert(r == 0);
        } else if a != aa {
            assert(a1[a] == a0[a]);
            assert(row_linked(e0, a0, a, r));
            let k = entity::spec_entity_index(a0[a].entities@[r]) as int;
            assert(k != i);
            assert(k != j);
        } else if r == rr {
            assert(a1[a].entities@[r] == last_id);
        } else {
            assert(a1[a].entities@[r] == a0[a].entities@[r]);
            assert(row_linked(e0, a0, a, r));
            let k = entity::spec_entity_index(a0[a].entities@[r]) as int;
            assert(k != i);
            assert(k != j);
        }
    }
    assert forall|k: int| 0 <= k < e1.entries@.len() && !e1.is_free(k) implies #[trigger] slot_linked(e1, a1, k) by {
        assert(slot_linked(e0, a0, k));
        if k == i {
        } else if rr != ll && k == j {
            assert(a1[aa].entities@[rr] == a0[aa].entities@[ll]);
        } else {
            let l = e0.location_of(k);
            if l.archetype_id == aa {
                assert(l.row != rr);
                assert(l.row != ll);
                assert(a1[aa].entities@[l.row as int] == a0[aa].entities@[l.row as int]);
            } else {
                assert(a1[l.archetype_id as int] == a0[l.archetype_id as int]);
            }
        }
    }
    assert forall|e: EntityId| #[trigger] entity_live(e1, e) == entity_live(e0, e) by {}
    assert forall|e: EntityId| entity_live(e1, e) && e != id implies #[trigger] entity_components(e1, a1, e) == entity_components(e0, a0, e) by {
        let k = entity::spec_entity_index(e) as int;
        entity::lemma_entity_from_parts(e);
        assert(entity_live(e0, e));
        if k == i {
            assert(entity::spec_entity_version(e) == entity::spec_entity_version(id));
            assert(e == id);
        }
        assert(k != i);
        assert(slot_linked(e0, a0, k));
        if rr != ll && k == j {
            lemma_row_map_eq(a0[aa], a1[aa], ll, rr);
        } else {
            let l = e0.location_of(k);
            if l.archetype_id == aa {
                assert(l.row != rr);
                assert(l.row != ll);
                assert(l.row < a1[aa].len);
                assert forall|c: int| 0 <= c < a0[aa].ncols() implies #[trigger] a1[aa].cell(c, l.row as int) == a0[aa].cell(c, l.row as int) by {}
                lemma_row_map_eq(a0[aa], a1[aa], l.row as int, l.row as int);
            } else {
                assert(a1[l.archetype_id as int] == a0[l.archetype_id as int]);
            }
        }
    }
    assert(live_map(e1, a1) =~= live_map(e0, a0).insert(id, a1[n].row_map(0)));
}

/// The values in columns `cols` of row `r`, in order.
pub open spec fn row_values<V>(a: Archetype<V>, cols: Seq<usize>, r: int) -> Seq<V> {
    cols.map_values(|c: usize| a.cell(c as int, r)->Some_0)
}

/// Row `r` of `a1` holds, in columns `cols`, a result of `f` on the entity of
/// the row and its values there in `a0`.
pub open spec fn row_mapped<V, F: Fn(EntityId, Vec<V>) -> Vec<V>>(
    f: F,
    a0: Archetype<V>,
    a1: Archetype<V>,
    cols: Seq<usize>,
    r: int,
) -> bool {
    exists|args: (EntityId, Vec<V>), out: Vec<V>|
        #[trigger] call_ensures(f, args, out) && args.0 == a0.entities@[r] && args.1@ == row_values(a0, cols, r)
            && out@.len() == cols.len() && forall|l: int| 0 <= l < cols.len() ==> #[trigger] a1.cell(cols[l] as int, r) == Some(out@[l])
}

/// What a mapping query leaves in row `r`: if the archetype has all of `ids`,
/// the row is updated by `f`, else it is unchanged.
pub open spec fn row_result<V, F: Fn(EntityId, Vec<V>) -> Vec<V>>(
    f: F,
    a0: Archetype<V>,
    a1: Archetype<V>,
    ids: Seq<usize>,
    r: int,
) -> bool {
    if ids.to_set().subset_of(a0.component_bits@) {
        row_updated(f, a0, a1, ids, r)
    } else {
        a1.row_map(r) == a0.row_map(r)
    }
}

/// `m` with the values of `ids` replaced by `vals`, in order.
pub open spec fn assign<V>(m: Map<usize, V>, ids: Seq<usize>, vals: Seq<V>) -> Map<usize, V> {
    Map::new(|c: usize| m.dom().contains(c), |c: usize| if ids.contains(c) { vals[ids.index_of(c)] } else { m[c] })
}

/// Row `r` of `a1` holds the components of row `r` of `a0`, with the values of
/// `ids` replaced by a result of `f` on the row's entity and those values.
pub open spec fn row_updated<V, F: Fn(EntityId, Vec<V>) -> Vec<V>>(
    f: F,
    a0: Archetype<V>,
    a1: Archetype<V>,
    ids: Seq<usize>,
    r: int,
) -> bool {
    exists|args: (EntityId, Vec<V>), out: Vec<V>|
        #[trigger] call_ensures(f, args, out) && args.0 == a0.entities@[r] && args.1@ == ids.map_values(|c: usize| a0.row_map(r)[c])
            && out@.len() == ids.len() && a1.row_map(r) == assign(a0.row_map(r), ids, out@)
}

/// Row `r` of `a1` holds the components of row `r` of `a0`, with the values of
/// `ids` replaced by the result of `call`, a call of `f` on the row's entity and
/// those values.
pub open spec fn row_updated_by<V, F: Fn(EntityId, Vec<V>) -> Vec<V>>(
    f: F,
    a0: Archetype<V>,
    a1: Archetype<V>,
    ids: Seq<usize>,
    r: int,
    call: ((EntityId, Vec<V>), Vec<V>),
) -> bool {
    &&& call_ensures(f, call.0, call.1)
    &&& call.0.0 == a0.entities@[r]
    &&& call.0.1@ == ids.map_values(|c: usize| a0.row_map(r)[c])
    &&& call.1@.len() == ids.len()
    &&& a1.row_map(r) == assign(a0.row_map(r), ids, call.1@)
}

/// The rows that a query for the components `req` visits among the first `n`
/// archetypes: archetype by archetype, each row of every archetype that has
/// all of `req`, in row order.
pub open spec fn matching_rows<V>(archs: Seq<Archetype<V>>, req: Set<usize>, n: int) -> Seq<(int, int)>
    decreases n,
{
    if n <= 0 {
        Seq::empty()
    } else {
        let prev = matching_rows(archs, req, n - 1);
        if req.subset_of(archs[n - 1].component_bits@) {
            prev + Seq::new(archs[n - 1].len as nat, |r: int| (n - 1, r))
        } else {
            prev
        }
    }
}

/// The rows a query visits are exactly the rows in use of the archetypes that
/// have all of `req`, each once.
pub proof fn lemma_matching_rows<V>(archs: Seq<Archetype<V>>, req: Set<usize>, n: int)
    requires
        0 <= n <= archs.len(),
    ensures
        forall|k: int| 0 <= k < matching_rows(archs, req, n).len() ==> {
            let (a, r) = #[trigger] matching_rows(archs, req, n)[k];
            &&& 0 <= a < n
            &&& 0 <= r < archs[a].len
            &&& req.subset_of(archs[a].component_bits@)
        },
        forall|a: int, r: int| 0 <= a < n && 0 <= r < archs[a].len && req.subset_of(archs[a].component_bits@) ==>
            #[trigger] matching_rows(archs, req, n).contains((a, r)),
        matching_rows(archs, req, n).no_duplicates(),
    decreases n,
{
    if n > 0 {
        lemma_matching_rows(archs, req, n - 1);
        let prev = matching_rows(archs, req, n - 1);
        let cur = matching_rows(archs, req, n);
        if req.subset_of(archs[n - 1].component_bits@) {
            let tail = Seq::new(archs[n - 1].len as nat, |r: int| (n - 1, r));
            assert(cur == prev + tail);
            assert forall|a: int, r: int| 0 <= a < n && 0 <= r < archs[a].len && req.subset_of(archs[a].component_bits@) implies
                #[trigger] cur.contains((a, r)) by {
                if a < n - 1 {
                    assert(prev.contains((a, r)));
                    let k = choose|k: int| 0 <= k < prev.len() && prev[k] == (a, r);
                    assert(cur[k] == prev[k]);
                } else {
                    assert(cur[prev.len() + r] == (a, r));
                }
            }
            assert forall|k1: int, k2: int| 0 <= k1 < cur.len() && 0 <= k2 < cur.len() && k1 != k2 implies cur[k1] != cur[k2] by {
                if k1 < prev.len() && k2 < prev.len() {
                } else if k1 >= prev.len() && k2 >= prev.len() {
                } else if k1 < prev.len() {
                    let (a, r) = prev[k1];
                    assert(a < n - 1);
                } else {
                    let (a, r) = prev[k2];
                    assert(a < n - 1);
                }
            }
        } else {
            assert forall|a: int, r: int| 0 <= a < n && 0 <= r < archs[a].len && req.subset_of(archs[a].component_bits@) implies
                #[trigger] cur.contains((a, r)) by {
                assert(a < n - 1);
                assert(prev.contains((a, r)));
            }
        }
    }
}

/// Which rows a query visits depends only on the archetypes' component sets
/// and row counts.
pub proof fn lemma_matching_rows_frame<V>(a0: Seq<Archetype<V>>, a1: Seq<Archetype<V>>, req: Set<usize>, n: int)
    requires
        0 <= n <= a0.len(),
        a1.len() == a0.len(),
        forall|a: int| 0 <= a < a0.len() ==> (#[trigger] a1[a]).component_bits == a0[a].component_bits && a1[a].len == a0[a].len,
    ensures
        matching_rows(a1, req, n) == matching_rows(a0, req, n),
    decreases n,
{
    if n > 0 {
        lemma_matching_rows_frame(a0, a1, req, n - 1);
        assert(a1[n - 1].component_bits == a0[n - 1].component_bits);
    }
}

/// Appending archetypes leaves the rows that a query visits among the first
/// `n` unchanged.
pub proof fn lemma_matching_rows_prefix<V>(a0: Seq<Archetype<V>>, a1: Seq<Archetype<V>>, req: Set<usize>, n: int)
    requires
        0 <= n <= a0.len(),
        n <= a1.len(),
        forall|a: int| 0 <= a < n ==> #[trigger] a1[a] == a0[a],
    ensures
        matching_rows(a1, req, n) == matching_rows(a0, req, n),
    decreases n,
{
    if n > 0 {
        lemma_matching_rows_prefix(a0, a1, req, n - 1);
        assert(a1[n - 1] == a0[n - 1]);
    }
}

/// `s` with every occurrence of `x` taken out.
pub open spec fn seq_without<A>(s: Seq<A>, x: A) -> Seq<A>
    decreases s.len(),
{
    if s.len() == 0 {
        s
    } else {
        let rest = seq_without(s.drop_last(), x);
        if s.last() == x {
            rest
        } else {
            rest.push(s.last())
        }
    }
}

pub proof fn lemma_without_add<A>(s: Seq<A>, t: Seq<A>, x: A)
    ensures
        seq_without(s + t, x) == seq_without(s, x) + seq_without(t, x),
    decreases t.len(),
{
    if t.len() == 0 {
        assert(s + t =~= s);
        assert(seq_without(s, x) + seq_without(t, x) =~= seq_without(s, x));
    } else {
        assert((s + t).drop_last() =~= s + t.drop_last());
        lemma_without_add(s, t.drop_last(), x);
        if t.last() != x {
            assert(seq_without(s, x) + seq_without(t.drop_last(), x).push(t.last()) =~= (seq_without(s, x) + seq_without(t.drop_last(), x)).push(t.last()));
        }
    }
}

/// Taking `x` out of a sequence without repeats shortens it by one where `x`
/// occurs in it, and leaves its length otherwise.
pub proof fn lemma_without_len<A>(s: Seq<A>, x: A)
    requires
        s.no_duplicates(),
    ensures
        seq_without(s, x).len() == s.len() - if s.contains(x) { 1int } else { 0int },
    decreases s.len(),
{
    if s.len() > 0 {
        let d = s.drop_last();
        assert(d.no_duplicates());
        lemma_without_len(d, x);
        if s.last() == x {
            assert(!d.contains(x)) by {
                if d.contains(x) {
                    let k = choose|k: int| 0 <= k < d.len() && d[k] == x;
                    assert(s[k] == s[s.len() - 1]);
                }
            }
            assert(s.contains(x)) by {
                assert(s[s.len() - 1] == x);
            }
        } else {
            assert(s.contains(x) == d.contains(x)) by {
                if s.contains(x) {
                    let k = choose|k: int| 0 <= k < s.len() && s[k] == x;
                    assert(d[k] == x);
                }
                if d.contains(x) {
                    let k = choose|k: int| 0 <= k < d.len() && d[k] == x;
                    assert(s[k] == x);
                }
            }
        }
    }
}

pub proof fn lemma_without_absent<A>(s: Seq<A>, x: A)
    requires
        !s.contains(x),
    ensures
        seq_without(s, x) == s,
    decreases s.len(),
{
    if s.len() > 0 {
        assert(!s.drop_last().contains(x)) by {
            if s.drop_last().contains(x) {
                let k = choose|k: int| 0 <= k < s.drop_last().len() && s.drop_last()[k] == x;
                assert(s[k] == x);
            }
        }
        lemma_without_absent(s.drop_last(), x);
        assert(s.drop_last().push(s.last()) =~= s);
    }
}

/// Taking out `x0` before mapping by `f` is taking out `y` after, when `f`
/// maps exactly the occurrences of `x0` to `y`.
pub proof fn lemma_without_map<A, B>(s: Seq<A>, f: spec_fn(A) -> B, x0: A, y: B)
    requires
        forall|k: int| 0 <= k < s.len() ==> (f(#[trigger] s[k]) == y) == (s[k] == x0),
    ensures
        seq_without(s, x0).map_values(f) == seq_without(s.map_values(f), y),
    decreases s.len(),
{
    if s.len() > 0 {
        assert forall|k: int| 0 <= k < s.drop_last().len() implies (f(#[trigger] s.drop_last()[k]) == y) == (s.drop_last()[k] == x0) by {
            assert(s.drop_last()[k] == s[k]);
        }
        lemma_without_map(s.drop_last(), f, x0, y);
        assert(s.map_values(f).drop_last() =~= s.drop_last().map_values(f));
        assert(f(s[s.len() - 1]) == y <==> s[s.len() - 1] == x0);
        if s.last() != x0 {
            assert(seq_without(s.drop_last(), x0).push(s.last()).map_values(f) =~= seq_without(s.drop_last(), x0).map_values(f).push(f(s.last())));
        }
    }
}

/// Emptying archetype `aa`, which held one row, takes that row out of the rows
/// that queries visit.
pub proof fn lemma_rows_without<V>(a0: Seq<Archetype<V>>, a1: Seq<Archetype<V>>, req: Set<usize>, n: int, aa: int)
    requires
        0 <= n <= a0.len(),
        n <= a1.len(),
        0 <= aa < a0.len(),
        a0[aa].len == 1,
        a1[aa].len == 0,
        forall|a: int| 0 <= a < n ==> #[trigger] a1[a].component_bits == a0[a].component_bits,
        forall|a: int| 0 <= a < n && a != aa ==> #[trigger] a1[a].len == a0[a].len,
    ensures
        matching_rows(a1, req, n) == seq_without(matching_rows(a0, req, n), (aa, 0int)),
    decreases n,
{
    if n > 0 {
        lemma_rows_without(a0, a1, req, n - 1, aa);
        let prev0 = matching_rows(a0, req, n - 1);
        let a = n - 1;
        assert(a1[a].component_bits == a0[a].component_bits);
        if req.subset_of(a0[a].component_bits@) {
            let b0 = Seq::new(a0[a].len as nat, |r: int| (a, r));
            let b1 = Seq::new(a1[a].len as nat, |r: int| (a, r));
            lemma_without_add(prev0, b0, (aa, 0int));
            if a == aa {
                assert(b0 =~= seq![(aa, 0int)]);
                assert(seq_without(b0, (aa, 0int)) =~= Seq::<(int, int)>::empty()) by {
                    assert(b0.drop_last() =~= Seq::<(int, int)>::empty());
                    assert(b0.last() == (aa, 0int));
                    assert(seq_without(b0.drop_last(), (aa, 0int)) == b0.drop_last());
                }
                assert(b1 =~= Seq::<(int, int)>::empty());
                assert(matching_rows(a1, req, n) =~= matching_rows(a1, req, n - 1) + b1);
            } else {
                assert(b1 == b0);
                lemma_without_absent(b0, (aa, 0int));
            }
        }
    }
}

/// The slots and rows stay linked when only component values change.
pub proof fn lemma_linked_frame<V>(ents: Entities, a0: Seq<Archetype<V>>, a1: Seq<Archetype<V>>)
    requires
        linked(ents, a0),
        a1.len() == a0.len(),
        forall|a: int| 0 <= a < a0.len() ==> (#[trigger] a1[a]).entities == a0[a].entities && a1[a].len == a0[a].len,
    ensures
        linked(ents, a1),
{
    assert forall|a: int, r: int| 0 <= a < a1.len() && 0 <= r < a1[a].len implies #[trigger] row_linked(ents, a1, a, r) by {
        assert(a1[a].entities == a0[a].entities);
        assert(row_linked(ents, a0, a, r));
    }
    assert forall|i: int| 0 <= i < ents.entries@.len() && !ents.is_free(i) implies #[trigger] slot_linked(ents, a1, i) by {
        assert(slot_linked(ents, a0, i));
        let l = ents.location_of(i);
        assert(a1[l.archetype_id as int].entities == a0[l.archetype_id as int].entities);
    }
}

/// `result` lists, for each of `rows`, the entity of the row and its values
/// of the components `ids`, in order.
pub open spec fn query_result_matches<V>(
    archs: Seq<Archetype<V>>,
    ids: Seq<usize>,
    rows: Seq<(int, int)>,
    result: Seq<(EntityId, Vec<&V>)>,
) -> bool {
    &&& result.len() == rows.len()
    &&& forall|k: int| 0 <= k < rows.len() ==> {
        let (a, r) = #[trigger] rows[k];
        &&& result[k].0 == archs[a].entities@[r]
        &&& result[k].1@.len() == ids.len()
        &&& forall|j: int| 0 <= j < ids.len() ==> *(#[trigger] result[k].1@[j]) == archs[a].row_map(r)[ids[j]]
    }
}

/// All archetypes, with a table from component sets to the archetype that
/// stores them.
pub struct ArchetypeSet<V> {
    pub archetypes: Vec<Archetype<V>>,
    pub from_components: HashMap<u128, usize>,
}

impl<V> ArchetypeSet<V> {
    /// Every archetype is well formed, their number fits a `u32`, and the table
    /// is empty: no operation ever adds to it, so every lookup misses, each
    /// entity that is made or moved gets a new archetype, and no archetype ever
    /// holds more than one row.
    pub open spec fn wf(&self) -> bool {
        &&& forall|a: int| 0 <= a < self.archetypes@.len() ==> (#[trigger] self.archetypes@[a]).wf()
        &&& forall|a: int| 0 <= a < self.archetypes@.len() ==> (#[trigger] self.archetypes@[a]).len <= 1
        &&& self.archetypes@.len() <= u32::MAX + 1
        &&& self.from_components@ == Map::<u128, usize>::empty()
    }

    pub fn new() -> (r: Self)
        ensures
            r.wf(),
            r.archetypes@.len() == 0,
    {
        ArchetypeSet { archetypes: Vec::new(), from_components: HashMap::new() }
    }

    /// Every entry of the table names an archetype whose component set is the
    /// set of the bits of the entry's key. Each operation keeps `wf`, so this
    /// holds throughout.
    pub proof fn lemma_table_consistent(&self)
        requires
            self.wf(),
        ensures
            forall|b: u128| #[trigger] self.from_components@.contains_key(b) ==> {
                &&& self.from_components@[b] < self.archetypes@.len()
                &&& self.archetypes@[self.from_components@[b] as int].component_bits@ == crate::bitset::bits_below(b, 128)
            },
    {
    }

    /// Stores a new entity with the components of `components`, in a new
    /// archetype for its component set, and returns where it went.
    pub fn create_entity(&mut self, components: Bundle<V>, entity_id: EntityId) -> (loc: EntityLocation)
        requires
            old(self).wf(),
            old(self).archetypes@.len() <= u32::MAX,
            components.ids_valid(),
            components.components@.len() <= 32,
        ensures
            final(self).wf(),
            final(self).archetypes@.len() == old(self).archetypes@.len() + 1,
            final(self).archetypes@.drop_last() == old(self).archetypes@,
            final(self).archetypes@.last().len == 1,
            final(self).archetypes@.last().entities@[0] == entity_id,
            final(self).archetypes@.last().row_map(0) == components.spec_map(),
            loc == (EntityLocation { archetype_id: old(self).archetypes@.len() as u32, row: 0 }),
    {
        broadcast use vstd::std_specs::hash::group_hash_axioms;
        let bits = components.get_bit_set();
        let arch_id = match self.from_components.get(&bits.id) {
            Some(id) => *id,
            None => {
                let dst_arch = Archetype::new(bits);
                self.archetypes.push(dst_arch);
                self.archetypes.len() - 1
            },
        };
        let ghost bmap = components.spec_map();
        let mut arch = self.archetypes.pop().unwrap();
        let row = arch.reserve();
        proof {
            fetch::lemma_bundle_map_dom(components.components@);
            assert forall|k: int| 0 <= k < components.components@.len() implies arch.has(#[trigger] components.components@[k].0) by {
                assert(bmap.dom().contains(components.components@[k].0));
            }
        }
        arch.write_bundle(components, row);
        let ghost pre = arch;
        arch.entities.set(row, entity_id);
        proof {
            Archetype::lemma_shape_frame(&pre, &arch);
            let ghost a = arch;
            assert forall|c: usize| #[trigger] a.row_map(0).contains_key(c) <==> bmap.contains_key(c) by {}
            assert forall|c: usize| bmap.contains_key(c) implies #[trigger] a.row_map(0)[c] == bmap[c] by {
                a.lemma_col_of(c);
                assert(row == 0);
                assert(a.cell(a.col_of(c), 0) == pre.cell(a.col_of(c), 0));
                assert(a.cell(a.col_of(c), 0) == Some(bmap[a.key(a.col_of(c))]));
            }
            assert(a.row_map(0) =~= bmap);
            assert forall|r: int| 0 <= r < a.len implies #[trigger] a.filled(r) by {
                assert forall|k: int| 0 <= k < a.ncols() implies (#[trigger] a.cell(k, r)) is Some by {
                    assert(a.cell(k, r) == pre.cell(k, r));
                    assert(a.has(a.key(k)));
                    assert(bmap.contains_key(a.key(k)));
                }
            }
        }
        self.archetypes.push(arch);
        EntityLocation { archetype_id: arch_id as u32, row: row as u32 }
    }

    /// Removes the live entity `id`: its components are dropped, the last row
    /// of its archetype moves into its row, and its slot is freed.
    pub fn remove_entity(&mut self, id: EntityId, entities: &mut Entities)
        requires
            old(self).wf(),
            old(entities).wf(),
            linked(*old(entities), old(self).archetypes@),
            entity_live(*old(entities), id),
        ensures
            final(self).wf(),
            final(entities).wf(),
            linked(*final(entities), final(self).archetypes@),
            live_map(*final(entities), final(self).archetypes@) == live_map(*old(entities), old(self).archetypes@).remove(id),
            final(self).archetypes@.len() == old(self).archetypes@.len(),
            forall|a: int| 0 <= a < old(self).archetypes@.len() ==> (#[trigger] final(self).archetypes@[a]).component_bits == old(self).archetypes@[a].component_bits,
            forall|a: int| 0 <= a < old(self).archetypes@.len() && a != old(entities).location_of(entity::spec_entity_index(id) as int).archetype_id ==>
                #[trigger] final(self).archetypes@[a] == old(self).archetypes@[a],
            final(self).archetypes@[old(entities).location_of(entity::spec_entity_index(id) as int).archetype_id as int].len
                == old(self).archetypes@[old(entities).location_of(entity::spec_entity_index(id) as int).archetype_id as int].len - 1,
            final(entities).entries@.len() == old(entities).entries@.len(),
            forall|k: int| 0 <= k < old(entities).entries@.len() ==> #[trigger] final(entities).version_of(k) == if k == entity::spec_entity_index(id) {
                (old(entities).version_of(k) + 1) as u32
            } else {
                old(entities).version_of(k)
            },
            final(entities).free@ == old(entities).free@.push(entity::spec_entity_index(id)),
    {
        let ghost e0 = *entities;
        let ghost a0 = self.archetypes@;
        let ghost i = entity::spec_entity_index(id) as int;
        let loc = entities.get_location(id).unwrap();
        let ghost aa = loc.archetype_id as int;
        let ghost rr = loc.row as int;
        proof {
            assert(slot_linked(e0, a0, i));
            entity::lemma_entity_from_parts(id);
            assert(a0[aa].wf());
        }
        let last_id;
        let ghost arch0 = self.archetypes@[aa];
        {
            let arch = &mut self.archetypes[loc.archetype_id as usize];
            last_id = arch.entities[arch.len - 1];
            arch.remove(loc.row as usize);
        }
        let ghost a1 = self.archetypes@;
        let ghost ll = arch0.len - 1;
        let ghost j = entity::spec_entity_index(last_id) as int;
        proof {
            assert(row_linked(e0, a0, aa, ll));
            assert(a1 == a0.update(aa, a1[aa]));
            if rr != ll {
                if j == i {
                    assert(e0.location_of(i) == (EntityLocation { archetype_id: aa as u32, row: ll as u32 }));
                }
                assert(j != i);
                assert(last_id != id);
            } else {
                assert(last_id == id);
            }
        }
        if last_id != id {
            entities.set_location(last_id, loc);
        }
        let ghost e1 = *entities;
        entities.destroy(id);
        proof {
            let e2 = *entities;
            let a2 = self.archetypes@;
            assert forall|k: int| 0 <= k < e2.entries@.len() implies
                (#[trigger] e2.is_free(k)) == (e0.is_free(k) || k == i) by {
                if e2.is_free(k) {
                    let m = choose|m: int| 0 <= m < e2.free@.len() && e2.free@[m] == k;
                    if m < e0.free@.len() {
                        assert(e0.free@[m] == k);
                    }
                }
                if e0.is_free(k) {
                    let m = choose|m: int| 0 <= m < e0.free@.len() && e0.free@[m] == k;
                    assert(e2.free@[m] == k);
                }
                if k == i {
                    assert(e2.free@[e0.free@.len() as int] == k);
                }
            }
            assert forall|k: int| 0 <= k < e2.entries@.len() && k != i && (rr == ll || k != j) implies
                #[trigger] e2.entries@[k] == e0.entries@[k] by {}
            assert forall|a: int| 0 <= a < a2.len() implies (#[trigger] a2[a]).wf() by {
                if a != aa {
                    assert(a2[a] == a0[a]);
                }
            }
            assert forall|a: int, r: int| 0 <= a < a2.len() && 0 <= r < a2[a].len implies #[trigger] row_linked(e2, a2, a, r) by {
                if a != aa {
                    assert(a2[a] == a0[a]);
                    assert(row_linked(e0, a0, a, r));
                    let k = entity::spec_entity_index(a0[a].entities@[r]) as int;
                    assert(k != i);
                    assert(k != j);
                } else if r == rr {
                    assert(a2[a].entities@[r] == last_id);
                } else {
                    assert(a2[a].entities@[r] == a0[a].entities@[r]);
                    assert(row_linked(e0, a0, a, r));
                    let k = entity::spec_entity_index(a0[a].entities@[r]) as int;
                    assert(k != i);
                    assert(k != j);
                }
            }
            assert forall|k: int| 0 <= k < e2.entries@.len() && !e2.is_free(k) implies #[trigger] slot_linked(e2, a2, k) by {
                assert(!e0.is_free(k));
                assert(k != i);
                assert(slot_linked(e0, a0, k));
                if rr != ll && k == j {
                    assert(a2[aa].entities@[rr] == a0[aa].entities@[ll]);
                } else {
                    let l = e0.location_of(k);
                    if l.archetype_id == aa {
                        if l.row == rr {
                            entity::lemma_entity_roundtrip(k as u32, e0.version_of(k));
                            entity::lemma_entity_roundtrip(i as u32, e0.version_of(i));
                        }
                        assert(l.row != rr);
                        if l.row == ll {
                            assert(row_linked(e0, a0, aa, ll));
                            entity::lemma_entity_roundtrip(k as u32, e0.version_of(k));
                            assert(k == j);
                        }
                        assert(a2[aa].entities@[l.row as int] == a0[aa].entities@[l.row as int]);
                    } else {
                        assert(a2[l.archetype_id as int] == a0[l.archetype_id as int]);
                    }
                }
            }
            let m0 = live_map(e0, a0);
            let m2 = live_map(e2, a2);
            assert forall|e: EntityId| #[trigger] entity_live(e2, e) == (entity_live(e0, e) && e != id) by {
                entity::lemma_entity_from_parts(e);
                entity::lemma_entity_from_parts(id);
            }
            assert forall|e: EntityId| entity_live(e2, e) implies #[trigger] entity_components(e2, a2, e) == entity_components(e0, a0, e) by {
                let k = entity::spec_entity_index(e) as int;
                assert(slot_linked(e0, a0, k));
                if rr != ll && k == j {
                    lemma_row_map_eq(a0[aa], a2[aa], ll, rr);
                } else {
                    let l = e0.location_of(k);
                    if l.archetype_id == aa {
                        if l.row == rr {
                            entity::lemma_entity_roundtrip(k as u32, e0.version_of(k));
                            entity::lemma_entity_roundtrip(i as u32, e0.version_of(i));
                        }
                        assert(l.row != rr);
                        if l.row == ll {
                            assert(row_linked(e0, a0, aa, ll));
                            entity::lemma_entity_roundtrip(k as u32, e0.version_of(k));
                        }
                        assert(l.row < a2[aa].len);
                        assert forall|c: int| 0 <= c < a0[aa].ncols() implies #[trigger] a2[aa].cell(c, l.row as int) == a0[aa].cell(c, l.row as int) by {}
                        lemma_row_map_eq(a0[aa], a2[aa], l.row as int, l.row as int);
                    }
                }
            }
            assert(m2 =~= m0.remove(id));
        }
    }

    /// Gives the live entity `entity_id` the components of `components`, which
    /// replace values it already has for the same ids: the entity moves to a new
    /// archetype for its enlarged component set.
    pub fn add_component(&mut self, entity_id: EntityId, entities: &mut Entities, components: Bundle<V>)
        requires
            old(self).wf(),
            old(self).archetypes@.len() <= u32::MAX,
            old(entities).wf(),
            linked(*old(entities), old(self).archetypes@),
            entity_live(*old(entities), entity_id),
            components.ids_valid(),
            components.components@.len() <= 32,
        ensures
            final(self).wf(),
            final(entities).wf(),
            linked(*final(entities), final(self).archetypes@),
            live_map(*final(entities), final(self).archetypes@) == live_map(*old(entities), old(self).archetypes@).insert(
                entity_id,
                live_map(*old(entities), old(self).archetypes@)[entity_id].union_prefer_right(components.spec_map()),
            ),
            final(self).archetypes@.len() == old(self).archetypes@.len() + 1,
            forall|a: int| 0 <= a < old(self).archetypes@.len() ==> (#[trigger] final(self).archetypes@[a]).component_bits == old(self).archetypes@[a].component_bits,
            forall|a: int| 0 <= a < old(self).archetypes@.len() && a != old(entities).location_of(entity::spec_entity_index(entity_id) as int).archetype_id ==>
                #[trigger] final(self).archetypes@[a] == old(self).archetypes@[a],
            final(self).archetypes@[old(entities).location_of(entity::spec_entity_index(entity_id) as int).archetype_id as int].len
                == old(self).archetypes@[old(entities).location_of(entity::spec_entity_index(entity_id) as int).archetype_id as int].len - 1,
            final(entities).location_of(entity::spec_entity_index(entity_id) as int) == (EntityLocation { archetype_id: old(self).archetypes@.len() as u32, row: 0 }),
            final(self).archetypes@[old(self).archetypes@.len() as int].len == 1,
            final(entities).entries@.len() == old(entities).entries@.len(),
            forall|k: int| 0 <= k < old(entities).entries@.len() ==> #[trigger] final(entities).version_of(k) == old(entities).version_of(k),
            final(entities).free@ == old(entities).free@,
    {
        broadcast use vstd::std_specs::hash::group_hash_axioms;
        let ghost e0 = *entities;
        let ghost a0 = self.archetypes@;
        let ghost bmap = components.spec_map();
        let ghost i = entity::spec_entity_index(entity_id) as int;
        let src_location = entities.get_location(entity_id).expect("Wrong id id");
        let ghost aa = src_location.archetype_id as int;
        let ghost rr = src_location.row as int;
        proof {
            assert(slot_linked(e0, a0, i));
            assert(a0[aa].wf());
        }
        let dst_archetype_id = {
            let src_archetype = &self.archetypes[src_location.archetype_id as usize];
            let required = src_archetype.component_bits.bitor(components.get_bit_set());
            match self.from_components.get(&required.id) {
                Some(id) => *id,
                None => {
                    let dst_arch = Archetype::new(required);
                    self.archetypes.push(dst_arch);
                    self.archetypes.len() - 1
                },
            }
        };
        // the archetype just made is the last one
        let mut dst_arch = self.archetypes.pop().unwrap();
        proof {
            assert(self.archetypes@ == a0);
        }
        let (dst_row, moved_last_entity) = Archetype::move_entity(
            &mut self.archetypes[src_location.archetype_id as usize],
            src_location.row as usize,
            &mut dst_arch,
            entity_id,
        );
        let ghost moved_arch = dst_arch;
        proof {
            fetch::lemma_bundle_map_dom(components.components@);
            assert forall|k: int| 0 <= k < components.components@.len() implies dst_arch.has(#[trigger] components.components@[k].0) by {
                assert(bmap.dom().contains(components.components@[k].0));
            }
        }
        dst_arch.write_bundle(components, dst_row);
        let ghost src0 = a0[aa];
        proof {
            let d = dst_arch;
            assert(dst_row == 0);
            assert forall|k: int| 0 <= k < d.ncols() implies (#[trigger] d.cell(k, 0)) is Some by {
                let c = d.key(k);
                assert(d.has(c));
                if !bmap.contains_key(c) {
                    assert(src0.has(c));
                    src0.lemma_col_of(c);
                    assert(src0.filled(rr));
                    assert(src0.cell(src0.col_of(c), rr) is Some);
                    assert(moved_arch.cell(k, 0) == src0.cell(src0.col_of(c), rr));
                }
            }
            assert(d.filled(0));
            assert(d.wf());
            let m0 = src0.row_map(rr);
            assert forall|c: usize| #[trigger] d.row_map(0).contains_key(c) <==> m0.union_prefer_right(bmap).contains_key(c) by {}
            assert forall|c: usize| d.has(c) implies #[trigger] d.row_map(0)[c] == m0.union_prefer_right(bmap)[c] by {
                d.lemma_col_of(c);
                let k = d.col_of(c);
                if !bmap.contains_key(c) {
                    src0.lemma_col_of(c);
                    assert(moved_arch.cell(k, 0) == src0.cell(src0.col_of(c), rr));
                }
            }
            assert(d.row_map(0) =~= m0.union_prefer_right(bmap));
        }
        self.archetypes.push(dst_arch);
        let dst_location = EntityLocation { archetype_id: dst_archetype_id as u32, row: dst_row as u32 };
        let ghost a1 = self.archetypes@;
        proof {
            assert(row_linked(e0, a0, aa, a0[aa].len - 1));
        }
        entities.set_location(entity_id, dst_location);
        if let Some(last_id) = moved_last_entity {
            entities.set_location(last_id, src_location);
        }
        proof {
            let e1 = *entities;
            assert forall|a: int| 0 <= a < a1.len() implies (#[trigger] a1[a]).wf() by {
                if a < a0.len() && a != aa {
                    assert(a1[a] == a0[a]);
                }
            }
            if let Some(last_id) = moved_last_entity {
                let j = entity::spec_entity_index(last_id) as int;
                if j == i {
                    assert(e0.location_of(i) == (EntityLocation { archetype_id: aa as u32, row: (a0[aa].len - 1) as u32 }));
                }
                assert(j != i);
            }
            lemma_migrate(e0, a0, e1, a1, entity_id, aa, rr, moved_last_entity);
        }
    }

    /// Takes the components with the ids in `ids` from the live entity
    /// `entity_id` (dropping their values): the entity moves to a new archetype
    /// for its reduced component set.
    pub fn remove_components(&mut self, entity_id: EntityId, entities: &mut Entities, ids: &[usize])
        requires
            old(self).wf(),
            old(self).archetypes@.len() <= u32::MAX,
            old(entities).wf(),
            linked(*old(entities), old(self).archetypes@),
            entity_live(*old(entities), entity_id),
            forall|k: int| 0 <= k < ids@.len() ==> ids@[k] < 128,
        ensures
            final(self).wf(),
            final(entities).wf(),
            linked(*final(entities), final(self).archetypes@),
            live_map(*final(entities), final(self).archetypes@) == live_map(*old(entities), old(self).archetypes@).insert(
                entity_id,
                live_map(*old(entities), old(self).archetypes@)[entity_id].remove_keys(ids@.to_set()),
            ),
            final(self).archetypes@.len() == old(self).archetypes@.len() + 1,
            forall|a: int| 0 <= a < old(self).archetypes@.len() ==> (#[trigger] final(self).archetypes@[a]).component_bits == old(self).archetypes@[a].component_bits,
            forall|a: int| 0 <= a < old(self).archetypes@.len() && a != old(entities).location_of(entity::spec_entity_index(entity_id) as int).archetype_id ==>
                #[trigger] final(self).archetypes@[a] == old(self).archetypes@[a],
            final(self).archetypes@[old(entities).location_of(entity::spec_entity_index(entity_id) as int).archetype_id as int].len
                == old(self).archetypes@[old(entities).location_of(entity::spec_entity_index(entity_id) as int).archetype_id as int].len - 1,
            final(entities).location_of(entity::spec_entity_index(entity_id) as int) == (EntityLocation { archetype_id: old(self).archetypes@.len() as u32, row: 0 }),
            final(self).archetypes@[old(self).archetypes@.len() as int].len == 1,
            final(entities).entries@.len() == old(entities).entries@.len(),
            forall|k: int| 0 <= k < old(entities).entries@.len() ==> #[trigger] final(entities).version_of(k) == old(entities).version_of(k),
            final(entities).free@ == old(entities).free@,
    {
        broadcast use vstd::std_specs::hash::group_hash_axioms;
        let ghost e0 = *entities;
        let ghost a0 = self.archetypes@;
        let ghost i = entity::spec_entity_index(entity_id) as int;
        let src_location = entities.get_location(entity_id).expect("Wrong id id");
        let ghost aa = src_location.archetype_id as int;
        let ghost rr = src_location.row as int;
        let ghost src0 = a0[aa];
        proof {
            assert(slot_linked(e0, a0, i));
            assert(src0.wf());
        }
        let bits = BitSet::from_component_ids(ids);
        let to_drop;
        let dst_archetype_id = {
            let src_archetype = &self.archetypes[src_location.archetype_id as usize];
            let required = src_archetype.component_bits.bitand(bits.not());
            to_drop = src_archetype.component_bits.bitand(bits);
            match self.from_components.get(&required.id) {
                Some(id) => *id,
                None => {
                    let dst_arch = Archetype::new(required);
                    self.archetypes.push(dst_arch);
                    self.archetypes.len() - 1
                },
            }
        };
        self.archetypes[src_location.archetype_id as usize].drop_row_components(to_drop, src_location.row as usize);
        // the archetype just made is the last one
        let mut dst_arch = self.archetypes.pop().unwrap();
        let ghost src1 = self.archetypes@[aa];
        proof {
            assert forall|r: int| 0 <= r < src1.len && r != rr implies #[trigger] src1.filled(r) by {
                assert forall|k: int| 0 <= k < src1.ncols() implies (#[trigger] src1.cell(k, r)) is Some by {
                    assert(src0.filled(r));
                    assert(src0.cell(k, r) is Some);
                }
            }
        }
        let (dst_row, moved_last_entity) = Archetype::move_entity(
            &mut self.archetypes[src_location.archetype_id as usize],
            src_location.row as usize,
            &mut dst_arch,
            entity_id,
        );
        proof {
            let d = dst_arch;
            let idset = ids@.to_set();
            assert(dst_row == 0);
            assert forall|c: usize| #[trigger] d.has(c) <==> (src0.has(c) && !idset.contains(c)) by {
                if src0.has(c) {
                    src0.lemma_col_of(c);
                }
            }
            assert forall|k: int| 0 <= k < d.ncols() implies (#[trigger] d.cell(k, 0)) is Some by {
                let c = d.key(k);
                assert(d.has(c));
                src0.lemma_col_of(c);
                assert(src0.filled(rr));
                assert(src0.cell(src0.col_of(c), rr) is Some);
                assert(src1.cell(src0.col_of(c), rr) == src0.cell(src0.col_of(c), rr));
            }
            assert(d.filled(0));
            assert(d.wf());
            let m0 = src0.row_map(rr);
            assert forall|c: usize| #[trigger] d.row_map(0).contains_key(c) <==> m0.remove_keys(idset).contains_key(c) by {}
            assert forall|c: usize| d.has(c) implies #[trigger] d.row_map(0)[c] == m0.remove_keys(idset)[c] by {
                d.lemma_col_of(c);
                src0.lemma_col_of(c);
                assert(src1.cell(src0.col_of(c), rr) == src0.cell(src0.col_of(c), rr));
            }
            assert(d.row_map(0) =~= m0.remove_keys(idset));
        }
        self.archetypes.push(dst_arch);
        let dst_location = EntityLocation { archetype_id: dst_archetype_id as u32, row: dst_row as u32 };
        let ghost a1 = self.archetypes@;
        proof {
            assert(row_linked(e0, a0, aa, a0[aa].len - 1));
        }
        entities.set_location(entity_id, dst_location);
        if let Some(last_id) = moved_last_entity {
            entities.set_location(last_id, src_location);
        }
        proof {
            let e1 = *entities;
            assert forall|a: int| 0 <= a < a1.len() implies (#[trigger] a1[a]).wf() by {
                if a < a0.len() && a != aa {
                    assert(a1[a] == a0[a]);
                }
            }
            assert forall|k: int, r: int| 0 <= k < a0[aa].ncols() && 0 <= r < a1[aa].len implies #[trigger] a1[aa].cell(k, r) == if r == rr {
                a0[aa].cell(k, a0[aa].len - 1)
            } else {
                a0[aa].cell(k, r)
            } by {
                if r == rr {
                    assert(src1.cell(k, a0[aa].len - 1) == src0.cell(k, a0[aa].len - 1));
                } else {
                    assert(src1.cell(k, r) == src0.cell(k, r));
                }
            }
            if let Some(last_id) = moved_last_entity {
                let j = entity::spec_entity_index(last_id) as int;
                if j == i {
                    assert(e0.location_of(i) == (EntityLocation { archetype_id: aa as u32, row: (a0[aa].len - 1) as u32 }));
                }
                assert(j != i);
            }
            lemma_migrate(e0, a0, e1, a1, entity_id, aa, rr, moved_last_entity);
        }
    }

    /// For every archetype that has all the components `ids`, in order, and each
    /// of its rows in order: the row's entity and its values of `ids`.
    pub fn query_raw<'a>(&'a self, ids: &[usize]) -> (result: Vec<(EntityId, Vec<&'a V>)>)
        requires
            self.wf(),
            ids@.len() <= 32,
            forall|k: int| 0 <= k < ids@.len() ==> ids@[k] < 128,
        ensures
            query_result_matches(
                self.archetypes@,
                ids@,
                matching_rows(self.archetypes@, ids@.to_set(), self.archetypes@.len() as int),
                result@,
            ),
    {
        let ghost archs = self.archetypes@;
        let ghost req = ids@.to_set();
        let required = BitSet::from_component_ids(ids);
        proof {
            assert(required@ =~= req);
        }
        let mut result: Vec<(EntityId, Vec<&'a V>)> = Vec::new();
        let mut a: usize = 0;
        while a < self.archetypes.len()
            invariant
                self.wf(),
                archs == self.archetypes@,
                required@ == req,
                req == ids@.to_set(),
                forall|k: int| 0 <= k < ids@.len() ==> ids@[k] < 128,
                a <= archs.len(),
                query_result_matches(archs, ids@, matching_rows(archs, req, a as int), result@),
            decreases archs.len() - a,
        {
            let arch = &self.archetypes[a];
            let ghost before = matching_rows(archs, req, a as int);
            proof {
                assert(arch.wf());
            }
            let common = arch.component_bits.bitand(required);
            proof {
                if req.subset_of(arch.component_bits@) {
                    assert(common@ =~= required@);
                    BitSet::lemma_ext(common, required);
                }
            }
            if common == required {
                proof {
                    assert(req.subset_of(arch.component_bits@));
                }
                let mut cols: Vec<usize> = Vec::new();
                let mut j: usize = 0;
                while j < ids.len()
                    invariant
                        arch.wf(),
                        req.subset_of(arch.component_bits@),
                        req == ids@.to_set(),
                        j <= ids@.len(),
                        cols@.len() == j,
                        forall|l: int| 0 <= l < j ==> #[trigger] cols@[l] == arch.col_of(ids@[l]),
                        forall|l: int| 0 <= l < j ==> 0 <= #[trigger] cols@[l] < arch.ncols(),
                    decreases ids@.len() - j,
                {
                    let id = ids[j];
                    proof {
                        assert(req.contains(id));
                        assert(arch.has(id));
                        arch.lemma_col_of(id);
                    }
                    let col_index = *arch.id_to_index.get(&id).unwrap();
                    cols.push(col_index);
                    j = j + 1;
                }
                let mut r: usize = 0;
                while r < arch.len
                    invariant
                        arch.wf(),
                        archs[a as int] == *arch,
                        a < archs.len(),
                        req.subset_of(arch.component_bits@),
                        cols@.len() == ids@.len(),
                        forall|l: int| 0 <= l < ids@.len() ==> #[trigger] cols@[l] == arch.col_of(ids@[l]),
                        forall|l: int| 0 <= l < ids@.len() ==> 0 <= #[trigger] cols@[l] < arch.ncols(),
                        forall|l: int| 0 <= l < ids@.len() ==> arch.has(#[trigger] ids@[l]),
                        r <= arch.len,
                        query_result_matches(archs, ids@, before + Seq::new(r as nat, |x: int| (a as int, x)), result@),
                    decreases arch.len - r,
                {
                    let mut items: Vec<&'a V> = Vec::new();
                    let mut j: usize = 0;
                    while j < ids.len()
                        invariant
                            arch.wf(),
                            r < arch.len,
                            cols@.len() == ids@.len(),
                            forall|l: int| 0 <= l < ids@.len() ==> #[trigger] cols@[l] == arch.col_of(ids@[l]),
                            forall|l: int| 0 <= l < ids@.len() ==> 0 <= #[trigger] cols@[l] < arch.ncols(),
                            forall|l: int| 0 <= l < ids@.len() ==> arch.has(#[trigger] ids@[l]),
                            j <= ids@.len(),
                            items@.len() == j,
                            forall|l: int| 0 <= l < j ==> *(#[trigger] items@[l]) == arch.row_map(r as int)[ids@[l]],
                        decreases ids@.len() - j,
                    {
                        let col_index = cols[j];
                        proof {
                            assert(arch.filled(r as int));
                            assert(arch.cell(col_index as int, r as int) is Some);
                        }
                        let slot = arch.data[col_index][r].as_ref().unwrap();
                        let value: &V = &**slot;
                        items.push(value);
                        j = j + 1;
                    }
                    let ghost old_result = result@;
                    result.push((arch.entities[r], items));
                    proof {
                        let rows = before + Seq::new((r + 1) as nat, |x: int| (a as int, x));
                        assert(rows =~= (before + Seq::new(r as nat, |x: int| (a as int, x))).push((a as int, r as int)));
                        assert forall|k: int| 0 <= k < rows.len() implies {
                            let (aa, rr) = #[trigger] rows[k];
                            &&& result@[k].0 == archs[aa].entities@[rr]
                            &&& result@[k].1@.len() == ids@.len()
                            &&& forall|j: int| 0 <= j < ids@.len() ==> *(#[trigger] result@[k].1@[j]) == archs[aa].row_map(rr)[ids@[j]]
                        } by {
                            if k < rows.len() - 1 {
                                assert(rows[k] == (before + Seq::new(r as nat, |x: int| (a as int, x)))[k]);
                                assert(result@[k] == old_result[k]);
                            } else {
                                assert(rows[k] == (a as int, r as int));
                                assert(result@[k].0 == arch.entities@[r as int]);
                                assert(forall|j: int| 0 <= j < ids@.len() ==> *(#[trigger] result@[k].1@[j]) == arch.row_map(r as int)[ids@[j]]);
                            }
                        }
                        assert(query_result_matches(archs, ids@, rows, result@));
                    }
                    r = r + 1;
                }
                proof {
                    assert(before + Seq::new(arch.len as nat, |x: int| (a as int, x)) == matching_rows(archs, req, a + 1));
                }
            } else {
                proof {
                    assert(!req.subset_of(arch.component_bits@)) by {
                        if req.subset_of(arch.component_bits@) {
                            assert(common == required);
                        }
                    }
                    assert(matching_rows(archs, req, a + 1) == before);
                }
            }
            a = a + 1;
        }
        result
    }

    /// For every archetype that has all the components `ids` and each of its
    /// rows: replaces the row's values of `ids` by what `f` returns when given
    /// the row's entity and those values, in the order of `ids`. Returns the
    /// calls of `f`, in the order they were made: one per row that a query for
    /// `ids` visits, in that order.
    pub fn query_map_raw<F: Fn(EntityId, Vec<V>) -> Vec<V>>(&mut self, ids: &[usize], f: &F) -> (calls: Ghost<Seq<((EntityId, Vec<V>), Vec<V>)>>)
        requires
            old(self).wf(),
            ids@.len() <= 32,
            forall|k: int| 0 <= k < ids@.len() ==> ids@[k] < 128,
            ids@.no_duplicates(),
            forall|args: (EntityId, Vec<V>)| call_requires(*f, args),
            forall|args: (EntityId, Vec<V>), out: Vec<V>| call_ensures(*f, args, out) ==> out@.len() == args.1@.len(),
        ensures
            final(self).wf(),
            final(self).archetypes@.len() == old(self).archetypes@.len(),
            forall|a: int| 0 <= a < old(self).archetypes@.len() ==> {
                &&& (#[trigger] final(self).archetypes@[a]).entities == old(self).archetypes@[a].entities
                &&& final(self).archetypes@[a].len == old(self).archetypes@[a].len
                &&& final(self).archetypes@[a].component_bits == old(self).archetypes@[a].component_bits
            },
            forall|a: int, r: int| 0 <= a < old(self).archetypes@.len() && 0 <= r < old(self).archetypes@[a].len ==>
                #[trigger] row_result(*f, old(self).archetypes@[a], final(self).archetypes@[a], ids@, r),
            calls@.len() == matching_rows(old(self).archetypes@, ids@.to_set(), old(self).archetypes@.len() as int).len(),
            forall|k: int| #![trigger calls@[k]] 0 <= k < calls@.len() ==> {
                let (a, r) = matching_rows(old(self).archetypes@, ids@.to_set(), old(self).archetypes@.len() as int)[k];
                row_updated_by(*f, old(self).archetypes@[a], final(self).archetypes@[a], ids@, r, calls@[k])
            },
    {
        let ghost a0 = self.archetypes@;
        let ghost req = ids@.to_set();
        let ghost mut calls: Seq<((EntityId, Vec<V>), Vec<V>)> = Seq::empty();
        let required = BitSet::from_component_ids(ids);
        proof {
            assert(required@ =~= req);
        }
        let mut a: usize = 0;
        while a < self.archetypes.len()
            invariant
                self.wf(),
                self.archetypes@.len() == a0.len(),
                required@ == req,
                req == ids@.to_set(),
                forall|k: int| 0 <= k < ids@.len() ==> ids@[k] < 128,
                ids@.no_duplicates(),
                forall|args: (EntityId, Vec<V>)| call_requires(*f, args),
                forall|args: (EntityId, Vec<V>), out: Vec<V>| call_ensures(*f, args, out) ==> out@.len() == args.1@.len(),
                a <= a0.len(),
                forall|b: int| 0 <= b < a0.len() ==> {
                    &&& (#[trigger] self.archetypes@[b]).entities == a0[b].entities
                    &&& self.archetypes@[b].len == a0[b].len
                    &&& self.archetypes@[b].component_bits == a0[b].component_bits
                },
                forall|b: int| a <= b < a0.len() ==> #[trigger] self.archetypes@[b] == a0[b],
                forall|b: int, r: int| 0 <= b < a && 0 <= r < a0[b].len ==>
                    #[trigger] row_result(*f, a0[b], self.archetypes@[b], ids@, r),
                calls.len() == matching_rows(a0, req, a as int).len(),
                forall|k: int| #![trigger calls[k]] 0 <= k < calls.len() ==> {
                    let (b, r) = matching_rows(a0, req, a as int)[k];
                    row_updated_by(*f, a0[b], self.archetypes@[b], ids@, r, calls[k])
                },
            decreases a0.len() - a,
        {
            let ghost base = calls.len();
            proof {
                lemma_matching_rows(a0, req, a as int);
            }
            let ghost arch0 = a0[a as int];
            proof {
                assert(self.archetypes@[a as int] == arch0);
                assert(arch0.wf());
            }
            let common = self.archetypes[a].component_bits.bitand(required);
            proof {
                if req.subset_of(arch0.component_bits@) {
                    assert(common@ =~= required@);
                    BitSet::lemma_ext(common, required);
                }
            }
            if common == required {
                proof {
                    assert(req.subset_of(arch0.component_bits@));
                }
                let mut cols: Vec<usize> = Vec::new();
                let mut j: usize = 0;
                while j < ids.len()
                    invariant
                        arch0.wf(),
                        self.archetypes@[a as int] == arch0,
                        a < self.archetypes@.len(),
                        req.subset_of(arch0.component_bits@),
                        req == ids@.to_set(),
                        ids@.no_duplicates(),
                        j <= ids@.len(),
                        cols@.len() == j,
                        forall|l: int| 0 <= l < j ==> #[trigger] cols@[l] == arch0.col_of(ids@[l]),
                        forall|l: int| 0 <= l < j ==> 0 <= #[trigger] cols@[l] < arch0.ncols(),
                    decreases ids@.len() - j,
                {
                    let id = ids[j];
                    proof {
                        assert(req.contains(id));
                        assert(arch0.has(id));
                        arch0.lemma_col_of(id);
                    }
                    let col_index = *self.archetypes[a].id_to_index.get(&id).unwrap();
                    cols.push(col_index);
                    j = j + 1;
                }
                proof {
                    assert forall|l1: int, l2: int| 0 <= l1 < cols@.len() && 0 <= l2 < cols@.len() && l1 != l2 implies cols@[l1] != cols@[l2] by {
                        arch0.lemma_col_of(ids@[l1]);
                        arch0.lemma_col_of(ids@[l2]);
                        assert(ids@[l1] != ids@[l2]);
                    }
                }
                let len = self.archetypes[a].len;
                let mut r: usize = 0;
                while r < len
                    invariant
                        self.wf(),
                        self.archetypes@.len() == a0.len(),
                        a < a0.len(),
                        arch0 == a0[a as int],
                        arch0.wf(),
                        len == arch0.len,
                        req.subset_of(arch0.component_bits@),
                        req == ids@.to_set(),
                        ids@.no_duplicates(),
                        forall|k: int| 0 <= k < ids@.len() ==> ids@[k] < 128,
                        forall|args: (EntityId, Vec<V>)| call_requires(*f, args),
                        forall|args: (EntityId, Vec<V>), out: Vec<V>| call_ensures(*f, args, out) ==> out@.len() == args.1@.len(),
                        cols@.len() == ids@.len(),
                        forall|l: int| 0 <= l < ids@.len() ==> #[trigger] cols@[l] == arch0.col_of(ids@[l]),
                        forall|l: int| 0 <= l < ids@.len() ==> 0 <= #[trigger] cols@[l] < arch0.ncols(),
                        cols@.no_duplicates(),
                        r <= len,
                        forall|b: int| 0 <= b < a0.len() ==> {
                            &&& (#[trigger] self.archetypes@[b]).entities == a0[b].entities
                            &&& self.archetypes@[b].len == a0[b].len
                            &&& self.archetypes@[b].component_bits == a0[b].component_bits
                        },
                        self.archetypes@[a as int].id_to_index == arch0.id_to_index,
                        self.archetypes@[a as int].data@.len() == arch0.data@.len(),
                        forall|b: int| a < b < a0.len() ==> #[trigger] self.archetypes@[b] == a0[b],
                        forall|b: int, r2: int| 0 <= b < a && 0 <= r2 < a0[b].len ==>
                            #[trigger] row_result(*f, a0[b], self.archetypes@[b], ids@, r2),
                        forall|r2: int| 0 <= r2 < r ==> #[trigger] row_updated(*f, arch0, self.archetypes@[a as int], ids@, r2),
                        base == matching_rows(a0, req, a as int).len(),
                        forall|k: int| 0 <= k < base ==> {
                            let (b, r2) = #[trigger] matching_rows(a0, req, a as int)[k];
                            0 <= b < a
                        },
                        calls.len() == base + r,
                        forall|k: int| #![trigger calls[k]] 0 <= k < base ==> {
                            let (b, r2) = matching_rows(a0, req, a as int)[k];
                            row_updated_by(*f, a0[b], self.archetypes@[b], ids@, r2, calls[k])
                        },
                        forall|k: int| #![trigger calls[k]] base <= k < calls.len() ==>
                            row_updated_by(*f, arch0, self.archetypes@[a as int], ids@, k - base, calls[k]),
                        forall|k: int, r2: int| 0 <= k < arch0.ncols() && r <= r2 < arch0.capacity ==>
                            #[trigger] self.archetypes@[a as int].cell(k, r2) == arch0.cell(k, r2),
                    decreases len - r,
                {
                    let ghost cur = self.archetypes@[a as int];
                    let ghost before = self.archetypes@;
                    proof {
                        assert(cur.wf());
                    }
                    let call = self.archetypes[a].map_row(r, &cols, f);
                    proof {
                        let next = self.archetypes@[a as int];
                        assert(self.archetypes@ == before.update(a as int, next));
                        assert forall|b: int| 0 <= b < self.archetypes@.len() implies (#[trigger] self.archetypes@[b]).wf() by {
                            if b != a {
                                assert(self.archetypes@[b] == before[b]);
                            }
                        }
                        // the row just mapped
                        assert forall|k: int| 0 <= k < arch0.ncols() implies #[trigger] cur.cell(k, r as int) == arch0.cell(k, r as int) by {}
                        lemma_row_mapped_updated(*f, arch0, cur, next, cols@, ids@, r as int, call@);
                        // rows mapped before keep their values
                        assert forall|r2: int| 0 <= r2 < r + 1 implies #[trigger] row_updated(*f, arch0, next, ids@, r2) by {
                            if r2 < r {
                                assert(row_updated(*f, arch0, cur, ids@, r2));
                                assert forall|k: int| 0 <= k < cur.ncols() implies #[trigger] next.cell(k, r2) == cur.cell(k, r2) by {}
                                lemma_row_map_eq(cur, next, r2, r2);
                            }
                        }
                        assert forall|k: int, r2: int| 0 <= k < arch0.ncols() && r + 1 <= r2 < arch0.capacity implies
                            #[trigger] next.cell(k, r2) == arch0.cell(k, r2) by {
                            assert(next.cell(k, r2) == cur.cell(k, r2));
                        }
                        assert forall|b: int, r2: int| 0 <= b < a && 0 <= r2 < a0[b].len implies
                            #[trigger] row_result(*f, a0[b], self.archetypes@[b], ids@, r2) by {
                            assert(self.archetypes@[b] == before[b]);
                            assert(row_result(*f, a0[b], before[b], ids@, r2));
                        }
                        // the calls so far, with this one last
                        let old_calls = calls;
                        calls = calls.push(call@);
                        assert forall|k: int| #![trigger calls[k]] 0 <= k < base implies {
                            let (b, r2) = matching_rows(a0, req, a as int)[k];
                            row_updated_by(*f, a0[b], self.archetypes@[b], ids@, r2, calls[k])
                        } by {
                            let (b, r2) = matching_rows(a0, req, a as int)[k];
                            assert(calls[k] == old_calls[k]);
                            assert(0 <= b < a);
                            assert(self.archetypes@[b] == before[b]);
                        }
                        assert forall|k: int| #![trigger calls[k]] base <= k < calls.len() implies
                            row_updated_by(*f, arch0, next, ids@, k - base, calls[k]) by {
                            if k < calls.len() - 1 {
                                let r2 = k - base;
                                assert(calls[k] == old_calls[k]);
                                assert(row_updated_by(*f, arch0, cur, ids@, r2, old_calls[k]));
                                assert forall|c: int| 0 <= c < cur.ncols() implies #[trigger] next.cell(c, r2) == cur.cell(c, r2) by {}
                                lemma_row_map_eq(cur, next, r2, r2);
                            }
                        }
                    }
                    r = r + 1;
                }
                proof {
                    let rows = matching_rows(a0, req, a + 1);
                    assert(rows == matching_rows(a0, req, a as int) + Seq::new(arch0.len as nat, |x: int| (a as int, x)));
                    assert forall|k: int| #![trigger calls[k]] 0 <= k < calls.len() implies {
                        let (b, r2) = rows[k];
                        row_updated_by(*f, a0[b], self.archetypes@[b], ids@, r2, calls[k])
                    } by {
                        if k >= base {
                            assert(rows[k] == (a as int, k - base));
                        } else {
                            assert(rows[k] == matching_rows(a0, req, a as int)[k]);
                        }
                    }
                }
            } else {
                proof {
                    assert(!req.subset_of(arch0.component_bits@)) by {
                        if req.subset_of(arch0.component_bits@) {
                            assert(common == required);
                        }
                    }
                    assert(matching_rows(a0, req, a + 1) == matching_rows(a0, req, a as int));
                }
            }
            a = a + 1;
        }
        Ghost(calls)
    }

}

} // verus!
