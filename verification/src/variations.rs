//! Variation deltas and the store that gathers them.
//!
//! A value that varies is written as a list of deltas, each for one region of
//! the design space. The lists of a whole font go into one store. A list is
//! handed to the store's builder, which answers with a temporary handle; when
//! every list is in, the store is built once, and each handle gets its final
//! index in the store.

use vstd::prelude::*;

verus! {

/// The extent of a region along one axis, in 2.14 fixed-point coordinates.
#[derive(Copy, Clone, Debug, PartialEq, Eq, Structural, PartialOrd, Ord, Hash)]
pub struct RegionAxisCoordinates {
    pub start_coord: i16,
    pub peak_coord: i16,
    pub end_coord: i16,
}

/// A region of the design space: its extent along each axis.
#[derive(Clone, Debug, PartialEq, Eq, PartialOrd, Ord, Hash)]
pub struct VariationRegion {
    pub region_axes: Vec<RegionAxisCoordinates>,
}

impl View for VariationRegion {
    type V = Seq<RegionAxisCoordinates>;

    open spec fn view(&self) -> Seq<RegionAxisCoordinates> {
        self.region_axes@
    }
}

impl VariationRegion {
    /// The region with the given extents.
    pub fn new(region_axes: Vec<RegionAxisCoordinates>) -> (r: Self)
        ensures
            r@ == region_axes@,
    {
        VariationRegion { region_axes }
    }

    /// Whether the two regions have the same extents.
    pub fn same_region(&self, other: &VariationRegion) -> (r: bool)
        ensures
            r == (self@ == other@),
    {
        let n: usize = self.region_axes.len();
        if other.region_axes.len() != n {
            return false;
        }
        let mut i: usize = 0;
        while i < n
            invariant
                i <= n,
                n == self.region_axes.len(),
                n == other.region_axes.len(),
                forall|j: int| 0 <= j < i ==> self.region_axes[j] == other.region_axes[j],
            decreases n - i,
        {
            if self.region_axes[i] != other.region_axes[i] {
                return false;
            }
            i += 1;
        }
        assert(self@ =~= other@);
        true
    }
}

/// A list of deltas as plain values: each region with its delta.
pub type DeltaSet = Seq<(Seq<RegionAxisCoordinates>, i16)>;

/// The plain values of a list of deltas.
pub open spec fn delta_set(deltas: Seq<(VariationRegion, i16)>) -> DeltaSet {
    Seq::new(deltas.len(), |i: int| (deltas[i].0@, deltas[i].1))
}

/// The plain values of lists of deltas.
pub open spec fn delta_sets(lists: Seq<Vec<(VariationRegion, i16)>>) -> Seq<DeltaSet> {
    Seq::new(lists.len(), |i: int| delta_set(lists[i]@))
}

/// Whether the two lists hold the same deltas for the same regions, in the
/// same order.
pub fn same_deltas(a: &Vec<(VariationRegion, i16)>, b: &Vec<(VariationRegion, i16)>) -> (r: bool)
    ensures
        r == (delta_set(a@) == delta_set(b@)),
{
    let n: usize = a.len();
    if b.len() != n {
        assert(delta_set(a@).len() != delta_set(b@).len());
        return false;
    }
    let mut i: usize = 0;
    while i < n
        invariant
            i <= n,
            n == a.len(),
            n == b.len(),
            forall|j: int| 0 <= j < i ==> delta_set(a@)[j] == delta_set(b@)[j],
        decreases n - i,
    {
        if a[i].1 != b[i].1 || !a[i].0.same_region(&b[i].0) {
            proof {
                assert(delta_set(a@)[i as int] != delta_set(b@)[i as int]);
            }
            return false;
        }
        i += 1;
    }
    assert(delta_set(a@) =~= delta_set(b@));
    true
}

/// The handle that stands for a list of deltas until the store is built.
#[derive(Copy, Clone, Debug, PartialEq, Eq, Structural, PartialOrd, Ord, Hash)]
pub struct TemporaryDeltaSetId {
    index: usize,
}

impl View for TemporaryDeltaSetId {
    type V = int;

    /// The place of the list among the lists handed to the builder.
    closed spec fn view(&self) -> int {
        self.index as int
    }
}

/// The index of a list of deltas in the built store.
#[derive(Copy, Clone, Debug, PartialEq, Eq, Structural, PartialOrd, Ord, Hash)]
pub struct VariationIndex {
    pub delta_set_index: usize,
}

/// The first occurrence of each value of a sequence, in order.
pub open spec fn distinct_in_order<A>(s: Seq<A>) -> Seq<A>
    decreases s.len(),
{
    if s.len() == 0 {
        Seq::empty()
    } else {
        let before = distinct_in_order(s.drop_last());
        if before.contains(s.last()) {
            before
        } else {
            before.push(s.last())
        }
    }
}

/// The first occurrences hold every value of the sequence, each once.
pub proof fn lemma_distinct_in_order<A>(s: Seq<A>)
    ensures
        distinct_in_order(s).no_duplicates(),
        forall|a: A| distinct_in_order(s).contains(a) <==> s.contains(a),
        distinct_in_order(s).len() <= s.len(),
    decreases s.len(),
{
    if s.len() > 0 {
        let t = s.drop_last();
        let before = distinct_in_order(t);
        let after = distinct_in_order(s);
        lemma_distinct_in_order(t);
        assert forall|a: A| after.contains(a) <==> s.contains(a) by {
            if after.contains(a) {
                let i = choose|i: int| 0 <= i < after.len() && after[i] == a;
                if i < before.len() {
                    assert(before[i] == a);
                    assert(before.contains(a));
                    assert(t.contains(a));
                    let j = choose|j: int| 0 <= j < t.len() && t[j] == a;
                    assert(t[j] == s[j]);
                } else {
                    assert(s[s.len() - 1] == a);
                }
            }
            if s.contains(a) {
                let j = choose|j: int| 0 <= j < s.len() && s[j] == a;
                if j < t.len() {
                    assert(t[j] == a);
                    assert(t.contains(a));
                    assert(before.contains(a));
                    let i = choose|i: int| 0 <= i < before.len() && before[i] == a;
                    assert(after[i] == a);
                } else if before.contains(a) {
                } else {
                    assert(after[before.len() as int] == a);
                }
            }
        }
    }
}

/// The lists of deltas of a font, each held once.
#[derive(Debug)]
pub struct ItemVariationStore {
    pub delta_sets: Vec<Vec<(VariationRegion, i16)>>,
}

impl View for ItemVariationStore {
    type V = Seq<DeltaSet>;

    open spec fn view(&self) -> Seq<DeltaSet> {
        delta_sets(self.delta_sets@)
    }
}

/// For each temporary handle, the final index of its list in the store.
#[derive(Debug)]
pub struct VariationIndexRemapping {
    map: Vec<usize>,
}

impl View for VariationIndexRemapping {
    type V = Seq<usize>;

    /// The final index of each handle, in the order in which the handles were
    /// given out.
    closed spec fn view(&self) -> Seq<usize> {
        self.map@
    }
}

impl VariationIndexRemapping {
    /// The final index for the handle, if the handle is one of this store.
    pub fn get(&self, temp_id: TemporaryDeltaSetId) -> (r: Option<VariationIndex>)
        ensures
            r == if temp_id@ < self@.len() {
                Some(VariationIndex { delta_set_index: self@[temp_id@] })
            } else {
                None
            },
    {
        if temp_id.index < self.map.len() {
            Some(VariationIndex { delta_set_index: self.map[temp_id.index] })
        } else {
            None
        }
    }
}

/// The builder of a variation store: it gathers the lists of deltas.
#[derive(Debug)]
pub struct VariationStoreBuilder {
    delta_sets: Vec<Vec<(VariationRegion, i16)>>,
}

impl View for VariationStoreBuilder {
    type V = Seq<DeltaSet>;

    /// The lists handed in so far, in order.
    closed spec fn view(&self) -> Seq<DeltaSet> {
        delta_sets(self.delta_sets@)
    }
}

impl VariationStoreBuilder {
    /// A builder without lists.
    pub fn new() -> (r: Self)
        ensures
            r@ == Seq::<DeltaSet>::empty(),
    {
        let r = VariationStoreBuilder { delta_sets: Vec::new() };
        assert(r@ =~= Seq::<DeltaSet>::empty());
        r
    }

    /// Takes a list of deltas and returns the handle that stands for it.
    pub fn add_deltas(&mut self, deltas: Vec<(VariationRegion, i16)>) -> (r: TemporaryDeltaSetId)
        ensures
            final(self)@ == old(self)@.push(delta_set(deltas@)),
            r@ == old(self)@.len(),
    {
        let index: usize = self.delta_sets.len();
        self.delta_sets.push(deltas);
        assert(self@ =~= old(self)@.push(delta_set(deltas@)));
        TemporaryDeltaSetId { index }
    }

    /// Builds the store, and the final index of every handle.
    ///
    /// The store holds each list once, in the order in which the lists were
    /// first handed in; handles of equal lists get the same index.
    pub fn build(self) -> (r: (ItemVariationStore, VariationIndexRemapping))
        ensures
            r.0@ == distinct_in_order(self@),
            r.1@.len() == self@.len(),
            forall|i: int| 0 <= i < self@.len() ==> r.1@[i] == r.0@.index_of(self@[i]),
            forall|i: int|
                0 <= i < self@.len() ==> r.1@[i] < r.0@.len() && r.0@[r.1@[i] as int] == self@[i],
    {
        let ghost all = self@;
        let mut lists: Vec<Vec<(VariationRegion, i16)>> = self.delta_sets;
        let n: usize = lists.len();
        assert(all.skip(0) =~= all);
        let mut kept: Vec<Vec<(VariationRegion, i16)>> = Vec::new();
        let mut map: Vec<usize> = Vec::new();
        let mut i: usize = 0;
        proof {
            assert(all.take(0) =~= Seq::<DeltaSet>::empty());
            assert(delta_sets(kept@) =~= distinct_in_order(all.take(0)));
        }
        while i < n
            invariant
                i <= n,
                n == all.len(),
                delta_sets(lists@) == all.skip(i as int),
                delta_sets(kept@) == distinct_in_order(all.take(i as int)),
                delta_sets(kept@).no_duplicates(),
                map.len() == i,
                forall|j: int|
                    0 <= j < i ==> (#[trigger] map[j]) < kept.len() && delta_sets(
                        kept@,
                    )[map[j] as int] == all[j],
            decreases n - i,
        {
            let ghost rest = lists@;
            let ghost before = delta_sets(kept@);
            let ghost old_map = map@;
            assert(forall|j: int|
                0 <= j < i ==> (#[trigger] old_map[j]) < before.len() && before[old_map[j] as int]
                    == all[j]);
            proof {
                assert(delta_sets(rest).len() == n - i);
                assert(delta_sets(rest)[0] == all.skip(i as int)[0]);
            }
            let list: Vec<(VariationRegion, i16)> = lists.remove(0);
            let ghost now = all.take(i + 1);
            proof {
                assert(now.drop_last() =~= all.take(i as int));
                assert(now.last() == all[i as int]);
                assert(delta_set(list@) == all[i as int]);
                assert(delta_sets(lists@) =~= all.skip(i + 1)) by {
                    assert forall|j: int| 0 <= j < lists@.len() implies delta_sets(lists@)[j]
                        == all.skip(i + 1)[j] by {
                        assert(lists@[j] == rest[j + 1]);
                        assert(delta_sets(rest)[j + 1] == all.skip(i as int)[j + 1]);
                    }
                }
            }
            let m: usize = kept.len();
            let mut at: usize = 0;
            while at < m && !same_deltas(&kept[at], &list)
                invariant
                    at <= m,
                    m == kept.len(),
                    before == delta_sets(kept@),
                    forall|j: int| 0 <= j < at ==> before[j] != delta_set(list@),
                decreases m - at,
            {
                assert(before[at as int] == delta_set(kept[at as int]@));
                at += 1;
            }
            if at == m {
                proof {
                    assert(!before.contains(delta_set(list@)));
                }
                kept.push(list);
                proof {
                    assert(delta_sets(kept@) =~= before.push(all[i as int]));
                    assert(delta_sets(kept@)[m as int] == all[i as int]);
                }
            } else {
                proof {
                    assert(before[at as int] == delta_set(kept[at as int]@));
                    assert(before.contains(all[i as int]));
                }
            }
            map.push(at);
            proof {
                let after = delta_sets(kept@);
                assert(after[at as int] == all[i as int]);
                assert forall|j: int| 0 <= j < i + 1 implies (#[trigger] map[j]) < kept.len()
                    && after[map[j] as int] == all[j] by {
                    if j < i {
                        assert(map[j] == old_map[j]);
                        assert(before[old_map[j] as int] == all[j]);
                        assert(after[old_map[j] as int] == before[old_map[j] as int]);
                    }
                }
            }
            i += 1;
        }
        proof {
            assert(all.take(n as int) =~= all);
            let store = delta_sets(kept@);
            assert forall|i: int| 0 <= i < all.len() implies map@[i] == store.index_of(all[i]) by {
                let k = store.index_of(all[i]);
                assert(store[map@[i] as int] == all[i]);
                assert(store.contains(all[i]));
                assert(0 <= k < store.len() && store[k] == all[i]);
            }
        }
        (ItemVariationStore { delta_sets: kept }, VariationIndexRemapping { map })
    }
}

} // verus!
