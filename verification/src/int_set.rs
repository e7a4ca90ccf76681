//! An ordered set of integer-like values.

use vstd::prelude::*;
use crate::domain::Domain;

verus! {

/// The keys of a sequence of values, in the same order.
pub open spec fn keys_of<T: Domain>(s: Seq<T>) -> Seq<int> {
    Seq::new(s.len(), |i: int| s[i].key())
}

/// Every element is smaller than every later one.
pub open spec fn is_ascending(s: Seq<int>) -> bool {
    forall|i: int, j: int| 0 <= i < j < s.len() ==> s[i] < s[j]
}

/// The set of the elements of a sequence.
pub open spec fn elements(s: Seq<int>) -> Set<int> {
    Set::new(|k: int| exists|i: int| 0 <= i < s.len() && s[i] == k)
}

/// The values with the given keys, in ascending order of key.
pub open spec fn ordered_members<T: Domain>(keys: Set<int>) -> Seq<T> {
    choose|s: Seq<T>| is_ascending(keys_of(s)) && elements(keys_of(s)) == keys
}

/// An ascending sequence has as many elements as its set, which is finite.
pub proof fn lemma_elements_len(s: Seq<int>)
    requires
        is_ascending(s),
    ensures
        elements(s).finite(),
        elements(s).len() == s.len(),
    decreases s.len(),
{
    if s.len() == 0 {
        assert(elements(s) =~= Set::<int>::empty());
    } else {
        let t = s.drop_last();
        let x = s.last();
        lemma_elements_len(t);
        assert(elements(s) =~= elements(t).insert(x)) by {
            assert forall|k: int| elements(s).contains(k) implies elements(t).insert(x).contains(
                k,
            ) by {
                let i = choose|i: int| 0 <= i < s.len() && s[i] == k;
                if i < t.len() {
                    assert(t[i] == k);
                }
            }
            assert forall|k: int| elements(t).insert(x).contains(k) implies elements(s).contains(
                k,
            ) by {
                if k == x {
                    assert(s[s.len() - 1] == k);
                } else {
                    let i = choose|i: int| 0 <= i < t.len() && t[i] == k;
                    assert(s[i] == k);
                }
            }
        }
        assert(!elements(t).contains(x)) by {
            if elements(t).contains(x) {
                let i = choose|i: int| 0 <= i < t.len() && t[i] == x;
                assert(s[i] < s[s.len() - 1]);
            }
        }
    }
}

/// Two ascending sequences with the same elements are the same sequence.
pub proof fn lemma_ascending_unique(a: Seq<int>, b: Seq<int>)
    requires
        is_ascending(a),
        is_ascending(b),
        elements(a) == elements(b),
    ensures
        a == b,
    decreases a.len(),
{
    lemma_elements_len(a);
    lemma_elements_len(b);
    if a.len() > 0 {
        let x = a.last();
        let y = b.last();
        assert(elements(a).contains(x)) by {
            assert(a[a.len() - 1] == x);
        }
        assert(elements(b).contains(y)) by {
            assert(b[b.len() - 1] == y);
        }
        let i = choose|i: int| 0 <= i < b.len() && b[i] == x;
        let j = choose|j: int| 0 <= j < a.len() && a[j] == y;
        assert(x == y) by {
            if i < b.len() - 1 {
                assert(b[i] < b[b.len() - 1]);
            }
            if j < a.len() - 1 {
                assert(a[j] < a[a.len() - 1]);
            }
        }
        let s = a.drop_last();
        let t = b.drop_last();
        assert(elements(s) =~= elements(t)) by {
            assert forall|k: int| elements(s).contains(k) implies elements(t).contains(k) by {
                let p = choose|p: int| 0 <= p < s.len() && s[p] == k;
                assert(a[p] == k);
                assert(a[p] < a[a.len() - 1]);
                assert(elements(a).contains(k));
                let q = choose|q: int| 0 <= q < b.len() && b[q] == k;
                assert(t[q] == k);
            }
            assert forall|k: int| elements(t).contains(k) implies elements(s).contains(k) by {
                let p = choose|p: int| 0 <= p < t.len() && t[p] == k;
                assert(b[p] == k);
                assert(b[p] < b[b.len() - 1]);
                assert(elements(b).contains(k));
                let q = choose|q: int| 0 <= q < a.len() && a[q] == k;
                assert(s[q] == k);
            }
        }
        lemma_ascending_unique(s, t);
        assert(a =~= s.push(x));
        assert(b =~= t.push(y));
    } else {
        assert(a =~= b);
    }
}

/// Where a value stands, or would stand, among ascending items.
///
/// `Ok` gives the index of the item with the value's key. `Err` gives the
/// index at which the value can be inserted to keep the items ascending.
pub fn search<T: Domain>(items: &Vec<T>, value: T) -> (r: Result<usize, usize>)
    requires
        is_ascending(keys_of(items@)),
    ensures
        match r {
            Ok(i) => i < items.len() && items[i as int].key() == value.key(),
            Err(i) => {
                &&& i <= items.len()
                &&& forall|j: int| 0 <= j < i ==> items[j].key() < value.key()
                &&& forall|j: int| i <= j < items.len() ==> value.key() < items[j].key()
            },
        },
{
    let target: u32 = value.to_u32();
    let mut lo: usize = 0;
    let mut hi: usize = items.len();
    while lo < hi
        invariant
            lo <= hi <= items.len(),
            target as int == value.key(),
            is_ascending(keys_of(items@)),
            forall|j: int| 0 <= j < lo ==> items[j].key() < value.key(),
            forall|j: int| hi <= j < items.len() ==> value.key() < items[j].key(),
        decreases hi - lo,
    {
        let mid: usize = lo + (hi - lo) / 2;
        let probe: u32 = items[mid].to_u32();
        if probe == target {
            return Ok(mid);
        } else if probe < target {
            proof {
                let ks = keys_of(items@);
                assert forall|j: int| 0 <= j < mid + 1 implies items[j].key() < value.key() by {
                    if j < mid {
                        assert(ks[j] < ks[mid as int]);
                    }
                }
            }
            lo = mid + 1;
        } else {
            proof {
                let ks = keys_of(items@);
                assert forall|j: int| mid <= j < items.len() implies value.key()
                    < items[j].key() by {
                    if mid < j {
                        assert(ks[mid as int] < ks[j]);
                    }
                }
            }
            hi = mid;
        }
    }
    Err(lo)
}

/// An ordered set of values, each of which stands for an unsigned integer.
///
/// The set is seen through the keys of its members.
#[derive(Debug, PartialEq, Eq)]
pub struct IntSet<T: Domain> {
    items: Vec<T>,
}

impl<T: Domain> View for IntSet<T> {
    type V = Set<int>;

    closed spec fn view(&self) -> Set<int> {
        elements(keys_of(self.items@))
    }
}

impl<T: Domain> IntSet<T> {
    #[verifier::type_invariant]
    spec fn ordered(self) -> bool {
        is_ascending(keys_of(self.items@))
    }

    /// The set without members.
    pub fn empty() -> (r: Self)
        ensures
            r@ == Set::<int>::empty(),
    {
        let r = IntSet { items: Vec::new() };
        assert(r@ =~= Set::<int>::empty());
        r
    }

    /// The set of the given values; a value given twice is held once.
    pub fn from_vec(values: Vec<T>) -> (r: Self)
        ensures
            r@ == elements(keys_of(values@)),
    {
        let mut r = IntSet::empty();
        let n: usize = values.len();
        let mut i: usize = 0;
        while i < n
            invariant
                i <= n,
                n == values.len(),
                r@ == elements(keys_of(values@.take(i as int))),
            decreases n - i,
        {
            r.insert(values[i]);
            proof {
                lemma_elements_take(values@, i as int);
            }
            i += 1;
        }
        assert(values@.take(n as int) =~= values@);
        r
    }

    /// Whether the value is a member.
    pub fn contains(&self, value: T) -> (r: bool)
        ensures
            r == self@.contains(value.key()),
    {
        proof {
            use_type_invariant(self);
        }
        match search(&self.items, value) {
            Ok(i) => {
                assert(keys_of(self.items@)[i as int] == value.key());
                true
            },
            Err(_) => false,
        }
    }

    /// Adds the value; returns whether it was not yet a member.
    pub fn insert(&mut self, value: T) -> (r: bool)
        ensures
            final(self)@ == old(self)@.insert(value.key()),
            r == !old(self)@.contains(value.key()),
    {
        proof {
            use_type_invariant(&*self);
        }
        match search(&self.items, value) {
            Ok(i) => {
                assert(keys_of(self.items@)[i as int] == value.key());
                assert(self@ =~= self@.insert(value.key()));
                false
            },
            Err(i) => {
                let mut items: Vec<T> = Vec::new();
                std::mem::swap(&mut items, &mut self.items);
                proof {
                    lemma_insert_keeps_order(items@, i as int, value);
                }
                items.insert(i, value);
                self.items = items;
                true
            },
        }
    }

    /// The number of members.
    pub fn len(&self) -> (r: usize)
        ensures
            self@.finite(),
            r == self@.len(),
    {
        proof {
            use_type_invariant(self);
            lemma_elements_len(keys_of(self.items@));
        }
        self.items.len()
    }

    /// Whether the set has no member.
    pub fn is_empty(&self) -> (r: bool)
        ensures
            r == (self@ == Set::<int>::empty()),
    {
        proof {
            use_type_invariant(self);
            if self.items.len() == 0 {
                assert(self@ =~= Set::<int>::empty());
            } else {
                assert(keys_of(self.items@)[0] == self.items[0].key());
                assert(self@.contains(self.items[0].key()));
            }
        }
        self.items.len() == 0
    }

    /// The member with the smallest key, if there is a member.
    pub fn first(&self) -> (r: Option<T>)
        ensures
            match r {
                Some(v) => self@.contains(v.key()) && forall|k: int|
                    self@.contains(k) ==> v.key() <= k,
                None => self@ == Set::<int>::empty(),
            },
    {
        proof {
            use_type_invariant(self);
        }
        if self.items.len() == 0 {
            assert(self@ =~= Set::<int>::empty());
            None
        } else {
            let v: T = self.items[0];
            proof {
                let ks = keys_of(self.items@);
                assert(ks[0] == v.key());
                assert forall|k: int| self@.contains(k) implies v.key() <= k by {
                    let p = choose|p: int| 0 <= p < ks.len() && ks[p] == k;
                    if 0 < p {
                        assert(ks[0] < ks[p]);
                    }
                }
            }
            Some(v)
        }
    }

    /// The member with the largest key, if there is a member.
    pub fn last(&self) -> (r: Option<T>)
        ensures
            match r {
                Some(v) => self@.contains(v.key()) && forall|k: int|
                    self@.contains(k) ==> k <= v.key(),
                None => self@ == Set::<int>::empty(),
            },
    {
        proof {
            use_type_invariant(self);
        }
        let n: usize = self.items.len();
        if n == 0 {
            assert(self@ =~= Set::<int>::empty());
            None
        } else {
            let v: T = self.items[n - 1];
            proof {
                let ks = keys_of(self.items@);
                assert(ks[n - 1] == v.key());
                assert forall|k: int| self@.contains(k) implies k <= v.key() by {
                    let p = choose|p: int| 0 <= p < ks.len() && ks[p] == k;
                    if p < n - 1 {
                        assert(ks[p] < ks[n - 1]);
                    }
                }
            }
            Some(v)
        }
    }

    /// The members in ascending order of key.
    pub fn to_vec(&self) -> (r: Vec<T>)
        ensures
            is_ascending(keys_of(r@)),
            elements(keys_of(r@)) == self@,
            r@ == ordered_members::<T>(self@),
    {
        proof {
            use_type_invariant(self);
        }
        let mut out: Vec<T> = Vec::new();
        let n: usize = self.items.len();
        let mut i: usize = 0;
        while i < n
            invariant
                i <= n,
                n == self.items.len(),
                out@ == self.items@.take(i as int),
            decreases n - i,
        {
            out.push(self.items[i]);
            assert(out@ =~= self.items@.take(i + 1));
            i += 1;
        }
        assert(out@ =~= self.items@);
        proof {
            lemma_ordered_members(out@);
        }
        out
    }

    /// Adds every member of `other`.
    pub fn extend(&mut self, other: &IntSet<T>)
        ensures
            final(self)@ == old(self)@.union(other@),
    {
        proof {
            use_type_invariant(other);
        }
        let n: usize = other.items.len();
        let mut i: usize = 0;
        assert(self@ =~= old(self)@.union(elements(keys_of(other.items@.take(0)))));
        while i < n
            invariant
                i <= n,
                n == other.items.len(),
                self@ == old(self)@.union(elements(keys_of(other.items@.take(i as int)))),
            decreases n - i,
        {
            self.insert(other.items[i]);
            proof {
                lemma_elements_take(other.items@, i as int);
            }
            i += 1;
        }
        assert(other.items@.take(n as int) =~= other.items@);
    }

    /// Whether the two sets share a member.
    pub fn intersects(&self, other: &IntSet<T>) -> (r: bool)
        ensures
            r == !self@.disjoint(other@),
    {
        proof {
            use_type_invariant(other);
        }
        let n: usize = other.items.len();
        let mut i: usize = 0;
        while i < n
            invariant
                i <= n,
                n == other.items.len(),
                forall|j: int| 0 <= j < i ==> !self@.contains(other.items[j].key()),
            decreases n - i,
        {
            if self.contains(other.items[i]) {
                proof {
                    let k = other.items[i as int].key();
                    assert(keys_of(other.items@)[i as int] == k);
                    assert(self@.contains(k) && other@.contains(k));
                }
                return true;
            }
            i += 1;
        }
        proof {
            assert forall|k: int| self@.contains(k) && other@.contains(k) implies false by {
                let ks = keys_of(other.items@);
                let p = choose|p: int| 0 <= p < ks.len() && ks[p] == k;
                assert(other.items[p].key() == k);
            }
        }
        false
    }

    /// Whether the two sets have the same members.
    pub fn same_members(&self, other: &IntSet<T>) -> (r: bool)
        ensures
            r == (self@ == other@),
    {
        proof {
            use_type_invariant(self);
            use_type_invariant(other);
            lemma_elements_len(keys_of(self.items@));
            lemma_elements_len(keys_of(other.items@));
        }
        let n: usize = self.items.len();
        if other.items.len() != n {
            return false;
        }
        let mut i: usize = 0;
        while i < n
            invariant
                i <= n,
                n == self.items.len(),
                n == other.items.len(),
                is_ascending(keys_of(self.items@)),
                is_ascending(keys_of(other.items@)),
                forall|j: int| 0 <= j < i ==> self.items[j].key() == other.items[j].key(),
            decreases n - i,
        {
            if self.items[i].to_u32() != other.items[i].to_u32() {
                proof {
                    if self@ == other@ {
                        lemma_ascending_unique(keys_of(self.items@), keys_of(other.items@));
                        assert(keys_of(self.items@)[i as int] == keys_of(other.items@)[i as int]);
                    }
                }
                return false;
            }
            i += 1;
        }
        assert(keys_of(self.items@) =~= keys_of(other.items@));
        true
    }
}

impl<T: Domain> Clone for IntSet<T> {
    /// A copy of the set.
    fn clone(&self) -> (r: Self)
        ensures
            r@ == self@,
    {
        IntSet { items: self.to_vec() }
    }
}

/// One value more of a sequence adds its key to the elements.
proof fn lemma_elements_take<T: Domain>(s: Seq<T>, i: int)
    requires
        0 <= i < s.len(),
    ensures
        elements(keys_of(s.take(i + 1))) == elements(keys_of(s.take(i))).insert(s[i].key()),
{
    let a = keys_of(s.take(i));
    let b = keys_of(s.take(i + 1));
    let x = s[i].key();
    assert forall|k: int| elements(b).contains(k) implies elements(a).insert(x).contains(k) by {
        let p = choose|p: int| 0 <= p < b.len() && b[p] == k;
        if p < i {
            assert(a[p] == k);
        }
    }
    assert forall|k: int| elements(a).insert(x).contains(k) implies elements(b).contains(k) by {
        if k == x {
            assert(b[i] == k);
        } else {
            let p = choose|p: int| 0 <= p < a.len() && a[p] == k;
            assert(b[p] == k);
        }
    }
    assert(elements(b) =~= elements(a).insert(x));
}

/// Values in ascending order of key are the ordered members of their key set.
pub proof fn lemma_ordered_members<T: Domain>(s: Seq<T>)
    requires
        is_ascending(keys_of(s)),
    ensures
        ordered_members::<T>(elements(keys_of(s))) == s,
{
    let t = ordered_members::<T>(elements(keys_of(s)));
    assert(is_ascending(keys_of(t)) && elements(keys_of(t)) == elements(keys_of(s)));
    lemma_ascending_unique(keys_of(s), keys_of(t));
    assert(s =~= t) by {
        assert(keys_of(s).len() == keys_of(t).len());
        assert forall|i: int| 0 <= i < s.len() implies s[i] == t[i] by {
            assert(keys_of(s)[i] == keys_of(t)[i]);
            T::lemma_key_determines(s[i], t[i]);
        }
    }
}

/// Inserting a value between the smaller and the larger items keeps the order
/// and adds its key to the elements.
proof fn lemma_insert_keeps_order<T: Domain>(items: Seq<T>, at: int, value: T)
    requires
        is_ascending(keys_of(items)),
        0 <= at <= items.len(),
        forall|j: int| 0 <= j < at ==> items[j].key() < value.key(),
        forall|j: int| at <= j < items.len() ==> value.key() < items[j].key(),
    ensures
        is_ascending(keys_of(items.insert(at, value))),
        elements(keys_of(items.insert(at, value))) == elements(keys_of(items)).insert(value.key()),
{
    let a = keys_of(items);
    let b = keys_of(items.insert(at, value));
    assert forall|i: int, j: int| 0 <= i < j < b.len() implies b[i] < b[j] by {
        let pi = if i < at { i } else { i - 1 };
        let pj = if j < at { j } else { j - 1 };
        if i != at && j != at {
            assert(a[pi] < a[pj]);
        }
    }
    assert forall|k: int| elements(b).contains(k) implies elements(a).insert(
        value.key(),
    ).contains(k) by {
        let p = choose|p: int| 0 <= p < b.len() && b[p] == k;
        if p < at {
            assert(a[p] == k);
        } else if p > at {
            assert(a[p - 1] == k);
        }
    }
    assert forall|k: int| elements(a).insert(value.key()).contains(k) implies elements(
        b,
    ).contains(k) by {
        if k == value.key() {
            assert(b[at] == k);
        } else {
            let p = choose|p: int| 0 <= p < a.len() && a[p] == k;
            if p < at {
                assert(b[p] == k);
            } else {
                assert(b[p + 1] == k);
            }
        }
    }
    assert(elements(b) =~= elements(a).insert(value.key()));
}

} // verus!
