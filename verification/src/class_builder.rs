//! The builder that sorts glyphs into disjoint classes and numbers the
//! classes by size.

use vstd::prelude::*;
use crate::class_def::{
    class_at, is_class_entries, last_class, lemma_class_def_round_trip, lemma_entries_determined,
    ClassDef, ClassDefBuilderImpl,
};
use crate::domain::{Domain, GlyphId16};
use crate::int_set::{keys_of, IntSet};

verus! {

/// A builder of class definition tables from whole classes.
///
/// A class is a set of glyphs. The classes that the builder holds are
/// disjoint: no glyph is in two of them. When the table is built, the larger
/// a class is, the smaller the number it gets.
#[derive(Debug)]
pub struct ClassDefBuilder {
    classes: Vec<IntSet<GlyphId16>>,
    all_glyphs: IntSet<GlyphId16>,
    use_class_0: bool,
}

/// The sets of glyphs that the classes of a sequence hold, in the same order.
pub open spec fn class_views(classes: Seq<IntSet<GlyphId16>>) -> Seq<Set<int>> {
    Seq::new(classes.len(), |i: int| classes[i]@)
}

/// No glyph is in two of the classes.
pub open spec fn are_disjoint(classes: Set<Set<int>>) -> bool {
    forall|c: Set<int>, d: Set<int>, g: int|
        classes.contains(c) && classes.contains(d) && #[trigger] c.contains(g)
            && #[trigger] d.contains(g) ==> c == d
}

/// The glyphs that are in one of the classes.
pub open spec fn all_members(classes: Set<Set<int>>) -> Set<int> {
    Set::new(|g: int| exists|c: Set<int>| classes.contains(c) && c.contains(g))
}

impl Default for ClassDefBuilder {
    fn default() -> (r: Self)
        ensures
            r.classes() == Set::<Set<int>>::empty(),
            r.assigned() == Set::<int>::empty(),
            !r.uses_class_0(),
    {
        ClassDefBuilder::new()
    }
}

impl ClassDefBuilder {
    #[verifier::type_invariant]
    spec fn partition(self) -> bool {
        &&& class_views(self.classes@).no_duplicates()
        &&& are_disjoint(self.classes())
        &&& self.all_glyphs@ == all_members(self.classes())
    }

    /// The classes that the builder holds.
    pub closed spec fn classes(&self) -> Set<Set<int>> {
        class_views(self.classes@).to_set()
    }

    /// The glyphs that are in one of the classes.
    pub closed spec fn assigned(&self) -> Set<int> {
        self.all_glyphs@
    }

    /// Whether the first class gets number 0 instead of 1.
    pub closed spec fn uses_class_0(&self) -> bool {
        self.use_class_0
    }

    /// Whether a class can be added: it is held already, or none of its glyphs
    /// is in a class.
    pub open spec fn accepts(&self, cls: Set<int>) -> bool {
        self.classes().contains(cls) || cls.disjoint(self.assigned())
    }

    /// A builder without classes, which numbers its classes from 1, so that
    /// class 0 is left to the glyphs in no class.
    pub fn new() -> (r: Self)
        ensures
            r.classes() == Set::<Set<int>>::empty(),
            r.assigned() == Set::<int>::empty(),
            !r.uses_class_0(),
    {
        let classes: Vec<IntSet<GlyphId16>> = Vec::new();
        let all_glyphs: IntSet<GlyphId16> = IntSet::empty();
        proof {
            assert(class_views(classes@).to_set() =~= Set::<Set<int>>::empty());
            assert(all_members(class_views(classes@).to_set()) =~= Set::<int>::empty());
        }
        ClassDefBuilder { classes, all_glyphs, use_class_0: false }
    }

    /// A builder without classes, which numbers its classes from 0.
    ///
    /// This is for tables that are read only for glyphs known to be in a
    /// class, where class 0 need not stand for "no class".
    pub fn new_using_class_0() -> (r: Self)
        ensures
            r.classes() == Set::<Set<int>>::empty(),
            r.assigned() == Set::<int>::empty(),
            r.uses_class_0(),
    {
        let classes: Vec<IntSet<GlyphId16>> = Vec::new();
        let all_glyphs: IntSet<GlyphId16> = IntSet::empty();
        proof {
            assert(class_views(classes@).to_set() =~= Set::<Set<int>>::empty());
            assert(all_members(class_views(classes@).to_set()) =~= Set::<int>::empty());
        }
        ClassDefBuilder { classes, all_glyphs, use_class_0: true }
    }

    /// Whether the builder holds the class.
    fn has_class(&self, cls: &IntSet<GlyphId16>) -> (r: bool)
        ensures
            r == self.classes().contains(cls@),
    {
        let n: usize = self.classes.len();
        let mut i: usize = 0;
        while i < n
            invariant
                i <= n,
                n == self.classes.len(),
                forall|j: int| 0 <= j < i ==> self.classes[j]@ != cls@,
            decreases n - i,
        {
            if self.classes[i].same_members(cls) {
                proof {
                    assert(class_views(self.classes@)[i as int] == cls@);
                }
                return true;
            }
            i += 1;
        }
        proof {
            let views = class_views(self.classes@);
            assert forall|j: int| 0 <= j < views.len() implies views[j] != cls@ by {
                assert(views[j] == self.classes[j]@);
            }
        }
        false
    }

    /// Whether the class can be added.
    pub fn can_add(&self, cls: &IntSet<GlyphId16>) -> (r: bool)
        ensures
            r == self.accepts(cls@),
    {
        self.has_class(cls) || !cls.intersects(&self.all_glyphs)
    }

    /// Adds the class if it can be added, and returns whether it could.
    ///
    /// A class that is held already is accepted and changes nothing. A class
    /// that shares a glyph with another class is refused, and the builder is
    /// left as it was.
    pub fn checked_add(&mut self, cls: IntSet<GlyphId16>) -> (r: bool)
        ensures
            r == old(self).accepts(cls@),
            r ==> final(self).classes() == old(self).classes().insert(cls@),
            r ==> final(self).assigned() == old(self).assigned().union(cls@),
            !r ==> *final(self) == *old(self),
            old(self).classes().contains(cls@) ==> *final(self) == *old(self),
            final(self).uses_class_0() == old(self).uses_class_0(),
            are_disjoint(final(self).classes()),
            final(self).assigned() == all_members(final(self).classes()),
    {
        proof {
            use_type_invariant(&*self);
        }
        if self.has_class(&cls) {
            proof {
                assert(self.classes().insert(cls@) =~= self.classes());
                assert(self.assigned().union(cls@) =~= self.assigned());
            }
            true
        } else if !cls.intersects(&self.all_glyphs) {
            let mut taken = ClassDefBuilder::new();
            std::mem::swap(self, &mut taken);
            let ClassDefBuilder { classes, all_glyphs, use_class_0 } = taken;
            let mut classes = classes;
            let mut all_glyphs = all_glyphs;
            let ghost before = class_views(classes@);
            all_glyphs.extend(&cls);
            classes.push(cls);
            proof {
                let after = class_views(classes@);
                assert(after =~= before.push(cls@));
                lemma_push_class(before, cls@);
            }
            *self = ClassDefBuilder { classes, all_glyphs, use_class_0 };
            true
        } else {
            false
        }
    }
}

/// Adding a class that is new and shares no glyph with the others keeps the
/// classes distinct and disjoint, and adds its glyphs to theirs.
proof fn lemma_push_class(views: Seq<Set<int>>, cls: Set<int>)
    requires
        views.no_duplicates(),
        are_disjoint(views.to_set()),
        !views.to_set().contains(cls),
        cls.disjoint(all_members(views.to_set())),
    ensures
        views.push(cls).no_duplicates(),
        views.push(cls).to_set() == views.to_set().insert(cls),
        are_disjoint(views.push(cls).to_set()),
        all_members(views.push(cls).to_set()) == all_members(views.to_set()).union(cls),
{
    let after = views.push(cls);
    assert forall|i: int, j: int|
        0 <= i < after.len() && 0 <= j < after.len() && i != j implies after[i] != after[j] by {
        if i < views.len() {
            assert(views.to_set().contains(views[i]));
        }
        if j < views.len() {
            assert(views.to_set().contains(views[j]));
        }
    }
    assert(after.to_set() =~= views.to_set().insert(cls)) by {
        assert forall|c: Set<int>| after.to_set().contains(c) <==> views.to_set().insert(
            cls,
        ).contains(c) by {
            if after.contains(c) {
                let i = choose|i: int| 0 <= i < after.len() && after[i] == c;
                if i < views.len() {
                    assert(views[i] == c);
                }
            }
            if views.contains(c) {
                let i = choose|i: int| 0 <= i < views.len() && views[i] == c;
                assert(after[i] == c);
            }
            if c == cls {
                assert(after[views.len() as int] == c);
            }
        }
    }
    assert forall|c: Set<int>, d: Set<int>, g: int|
        after.to_set().contains(c) && after.to_set().contains(d) && #[trigger] c.contains(g)
            && #[trigger] d.contains(g) implies c == d by {
        if c != cls && d == cls {
            assert(all_members(views.to_set()).contains(g));
        }
        if c == cls && d != cls {
            assert(all_members(views.to_set()).contains(g));
        }
    }
    assert(all_members(after.to_set()) =~= all_members(views.to_set()).union(cls)) by {
        assert forall|g: int| all_members(after.to_set()).contains(g) <==> all_members(
            views.to_set(),
        ).union(cls).contains(g) by {
            if all_members(after.to_set()).contains(g) {
                let c = choose|c: Set<int>| after.to_set().contains(c) && c.contains(g);
                if c != cls {
                    assert(views.to_set().contains(c));
                }
            }
            if all_members(views.to_set()).contains(g) {
                let c = choose|c: Set<int>| views.to_set().contains(c) && c.contains(g);
                assert(after.to_set().contains(c));
            }
            if cls.contains(g) {
                assert(after.to_set().contains(cls));
            }
        }
    }
}

/// Whether `m` is a member of the set and no member is smaller.
pub open spec fn is_min_of(c: Set<int>, m: int) -> bool {
    c.contains(m) && forall|k: int| c.contains(k) ==> m <= k
}

/// The smallest member of a set of glyphs, and 0 for a set without one.
pub open spec fn min_member(c: Set<int>) -> int {
    if exists|m: int| is_min_of(c, m) {
        choose|m: int| is_min_of(c, m)
    } else {
        0
    }
}

/// The order in which classes are numbered: the larger class first, and of
/// two classes of one size the one with the smaller first glyph.
pub open spec fn class_precedes(a: Set<int>, b: Set<int>) -> bool {
    a.len() > b.len() || (a.len() == b.len() && min_member(a) < min_member(b))
}

/// Whether the sequence numbers the classes: it holds each class once, in
/// the order of [`class_precedes`], with consecutive numbers from `first_id`.
pub open spec fn is_class_assignment(
    classes: Set<Set<int>>,
    first_id: int,
    m: Seq<(Set<int>, u16)>,
) -> bool {
    &&& forall|j: int| 0 <= j < m.len() ==> classes.contains(#[trigger] m[j].0)
    &&& forall|c: Set<int>|
        classes.contains(c) ==> exists|j: int| 0 <= j < m.len() && #[trigger] m[j].0 == c
    &&& forall|j: int, k: int| 0 <= j < k < m.len() ==> class_precedes(m[j].0, m[k].0)
    &&& forall|j: int| 0 <= j < m.len() ==> #[trigger] m[j].1 == first_id + j
}

/// The number of the last class of the sequence that holds the glyph, and 0
/// where none holds it.
pub open spec fn assigned_class(m: Seq<(Set<int>, u16)>, glyph: int) -> u16
    decreases m.len(),
{
    if m.len() == 0 {
        0
    } else if m.last().0.contains(glyph) {
        m.last().1
    } else {
        assigned_class(m.drop_last(), glyph)
    }
}

/// Whether the table is the smaller layout of the entries that give each
/// glyph the number of its class, and no entry to a glyph with number 0.
pub open spec fn is_table_of(table: ClassDef, m: Seq<(Set<int>, u16)>) -> bool {
    exists|e: Seq<(u16, u16)>|
        is_class_entries(e) && #[trigger] table.is_encoding_of(e) && forall|g: u16|
            class_at(e, g) == assigned_class(m, g as int)
}

/// The number of the first class, from index `from` on, that has the given
/// glyphs.
pub open spec fn id_from(m: Seq<(Set<int>, u16)>, cls: Set<int>, from: int) -> Option<u16>
    decreases m.len() - from,
{
    if from < 0 || from >= m.len() {
        None
    } else if m[from].0 == cls {
        Some(m[from].1)
    } else {
        id_from(m, cls, from + 1)
    }
}

/// The glyphs of each class of a sequence, with the class's number.
pub open spec fn mapping_view(entries: Seq<(IntSet<GlyphId16>, u16)>) -> Seq<(Set<int>, u16)> {
    Seq::new(entries.len(), |i: int| (entries[i].0@, entries[i].1))
}

/// The numbers that a builder gave to its classes.
#[derive(Debug)]
pub struct ClassMapping {
    entries: Vec<(IntSet<GlyphId16>, u16)>,
}

impl View for ClassMapping {
    type V = Seq<(Set<int>, u16)>;

    /// Each class with its number, in ascending order of number.
    closed spec fn view(&self) -> Seq<(Set<int>, u16)> {
        mapping_view(self.entries@)
    }
}

impl ClassMapping {
    /// The number of the class, if it has one.
    pub fn get(&self, cls: &IntSet<GlyphId16>) -> (r: Option<u16>)
        ensures
            r == id_from(self@, cls@, 0),
    {
        let n: usize = self.entries.len();
        let mut i: usize = 0;
        while i < n
            invariant
                i <= n,
                n == self.entries.len(),
                id_from(self@, cls@, 0) == id_from(self@, cls@, i as int),
            decreases n - i,
        {
            assert(self@[i as int] == (self.entries[i as int].0@, self.entries[i as int].1));
            if self.entries[i].0.same_members(cls) {
                return Some(self.entries[i].1);
            }
            i += 1;
        }
        None
    }

    /// Whether the class has a number.
    pub fn contains_key(&self, cls: &IntSet<GlyphId16>) -> (r: bool)
        ensures
            r == id_from(self@, cls@, 0).is_some(),
    {
        self.get(cls).is_some()
    }

    /// The number of classes.
    pub fn len(&self) -> (r: usize)
        ensures
            r == self@.len(),
    {
        self.entries.len()
    }
}

/// The size of a class and its smallest glyph, by which classes are ordered.
fn class_key(cls: &IntSet<GlyphId16>) -> (r: (usize, u16))
    ensures
        cls@.finite(),
        r.0 == cls@.len(),
        r.1 == min_member(cls@),
        cls@.len() > 0 ==> is_min_of(cls@, r.1 as int),
{
    let size: usize = cls.len();
    match cls.first() {
        Some(g) => {
            proof {
                assert(is_min_of(cls@, g.key()));
                let m = min_member(cls@);
                assert(is_min_of(cls@, m));
            }
            (size, g.to_u16())
        },
        None => {
            proof {
                assert forall|m: int| !is_min_of(cls@, m) by {}
            }
            (size, 0)
        },
    }
}

/// The order of [`class_precedes`], on the keys of two classes.
spec fn key_precedes(a: (usize, u16), b: (usize, u16)) -> bool {
    a.0 > b.0 || (a.0 == b.0 && a.1 < b.1)
}

/// Whether `key` is the key of the class.
spec fn is_key_of(c: Set<int>, key: (usize, u16)) -> bool {
    &&& c.finite()
    &&& key.0 == c.len()
    &&& key.1 == min_member(c)
    &&& c.len() > 0 ==> is_min_of(c, key.1 as int)
}

/// Two distinct classes without a common glyph have distinct keys.
proof fn lemma_distinct_keys(c: Set<int>, d: Set<int>, kc: (usize, u16), kd: (usize, u16))
    requires
        is_key_of(c, kc),
        is_key_of(d, kd),
        c != d,
        forall|g: int| !(c.contains(g) && d.contains(g)),
    ensures
        kc != kd,
{
    if kc == kd {
        if c.len() == 0 {
            c.lemma_len0_is_empty();
            d.lemma_len0_is_empty();
            assert(c =~= d);
        } else {
            assert(c.contains(kc.1 as int) && d.contains(kc.1 as int));
        }
    }
}

/// Whether the index is one of those in the sequence.
spec fn appears(order: Seq<usize>, i: int) -> bool {
    exists|a: int| 0 <= a < order.len() && order[a] == i
}

/// The indices of the classes in the order in which they are numbered.
fn sorted_order(classes: &Vec<IntSet<GlyphId16>>) -> (order: Vec<usize>)
    requires
        class_views(classes@).no_duplicates(),
        are_disjoint(class_views(classes@).to_set()),
    ensures
        order.len() == classes.len(),
        forall|a: int| 0 <= a < order.len() ==> order[a] < classes.len(),
        forall|i: int| 0 <= i < classes.len() ==> #[trigger] appears(order@, i),
        forall|a: int, b: int|
            0 <= a < b < order.len() ==> class_precedes(
                classes[order[a] as int]@,
                classes[order[b] as int]@,
            ),
        forall|i: int| 0 <= i < classes.len() ==> (#[trigger] classes[i]@).finite(),
{
    let n: usize = classes.len();
    let ghost views = class_views(classes@);
    let mut keys: Vec<(usize, u16)> = Vec::new();
    let mut k: usize = 0;
    while k < n
        invariant
            k <= n,
            n == classes.len(),
            keys.len() == k,
            forall|i: int| 0 <= i < k ==> is_key_of(classes[i]@, #[trigger] keys[i]),
        decreases n - k,
    {
        keys.push(class_key(&classes[k]));
        k += 1;
    }
    let mut order: Vec<usize> = Vec::new();
    let mut i: usize = 0;
    while i < n
        invariant
            i <= n,
            n == classes.len(),
            keys.len() == n,
            views == class_views(classes@),
            views.no_duplicates(),
            are_disjoint(views.to_set()),
            forall|x: int| 0 <= x < n ==> is_key_of(classes[x]@, #[trigger] keys[x]),
            order.len() == i,
            forall|a: int| 0 <= a < order.len() ==> order[a] < i,
            forall|x: int| 0 <= x < i ==> #[trigger] appears(order@, x),
            forall|a: int, b: int|
                0 <= a < b < order.len() ==> key_precedes(
                    keys[order[a] as int],
                    keys[order[b] as int],
                ),
        decreases n - i,
    {
        let key: (usize, u16) = keys[i];
        let m: usize = order.len();
        let mut p: usize = 0;
        while p < m && !(key.0 > keys[order[p]].0 || (key.0 == keys[order[p]].0 && key.1
            < keys[order[p]].1))
            invariant
                p <= m,
                m == order.len(),
                keys.len() == n,
                i < n,
                key == keys[i as int],
                forall|a: int| 0 <= a < order.len() ==> order[a] < i,
                forall|a: int| 0 <= a < p ==> !key_precedes(key, keys[order[a] as int]),
            decreases m - p,
        {
            p += 1;
        }
        let ghost before = order@;
        proof {
            assert forall|a: int| 0 <= a < p implies key_precedes(
                keys[before[a] as int],
                key,
            ) by {
                let x = before[a] as int;
                assert(views[x] == classes[x]@);
                assert(views[i as int] == classes[i as int]@);
                assert(views[x] != views[i as int]);
                assert(views.to_set().contains(views[x]));
                assert(views.to_set().contains(views[i as int]));
                lemma_distinct_keys(classes[x]@, classes[i as int]@, keys[x], key);
            }
            assert forall|a: int| p <= a < m implies key_precedes(key, keys[before[a] as int]) by {
                if p < a {
                    assert(key_precedes(keys[before[p as int] as int], keys[before[a] as int]));
                }
            }
        }
        order.insert(p, i);
        proof {
            assert forall|x: int| 0 <= x < i + 1 implies #[trigger] appears(order@, x) by {
                if x == i {
                    assert(order[p as int] == x);
                } else {
                    assert(appears(before, x));
                    let a = choose|a: int| 0 <= a < before.len() && before[a] == x;
                    if a < p {
                        assert(order[a] == x);
                    } else {
                        assert(order[a + 1] == x);
                    }
                }
            }
            assert forall|a: int, b: int| 0 <= a < b < order.len() implies key_precedes(
                keys[order[a] as int],
                keys[order[b] as int],
            ) by {
                let pa = if a < p { a } else { a - 1 };
                let pb = if b < p { b } else { b - 1 };
                if a != p && b != p {
                    assert(key_precedes(keys[before[pa] as int], keys[before[pb] as int]));
                }
            }
        }
        i += 1;
    }
    proof {
        assert forall|a: int, b: int| 0 <= a < b < order.len() implies class_precedes(
            classes[order[a] as int]@,
            classes[order[b] as int]@,
        ) by {
            assert(key_precedes(keys[order[a] as int], keys[order[b] as int]));
        }
        assert forall|i: int| 0 <= i < classes.len() implies (#[trigger] classes[i]@).finite() by {
            assert(is_key_of(classes[i]@, keys[i]));
        }
    }
    order
}

/// The pairs that give each of the glyphs the class `id`.
spec fn class_block(glyphs: Seq<GlyphId16>, id: u16, count: int) -> Seq<(GlyphId16, u16)> {
    Seq::new(count as nat, |p: int| (glyphs[p], id))
}

/// Whether the glyph is among the first `count` glyphs.
spec fn is_among(glyphs: Seq<GlyphId16>, glyph: u16, count: int) -> bool {
    exists|p: int| 0 <= p < count && glyphs[p].id == glyph
}

/// Behind other pairs, the pairs of one class give its number to its glyphs,
/// unless the number is 0, and leave the other glyphs as they were.
proof fn lemma_last_class_block(
    pairs: Seq<(GlyphId16, u16)>,
    glyphs: Seq<GlyphId16>,
    id: u16,
    count: int,
    g: u16,
)
    requires
        0 <= count <= glyphs.len(),
    ensures
        last_class(pairs + class_block(glyphs, id, count), g) == if id != 0 && is_among(
            glyphs,
            g,
            count,
        ) {
            id
        } else {
            last_class(pairs, g)
        },
    decreases count,
{
    let all = pairs + class_block(glyphs, id, count);
    if count == 0 {
        assert(all =~= pairs);
    } else {
        let shorter = pairs + class_block(glyphs, id, count - 1);
        lemma_last_class_block(pairs, glyphs, id, count - 1, g);
        assert(all.drop_last() =~= shorter);
        assert(all.last() == (glyphs[count - 1], id));
        if id != 0 {
            if glyphs[count - 1].id == g {
                assert(is_among(glyphs, g, count));
            } else {
                if is_among(glyphs, g, count) {
                    let p = choose|p: int| 0 <= p < count && glyphs[p].id == g;
                    assert(0 <= p < count - 1 && glyphs[p].id == g);
                }
                if is_among(glyphs, g, count - 1) {
                    let p = choose|p: int| 0 <= p < count - 1 && glyphs[p].id == g;
                    assert(0 <= p < count && glyphs[p].id == g);
                }
            }
        }
    }
}

impl ClassDefBuilder {
    /// The number of the first class: 0 or 1.
    pub open spec fn first_id(&self) -> int {
        if self.uses_class_0() {
            0
        } else {
            1
        }
    }

    /// Whether the first class gets number 0 instead of 1.
    pub fn use_class_0(&self) -> (r: bool)
        ensures
            r == self.uses_class_0(),
    {
        self.use_class_0
    }

    /// The glyphs that are in one of the classes.
    pub fn all_glyphs(&self) -> (r: &IntSet<GlyphId16>)
        ensures
            r@ == self.assigned(),
    {
        &self.all_glyphs
    }

    /// The classes, in the order in which they were added.
    pub fn classes_added(&self) -> (r: &Vec<IntSet<GlyphId16>>)
        ensures
            class_views(r@).to_set() == self.classes(),
            class_views(r@).no_duplicates(),
    {
        proof {
            use_type_invariant(self);
        }
        &self.classes
    }

    /// How many classes the builder holds.
    pub fn class_count(&self) -> (r: usize)
        ensures
            self.classes().finite(),
            r == self.classes().len(),
    {
        proof {
            use_type_invariant(self);
            class_views(self.classes@).unique_seq_to_set();
        }
        self.classes.len()
    }

    /// The table of the classes, and the number that each class got.
    ///
    /// The classes are numbered from [`Self::first_id`] in the order of
    /// [`class_precedes`]. The table gives each glyph of a class the class's
    /// number and holds no entry for number 0. It cannot be built when the
    /// numbers do not fit in 16 bits.
    pub fn build_with_mapping(self) -> (r: (ClassDef, ClassMapping))
        requires
            self.classes().len() + self.first_id() <= 0x1_0000,
        ensures
            is_class_assignment(self.classes(), self.first_id(), r.1@),
            is_table_of(r.0, r.1@),
    {
        proof {
            use_type_invariant(&self);
            class_views(self.classes@).unique_seq_to_set();
        }
        let ghost views = class_views(self.classes@);
        let order: Vec<usize> = sorted_order(&self.classes);
        let n: usize = self.classes.len();
        let add_one: u16 = if self.use_class_0 {
            0
        } else {
            1
        };
        let mut entries: Vec<(IntSet<GlyphId16>, u16)> = Vec::new();
        let mut pairs: Vec<(GlyphId16, u16)> = Vec::new();
        let mut j: usize = 0;
        while j < n
            invariant
                j <= n,
                n == self.classes.len(),
                order.len() == n,
                n + add_one <= 0x1_0000,
                forall|a: int| 0 <= a < order.len() ==> order[a] < n,
                entries.len() == j,
                forall|a: int|
                    0 <= a < j ==> (#[trigger] entries[a]).0@ == self.classes[order[a] as int]@
                        && entries[a].1 == a + add_one,
                forall|g: u16|
                    last_class(pairs@, g) == assigned_class(mapping_view(entries@), g as int),
            decreases n - j,
        {
            let cls: &IntSet<GlyphId16> = &self.classes[order[j]];
            let id: u16 = j as u16 + add_one;
            let glyphs: Vec<GlyphId16> = cls.to_vec();
            let ghost pairs0 = pairs@;
            let ghost m = mapping_view(entries@);
            let count: usize = glyphs.len();
            let mut t: usize = 0;
            assert(pairs@ =~= pairs0 + class_block(glyphs@, id, 0));
            while t < count
                invariant
                    t <= count,
                    count == glyphs.len(),
                    pairs@ == pairs0 + class_block(glyphs@, id, t as int),
                decreases count - t,
            {
                pairs.push((glyphs[t], id));
                assert(pairs@ =~= pairs0 + class_block(glyphs@, id, t + 1));
                t += 1;
            }
            entries.push((cls.clone(), id));
            proof {
                let longer = mapping_view(entries@);
                assert(longer.drop_last() =~= m);
                assert(longer.last() == (cls@, id));
                assert forall|g: u16| last_class(pairs@, g) == assigned_class(longer, g as int) by {
                    lemma_last_class_block(pairs0, glyphs@, id, count as int, g);
                    let ks = keys_of(glyphs@);
                    if cls@.contains(g as int) {
                        let p = choose|p: int| 0 <= p < ks.len() && ks[p] == g as int;
                        assert(glyphs[p].id == g);
                        assert(is_among(glyphs@, g, count as int));
                        if id == 0 {
                            assert(m.len() == 0);
                        }
                    } else {
                        if is_among(glyphs@, g, count as int) {
                            let p = choose|p: int| 0 <= p < count && glyphs[p].id == g;
                            assert(ks[p] == g as int);
                        }
                    }
                }
            }
            j += 1;
        }
        let built: ClassDefBuilderImpl = ClassDefBuilderImpl::from_iter(pairs);
        let class_def: ClassDef = built.build();
        let mapping = ClassMapping { entries };
        proof {
            let m = mapping@;
            assert forall|j: int| 0 <= j < m.len() implies self.classes().contains(
                #[trigger] m[j].0,
            ) by {
                assert(m[j].0 == entries[j].0@);
                assert(views[order[j] as int] == m[j].0);
            }
            assert forall|c: Set<int>| self.classes().contains(c) implies exists|j: int|
                0 <= j < m.len() && #[trigger] m[j].0 == c by {
                let i = choose|i: int| 0 <= i < views.len() && views[i] == c;
                assert(appears(order@, i));
                let a = choose|a: int| 0 <= a < order.len() && order[a] == i;
                assert(m[a].0 == entries[a].0@);
            }
            assert forall|j: int, k: int| 0 <= j < k < m.len() implies class_precedes(
                m[j].0,
                m[k].0,
            ) by {
                assert(m[j].0 == entries[j].0@);
                assert(m[k].0 == entries[k].0@);
            }
            assert forall|j: int| 0 <= j < m.len() implies #[trigger] m[j].1 == self.first_id()
                + j by {
                assert(m[j].1 == entries[j].1);
            }
            assert(class_def.is_encoding_of(built@));
        }
        (class_def, mapping)
    }

    /// The table of the classes, numbered as [`Self::build_with_mapping`]
    /// numbers them.
    pub fn build(self) -> (r: ClassDef)
        requires
            self.classes().len() + self.first_id() <= 0x1_0000,
        ensures
            exists|m: Seq<(Set<int>, u16)>| #[trigger]
                is_class_assignment(self.classes(), self.first_id(), m) && is_table_of(r, m),
    {
        let (class_def, mapping) = self.build_with_mapping();
        class_def
    }
}

/// Of two numbered classes the larger has the smaller number, and of two
/// classes of one size the one with the smaller first glyph has.
pub proof fn lemma_larger_class_lower_id(
    classes: Set<Set<int>>,
    first_id: int,
    m: Seq<(Set<int>, u16)>,
    j: int,
    k: int,
)
    requires
        is_class_assignment(classes, first_id, m),
        0 <= j < m.len(),
        0 <= k < m.len(),
        class_precedes(m[j].0, m[k].0),
    ensures
        m[j].1 < m[k].1,
{
    if k < j {
        assert(class_precedes(m[k].0, m[j].0));
    }
}

/// Where no glyph is in two classes, a glyph of a numbered class has that
/// class's number, and a glyph of no class has 0.
pub proof fn lemma_assigned_class(m: Seq<(Set<int>, u16)>, glyph: int)
    requires
        forall|j: int, k: int|
            0 <= j < m.len() && 0 <= k < m.len() && m[j].0.contains(glyph) && m[k].0.contains(
                glyph,
            ) ==> j == k,
    ensures
        forall|j: int|
            0 <= j < m.len() && (#[trigger] m[j]).0.contains(glyph) ==> assigned_class(m, glyph)
                == m[j].1,
        (forall|j: int| 0 <= j < m.len() ==> !(#[trigger] m[j]).0.contains(glyph))
            ==> assigned_class(m, glyph) == 0,
    decreases m.len(),
{
    if m.len() > 0 {
        let t = m.drop_last();
        assert forall|j: int, k: int|
            0 <= j < t.len() && 0 <= k < t.len() && t[j].0.contains(glyph) && t[k].0.contains(
                glyph,
            ) implies j == k by {
            assert(t[j] == m[j] && t[k] == m[k]);
        }
        lemma_assigned_class(t, glyph);
        assert forall|j: int|
            0 <= j < m.len() && (#[trigger] m[j]).0.contains(glyph) implies assigned_class(
            m,
            glyph,
        ) == m[j].1 by {
            if j < t.len() {
                assert(t[j] == m[j]);
                assert(!m[m.len() - 1].0.contains(glyph));
            }
        }
        if forall|j: int| 0 <= j < m.len() ==> !(#[trigger] m[j]).0.contains(glyph) {
            assert(!m[m.len() - 1].0.contains(glyph));
            assert forall|j: int| 0 <= j < t.len() implies !(#[trigger] t[j]).0.contains(glyph) by {
                assert(t[j] == m[j]);
            }
        }
    }
}

/// Read back glyph by glyph, the table of numbered classes gives each glyph
/// the number of its class, and 0 to a glyph of no class.
pub proof fn lemma_table_reads_back(table: ClassDef, m: Seq<(Set<int>, u16)>)
    requires
        is_table_of(table, m),
    ensures
        forall|g: u16| table.class_of(g) == assigned_class(m, g as int),
{
    let e = choose|e: Seq<(u16, u16)>|
        is_class_entries(e) && #[trigger] table.is_encoding_of(e) && forall|g: u16|
            class_at(e, g) == assigned_class(m, g as int);
    lemma_class_def_round_trip(table, e);
}

/// The table of numbered classes is determined by the numbering.
pub proof fn lemma_table_determined(a: ClassDef, b: ClassDef, m: Seq<(Set<int>, u16)>)
    requires
        is_table_of(a, m),
        is_table_of(b, m),
    ensures
        a.same_content(b),
{
    let e = choose|e: Seq<(u16, u16)>|
        is_class_entries(e) && #[trigger] a.is_encoding_of(e) && forall|g: u16|
            class_at(e, g) == assigned_class(m, g as int);
    let f = choose|f: Seq<(u16, u16)>|
        is_class_entries(f) && #[trigger] b.is_encoding_of(f) && forall|g: u16|
            class_at(f, g) == assigned_class(m, g as int);
    lemma_entries_determined(e, f);
}

/// No class comes before itself, and of two classes at most one comes before
/// the other.
pub proof fn lemma_class_order_is_strict(a: Set<int>, b: Set<int>)
    ensures
        !class_precedes(a, a),
        !(class_precedes(a, b) && class_precedes(b, a)),
{
}

/// The numbers of the classes do not depend on anything but the classes:
/// there is one way only to number them.
pub proof fn lemma_assignment_is_unique(
    classes: Set<Set<int>>,
    first_id: int,
    m1: Seq<(Set<int>, u16)>,
    m2: Seq<(Set<int>, u16)>,
)
    requires
        is_class_assignment(classes, first_id, m1),
        is_class_assignment(classes, first_id, m2),
    ensures
        m1 == m2,
    decreases m1.len(),
{
    if m1.len() == 0 {
        if m2.len() > 0 {
            assert(classes.contains(m2[0].0));
            let j = choose|j: int| 0 <= j < m1.len() && #[trigger] m1[j].0 == m2[0].0;
        }
        assert(m1 =~= m2);
    } else {
        let last1 = m1.len() - 1;
        let a = m1[last1].0;
        assert(classes.contains(a));
        let q = choose|q: int| 0 <= q < m2.len() && #[trigger] m2[q].0 == a;
        let last2 = m2.len() - 1;
        let b = m2[last2].0;
        assert(classes.contains(b));
        let p = choose|p: int| 0 <= p < m1.len() && #[trigger] m1[p].0 == b;
        lemma_class_order_is_strict(a, b);
        lemma_class_order_is_strict(a, a);
        if q < last2 {
            assert(class_precedes(m2[q].0, m2[last2].0));
        }
        if p < last1 {
            assert(class_precedes(m1[p].0, m1[last1].0));
        }
        assert(a == b);
        let rest = classes.remove(a);
        let t1 = m1.drop_last();
        let t2 = m2.drop_last();
        assert(is_class_assignment(rest, first_id, t1)) by {
            lemma_drop_last_assignment(classes, first_id, m1);
        }
        assert(is_class_assignment(rest, first_id, t2)) by {
            lemma_drop_last_assignment(classes, first_id, m2);
        }
        lemma_assignment_is_unique(rest, first_id, t1, t2);
        assert(m1.len() == m2.len());
        assert(m1[last1].1 == first_id + last1);
        assert(m2[last2].1 == first_id + last2);
        assert(m1 =~= t1.push(m1[last1]));
        assert(m2 =~= t2.push(m2[last2]));
    }
}

/// Without its last class, a numbering numbers the other classes.
proof fn lemma_drop_last_assignment(
    classes: Set<Set<int>>,
    first_id: int,
    m: Seq<(Set<int>, u16)>,
)
    requires
        is_class_assignment(classes, first_id, m),
        m.len() > 0,
    ensures
        is_class_assignment(classes.remove(m.last().0), first_id, m.drop_last()),
{
    let a = m.last().0;
    let last = m.len() - 1;
    let rest = classes.remove(a);
    let t = m.drop_last();
    lemma_class_order_is_strict(a, a);
    assert forall|j: int| 0 <= j < t.len() implies rest.contains(#[trigger] t[j].0) by {
        assert(t[j] == m[j]);
        assert(classes.contains(m[j].0));
        assert(class_precedes(m[j].0, m[last].0));
    }
    assert forall|c: Set<int>| rest.contains(c) implies exists|j: int|
        0 <= j < t.len() && #[trigger] t[j].0 == c by {
        let j = choose|j: int| 0 <= j < m.len() && #[trigger] m[j].0 == c;
        assert(j != last);
        assert(t[j] == m[j]);
    }
    assert forall|j: int, k: int| 0 <= j < k < t.len() implies class_precedes(t[j].0, t[k].0) by {
        assert(t[j] == m[j] && t[k] == m[k]);
    }
    assert forall|j: int| 0 <= j < t.len() implies #[trigger] t[j].1 == first_id + j by {
        assert(t[j] == m[j]);
    }
}

} // verus!
