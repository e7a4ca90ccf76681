//! Class definition tables: the table itself, read back glyph by glyph, and
//! the encoder that picks the smaller of its two layouts.

use vstd::prelude::*;
use crate::domain::{Domain, GlyphId16};
use crate::int_set::{elements, is_ascending, keys_of, lemma_ascending_unique, search};

verus! {

/// A run of consecutive glyphs that share one class.
#[derive(Copy, Clone, Debug, PartialEq, Eq, Structural)]
pub struct ClassRangeRecord {
    pub start_glyph_id: GlyphId16,
    pub end_glyph_id: GlyphId16,
    pub class: u16,
}

/// The array layout: one class for each glyph from `start_glyph_id` on.
#[derive(Clone, Debug, PartialEq, Eq)]
pub struct ClassDefFormat1 {
    pub start_glyph_id: GlyphId16,
    pub class_value_array: Vec<u16>,
}

/// The range layout: runs of glyphs, each run with its class.
#[derive(Clone, Debug, PartialEq, Eq)]
pub struct ClassDefFormat2 {
    pub class_range_records: Vec<ClassRangeRecord>,
}

/// A class definition table in one of its two layouts.
#[derive(Clone, Debug, PartialEq, Eq)]
pub enum ClassDef {
    Format1(ClassDefFormat1),
    Format2(ClassDefFormat2),
}

impl ClassRangeRecord {
    /// The run from `start_glyph_id` to `end_glyph_id`, both included.
    pub fn new(start_glyph_id: GlyphId16, end_glyph_id: GlyphId16, class: u16) -> (r: Self)
        ensures
            r == (ClassRangeRecord { start_glyph_id, end_glyph_id, class }),
    {
        ClassRangeRecord { start_glyph_id, end_glyph_id, class }
    }

    /// Whether the glyph lies in the run.
    pub open spec fn covers(self, glyph: u16) -> bool {
        self.start_glyph_id.id <= glyph <= self.end_glyph_id.id
    }
}

impl ClassDefFormat1 {
    /// The array layout with the given content.
    pub fn new(start_glyph_id: GlyphId16, class_value_array: Vec<u16>) -> (r: Self)
        ensures
            r.start_glyph_id == start_glyph_id,
            r.class_value_array == class_value_array,
    {
        ClassDefFormat1 { start_glyph_id, class_value_array }
    }
}

impl ClassDefFormat2 {
    /// The range layout with the given runs.
    pub fn new(class_range_records: Vec<ClassRangeRecord>) -> (r: Self)
        ensures
            r.class_range_records == class_range_records,
    {
        ClassDefFormat2 { class_range_records }
    }
}

/// The class of the first run, from index `from` on, that covers the glyph.
pub open spec fn range_class_from(records: Seq<ClassRangeRecord>, glyph: u16, from: int) -> Option<
    u16,
>
    decreases records.len() - from,
{
    if from < 0 || from >= records.len() {
        None
    } else if records[from].covers(glyph) {
        Some(records[from].class)
    } else {
        range_class_from(records, glyph, from + 1)
    }
}

impl ClassDef {
    /// What the table records for the glyph: in the array layout the array's
    /// entry, if the glyph lies within the array; in the range layout the
    /// class of the first run that covers the glyph.
    pub open spec fn raw_class(self, glyph: u16) -> Option<u16> {
        match self {
            ClassDef::Format1(t) => {
                let at = glyph - t.start_glyph_id.id;
                if 0 <= at < t.class_value_array@.len() {
                    Some(t.class_value_array@[at])
                } else {
                    None
                }
            },
            ClassDef::Format2(t) => range_class_from(t.class_range_records@, glyph, 0),
        }
    }

    /// The class of the glyph; glyphs that the table does not record have class 0.
    pub open spec fn class_of(self, glyph: u16) -> u16 {
        match self.raw_class(glyph) {
            Some(c) => c,
            None => 0,
        }
    }

    /// What the table records for the glyph, if anything.
    pub fn get_raw(&self, glyph: GlyphId16) -> (r: Option<u16>)
        ensures
            r == self.raw_class(glyph.id),
    {
        match self {
            ClassDef::Format1(t) => {
                let g: u16 = glyph.to_u16();
                let start: u16 = t.start_glyph_id.to_u16();
                if g < start {
                    None
                } else {
                    let at: usize = (g - start) as usize;
                    if at < t.class_value_array.len() {
                        Some(t.class_value_array[at])
                    } else {
                        None
                    }
                }
            },
            ClassDef::Format2(t) => {
                let g: u16 = glyph.to_u16();
                let n: usize = t.class_range_records.len();
                let mut i: usize = 0;
                while i < n
                    invariant
                        i <= n,
                        n == t.class_range_records.len(),
                        g == glyph.id,
                        self.raw_class(glyph.id) == range_class_from(
                            t.class_range_records@,
                            g,
                            i as int,
                        ),
                    decreases n - i,
                {
                    let rec: ClassRangeRecord = t.class_range_records[i];
                    assert(rec.covers(g) <==> rec.start_glyph_id.id <= g <= rec.end_glyph_id.id);
                    if rec.start_glyph_id.to_u16() <= g && g <= rec.end_glyph_id.to_u16() {
                        return Some(rec.class);
                    }
                    i += 1;
                }
                None
            },
        }
    }

    /// The class of the glyph, 0 where the table records none.
    pub fn get(&self, glyph: GlyphId16) -> (r: u16)
        ensures
            r == self.class_of(glyph.id),
    {
        match self.get_raw(glyph) {
            Some(c) => c,
            None => 0,
        }
    }
}

/// Whether the pairs of glyph and class can be the content of a table:
/// glyphs strictly ascending, and no class 0, which is what a glyph without
/// an entry has.
pub open spec fn is_class_entries(e: Seq<(u16, u16)>) -> bool {
    &&& forall|i: int, j: int| 0 <= i < j < e.len() ==> e[i].0 < e[j].0
    &&& forall|i: int| 0 <= i < e.len() ==> e[i].1 != 0
}

/// The class that the entries give to the glyph, 0 where they have none.
pub open spec fn class_at(e: Seq<(u16, u16)>, glyph: u16) -> u16 {
    if exists|i: int| 0 <= i < e.len() && e[i].0 == glyph {
        let i = choose|i: int| 0 <= i < e.len() && e[i].0 == glyph;
        e[i].1
    } else {
        0
    }
}

/// The class of the last pair that names the glyph with a class other than 0,
/// and 0 where there is no such pair.
pub open spec fn last_class(pairs: Seq<(GlyphId16, u16)>, glyph: u16) -> u16
    decreases pairs.len(),
{
    if pairs.len() == 0 {
        0
    } else if pairs.last().0.id == glyph && pairs.last().1 != 0 {
        pairs.last().1
    } else {
        last_class(pairs.drop_last(), glyph)
    }
}

/// Whether entry `i` carries on the run of the entry before it: the next
/// glyph, with the same class.
pub open spec fn continues_run(e: Seq<(u16, u16)>, i: int) -> bool {
    0 < i < e.len() && e[i].0 == e[i - 1].0 + 1 && e[i].1 == e[i - 1].1
}

/// The maximal runs of consecutive glyphs with one class, in ascending order.
///
/// Each entry either lengthens the run of the entry before it or opens a run
/// of its own.
pub open spec fn class_ranges(e: Seq<(u16, u16)>) -> Seq<ClassRangeRecord>
    decreases e.len(),
{
    if e.len() == 0 {
        Seq::empty()
    } else {
        let before = class_ranges(e.drop_last());
        let glyph = GlyphId16 { id: e.last().0 };
        if continues_run(e, e.len() - 1) {
            before.drop_last().push(
                ClassRangeRecord {
                    start_glyph_id: before.last().start_glyph_id,
                    end_glyph_id: glyph,
                    class: e.last().1,
                },
            )
        } else {
            before.push(
                ClassRangeRecord { start_glyph_id: glyph, end_glyph_id: glyph, class: e.last().1 },
            )
        }
    }
}

/// Whether the array layout is the smaller one for the entries.
///
/// The array layout takes 6 bytes and 2 for each glyph from the first to the
/// last; the range layout takes 4 bytes and 6 for each run. Without entries
/// the range layout is chosen.
pub open spec fn prefers_format_1(e: Seq<(u16, u16)>) -> bool {
    e.len() > 0 && 6 + 2 * (e.last().0 - e[0].0 + 1) < 4 + 6 * class_ranges(e).len()
}

/// The class array that the array layout holds for the entries.
pub open spec fn class_array(e: Seq<(u16, u16)>) -> Seq<u16> {
    Seq::new(
        (e.last().0 - e[0].0 + 1) as nat,
        |i: int| class_at(e, (e[0].0 + i) as u16),
    )
}

impl ClassDef {
    /// Whether the two tables have the same layout and hold the same values.
    pub open spec fn same_content(self, other: ClassDef) -> bool {
        match (self, other) {
            (ClassDef::Format1(a), ClassDef::Format1(b)) => a.start_glyph_id == b.start_glyph_id
                && a.class_value_array@ == b.class_value_array@,
            (ClassDef::Format2(a), ClassDef::Format2(b)) => a.class_range_records@
                == b.class_range_records@,
            _ => false,
        }
    }

    /// Whether the table is the smaller layout of the entries: the array
    /// layout from the first glyph to the last, or the entries' maximal runs.
    pub open spec fn is_encoding_of(self, e: Seq<(u16, u16)>) -> bool {
        if prefers_format_1(e) {
            &&& self matches ClassDef::Format1(t)
            &&& t.start_glyph_id.id == e[0].0
            &&& t.class_value_array@ == class_array(e)
        } else {
            &&& self matches ClassDef::Format2(t)
            &&& t.class_range_records@ == class_ranges(e)
        }
    }
}

/// In valid entries an entry's class is the class of its glyph.
pub proof fn lemma_class_at_entry(e: Seq<(u16, u16)>, i: int)
    requires
        is_class_entries(e),
        0 <= i < e.len(),
    ensures
        class_at(e, e[i].0) == e[i].1,
{
    let j = choose|j: int| 0 <= j < e.len() && e[j].0 == e[i].0;
    if j < i {
        assert(e[j].0 < e[i].0);
    }
    if i < j {
        assert(e[i].0 < e[j].0);
    }
}

/// There are no more runs than entries, and with an entry there is a run,
/// the last of which ends at the last entry and has its class.
pub proof fn lemma_class_ranges_shape(e: Seq<(u16, u16)>)
    ensures
        class_ranges(e).len() <= e.len(),
        e.len() > 0 ==> class_ranges(e).len() > 0 && class_ranges(e).last().end_glyph_id.id
            == e.last().0 && class_ranges(e).last().class == e.last().1
            && class_ranges(e).last().start_glyph_id.id <= e.last().0,
    decreases e.len(),
{
    if e.len() > 0 {
        lemma_class_ranges_shape(e.drop_last());
    }
}

/// The encoder of a class definition table: glyphs with their classes, from
/// which it picks the smaller layout.
#[derive(Debug)]
pub struct ClassDefBuilderImpl {
    glyphs: Vec<GlyphId16>,
    classes: Vec<u16>,
}

/// The pairs of glyph and class that two parallel sequences hold.
pub open spec fn zip_entries(glyphs: Seq<GlyphId16>, classes: Seq<u16>) -> Seq<(u16, u16)> {
    Seq::new(glyphs.len(), |i: int| (glyphs[i].id, classes[i]))
}

impl View for ClassDefBuilderImpl {
    type V = Seq<(u16, u16)>;

    /// The entries: each glyph with its class, in ascending order of glyph.
    closed spec fn view(&self) -> Seq<(u16, u16)> {
        zip_entries(self.glyphs@, self.classes@)
    }
}

impl ClassDefBuilderImpl {
    #[verifier::type_invariant]
    spec fn valid(self) -> bool {
        &&& self.glyphs.len() == self.classes.len()
        &&& is_class_entries(self@)
    }

    /// The encoder for the given pairs of glyph and class.
    ///
    /// Pairs with class 0 are left out; where a glyph is named more than once,
    /// the last of its pairs counts.
    pub fn from_iter(pairs: Vec<(GlyphId16, u16)>) -> (r: Self)
        ensures
            is_class_entries(r@),
            forall|g: u16| class_at(r@, g) == last_class(pairs@, g),
    {
        let mut glyphs: Vec<GlyphId16> = Vec::new();
        let mut classes: Vec<u16> = Vec::new();
        let n: usize = pairs.len();
        let mut k: usize = 0;
        while k < n
            invariant
                k <= n,
                n == pairs.len(),
                glyphs.len() == classes.len(),
                is_class_entries(zip_entries(glyphs@, classes@)),
                forall|g: u16|
                    class_at(zip_entries(glyphs@, classes@), g) == last_class(
                        pairs@.take(k as int),
                        g,
                    ),
            decreases n - k,
        {
            let glyph: GlyphId16 = pairs[k].0;
            let class: u16 = pairs[k].1;
            let ghost before = zip_entries(glyphs@, classes@);
            let ghost seen = pairs@.take(k as int);
            let ghost now = pairs@.take(k + 1);
            proof {
                assert(now.drop_last() =~= seen);
                assert(now.last() == pairs[k as int]);
            }
            if class != 0 {
                proof {
                    lemma_entry_keys(glyphs@, classes@);
                }
                match search(&glyphs, glyph) {
                    Ok(i) => {
                        classes.set(i, class);
                        proof {
                            let after = zip_entries(glyphs@, classes@);
                            assert(after =~= before.update(i as int, (glyph.id, class)));
                            lemma_update_entry(before, i as int, class);
                        }
                    },
                    Err(i) => {
                        glyphs.insert(i, glyph);
                        classes.insert(i, class);
                        proof {
                            let after = zip_entries(glyphs@, classes@);
                            assert(after =~= before.insert(i as int, (glyph.id, class)));
                            lemma_insert_entry(before, i as int, glyph.id, class);
                        }
                    },
                }
            }
            k += 1;
        }
        assert(pairs@.take(n as int) =~= pairs@);
        ClassDefBuilderImpl { glyphs, classes }
    }

    /// Whether the array layout is the smaller one.
    pub fn prefer_format_1(&self) -> (r: bool)
        ensures
            r == prefers_format_1(self@),
    {
        proof {
            use_type_invariant(self);
            lemma_class_ranges_shape(self@);
            lemma_entries_fit(self@);
        }
        let n: usize = self.glyphs.len();
        // the range layout is the smaller way to hold no entry at all
        if n == 0 {
            return false;
        }
        let first: u16 = self.glyphs[0].to_u16();
        let last: u16 = self.glyphs[n - 1].to_u16();
        assert(self@[0].0 < self@[n - 1].0 || n == 1);
        let format1_array_len: usize = (last - first) as usize + 1;
        let len_format1: usize = 6 + format1_array_len * 2;
        let len_format2: usize = 4 + iter_class_ranges(self).len() * 6;
        len_format1 < len_format2
    }

    /// The table in the smaller of its two layouts.
    pub fn build(&self) -> (r: ClassDef)
        ensures
            r.is_encoding_of(self@),
    {
        if self.prefer_format_1() {
            proof {
                use_type_invariant(self);
                lemma_entry_keys(self.glyphs@, self.classes@);
            }
            let n: usize = self.glyphs.len();
            let first: u16 = self.glyphs[0].to_u16();
            let last: u16 = self.glyphs[n - 1].to_u16();
            assert(self@[0].0 < self@[n - 1].0 || n == 1);
            let count: usize = (last - first) as usize + 1;
            let mut class_value_array: Vec<u16> = Vec::new();
            let mut i: usize = 0;
            while i < count
                invariant
                    i <= count,
                    count == last - first + 1,
                    first <= last,
                    self.glyphs.len() == self.classes.len(),
                    is_class_entries(self@),
                    is_ascending(keys_of(self.glyphs@)),
                    class_value_array.len() == i,
                    forall|j: int|
                        0 <= j < i ==> class_value_array[j] == class_at(self@, (first + j) as u16),
                decreases count - i,
            {
                let g: u16 = first + i as u16;
                let class: u16 = match search(&self.glyphs, GlyphId16::new(g)) {
                    Ok(at) => {
                        proof {
                            assert(self@[at as int].0 == g);
                            lemma_class_at_entry(self@, at as int);
                        }
                        self.classes[at]
                    },
                    Err(_) => {
                        proof {
                            assert forall|p: int| 0 <= p < self@.len() implies self@[p].0 != g by {
                                assert(self.glyphs[p].key() == self@[p].0);
                            }
                        }
                        0
                    },
                };
                class_value_array.push(class);
                i += 1;
            }
            assert(class_value_array@ =~= class_array(self@));
            ClassDef::Format1(
                ClassDefFormat1 { start_glyph_id: GlyphId16::new(first), class_value_array },
            )
        } else {
            ClassDef::Format2(ClassDefFormat2 { class_range_records: iter_class_ranges(self) })
        }
    }
}

/// The maximal runs of consecutive glyphs with one class, in ascending order.
pub fn iter_class_ranges(values: &ClassDefBuilderImpl) -> (r: Vec<ClassRangeRecord>)
    ensures
        r@ == class_ranges(values@),
{
    proof {
        use_type_invariant(values);
    }
    let mut out: Vec<ClassRangeRecord> = Vec::new();
    let n: usize = values.glyphs.len();
    if n == 0 {
        assert(out@ =~= class_ranges(values@));
        return out;
    }
    let mut prev: ClassRangeRecord = ClassRangeRecord {
        start_glyph_id: values.glyphs[0],
        end_glyph_id: values.glyphs[0],
        class: values.classes[0],
    };
    let mut i: usize = 1;
    proof {
        let e = values@.take(1);
        assert(e.drop_last() =~= Seq::<(u16, u16)>::empty());
        assert(class_ranges(e.drop_last()) =~= Seq::<ClassRangeRecord>::empty());
        assert(class_ranges(e) =~= out@.push(prev));
    }
    while i < n
        invariant
            1 <= i <= n,
            n == values.glyphs.len(),
            n == values.classes.len(),
            is_class_entries(values@),
            class_ranges(values@.take(i as int)) == out@.push(prev),
            prev.end_glyph_id.id == values@[i - 1].0,
            prev.class == values@[i - 1].1,
        decreases n - i,
    {
        let glyph: GlyphId16 = values.glyphs[i];
        let class: u16 = values.classes[i];
        let ghost e = values@.take(i + 1);
        proof {
            assert(e.drop_last() =~= values@.take(i as int));
            assert(e.last() == values@[i as int]);
            assert(e[i - 1] == values@[i - 1]);
            assert(values@[i - 1].0 < values@[i as int].0);
        }
        let end: u16 = prev.end_glyph_id.to_u16();
        if glyph.to_u16() - end == 1 && prev.class == class {
            let ghost longer = ClassRangeRecord {
                start_glyph_id: prev.start_glyph_id,
                end_glyph_id: glyph,
                class,
            };
            proof {
                assert(continues_run(e, i as int));
                assert(out@.push(prev).drop_last() =~= out@);
                assert(class_ranges(e) =~= out@.push(longer));
            }
            prev = ClassRangeRecord {
                start_glyph_id: prev.start_glyph_id,
                end_glyph_id: glyph,
                class,
            };
        } else {
            proof {
                assert(!continues_run(e, i as int));
            }
            out.push(prev);
            prev = ClassRangeRecord { start_glyph_id: glyph, end_glyph_id: glyph, class };
        }
        i += 1;
    }
    assert(values@.take(n as int) =~= values@);
    out.push(prev);
    out
}

/// Valid entries have ascending glyph keys.
proof fn lemma_entry_keys(glyphs: Seq<GlyphId16>, classes: Seq<u16>)
    requires
        is_class_entries(zip_entries(glyphs, classes)),
    ensures
        is_ascending(keys_of(glyphs)),
{
    let e = zip_entries(glyphs, classes);
    assert forall|i: int, j: int| 0 <= i < j < keys_of(glyphs).len() implies keys_of(glyphs)[i]
        < keys_of(glyphs)[j] by {
        assert(e[i].0 < e[j].0);
    }
}

/// Valid entries number no more than there are glyph identifiers, and each
/// entry's glyph is at least as large as its index.
pub proof fn lemma_entries_fit(e: Seq<(u16, u16)>)
    requires
        is_class_entries(e),
    ensures
        e.len() <= 0x1_0000,
        forall|i: int| 0 <= i < e.len() ==> i <= #[trigger] e[i].0,
    decreases e.len(),
{
    if e.len() > 0 {
        let t = e.drop_last();
        lemma_entries_fit(t);
        assert forall|i: int| 0 <= i < e.len() implies i <= #[trigger] e[i].0 by {
            if i < t.len() {
                assert(t[i] == e[i]);
            } else if i > 0 {
                assert(i - 1 <= t[i - 1].0);
                assert(e[i - 1].0 < e[i].0);
            }
        }
        assert(e.len() - 1 <= e[e.len() - 1].0);
    }
}

/// Giving an entry another class changes the class of its glyph alone.
proof fn lemma_update_entry(e: Seq<(u16, u16)>, at: int, class: u16)
    requires
        is_class_entries(e),
        0 <= at < e.len(),
        class != 0,
    ensures
        is_class_entries(e.update(at, (e[at].0, class))),
        forall|g: u16|
            class_at(e.update(at, (e[at].0, class)), g) == if g == e[at].0 {
                class
            } else {
                class_at(e, g)
            },
{
    let f = e.update(at, (e[at].0, class));
    assert(is_class_entries(f)) by {
        assert forall|i: int, j: int| 0 <= i < j < f.len() implies f[i].0 < f[j].0 by {
            assert(e[i].0 < e[j].0);
        }
    }
    assert forall|g: u16|
        class_at(f, g) == if g == e[at].0 {
            class
        } else {
            class_at(e, g)
        } by {
        if g == e[at].0 {
            lemma_class_at_entry(f, at);
        } else if exists|i: int| 0 <= i < e.len() && e[i].0 == g {
            let i = choose|i: int| 0 <= i < e.len() && e[i].0 == g;
            assert(f[i] == e[i]);
            lemma_class_at_entry(f, i);
            lemma_class_at_entry(e, i);
        } else {
            assert forall|i: int| 0 <= i < f.len() implies f[i].0 != g by {
                assert(f[i].0 == e[i].0);
            }
        }
    }
}

/// A new entry between the smaller and the larger glyphs sets the class of
/// its glyph alone.
proof fn lemma_insert_entry(e: Seq<(u16, u16)>, at: int, glyph: u16, class: u16)
    requires
        is_class_entries(e),
        0 <= at <= e.len(),
        class != 0,
        forall|j: int| 0 <= j < at ==> e[j].0 < glyph,
        forall|j: int| at <= j < e.len() ==> glyph < e[j].0,
    ensures
        is_class_entries(e.insert(at, (glyph, class))),
        forall|g: u16|
            class_at(e.insert(at, (glyph, class)), g) == if g == glyph {
                class
            } else {
                class_at(e, g)
            },
{
    let f = e.insert(at, (glyph, class));
    assert(is_class_entries(f)) by {
        assert forall|i: int, j: int| 0 <= i < j < f.len() implies f[i].0 < f[j].0 by {
            let pi = if i < at { i } else { i - 1 };
            let pj = if j < at { j } else { j - 1 };
            if i != at && j != at {
                assert(e[pi].0 < e[pj].0);
            }
        }
        assert forall|i: int| 0 <= i < f.len() implies f[i].1 != 0 by {
            if i < at {
                assert(f[i] == e[i]);
            } else if i > at {
                assert(f[i] == e[i - 1]);
            }
        }
    }
    assert forall|g: u16|
        class_at(f, g) == if g == glyph {
            class
        } else {
            class_at(e, g)
        } by {
        if g == glyph {
            assert(f[at] == (glyph, class));
            lemma_class_at_entry(f, at);
        } else if exists|i: int| 0 <= i < e.len() && e[i].0 == g {
            let i = choose|i: int| 0 <= i < e.len() && e[i].0 == g;
            let p = if i < at { i } else { i + 1 };
            assert(f[p] == e[i]);
            lemma_class_at_entry(f, p);
            lemma_class_at_entry(e, i);
        } else {
            assert forall|i: int| 0 <= i < f.len() implies f[i].0 != g by {
                if i < at {
                    assert(f[i] == e[i]);
                } else if i > at {
                    assert(f[i] == e[i - 1]);
                }
            }
        }
    }
}

/// A lookup from index `from` on finds a run that covers the glyph, or there
/// is none.
proof fn lemma_range_class_from(records: Seq<ClassRangeRecord>, glyph: u16, from: int)
    requires
        0 <= from,
    ensures
        match range_class_from(records, glyph, from) {
            Some(c) => exists|k: int|
                from <= k < records.len() && records[k].covers(glyph) && records[k].class == c,
            None => forall|k: int| from <= k < records.len() ==> !records[k].covers(glyph),
        },
    decreases records.len() - from,
{
    if from < records.len() && !records[from].covers(glyph) {
        lemma_range_class_from(records, glyph, from + 1);
    }
}

/// What the runs of valid entries cover: every run has the class of each
/// glyph in it, which is not 0, and every entry's glyph lies in a run.
proof fn lemma_class_ranges_cover(e: Seq<(u16, u16)>)
    requires
        is_class_entries(e),
    ensures
        forall|k: int, g: u16|
            0 <= k < class_ranges(e).len() && #[trigger] class_ranges(e)[k].covers(g)
                ==> class_at(e, g) == class_ranges(e)[k].class,
        forall|k: int| 0 <= k < class_ranges(e).len() ==> #[trigger] class_ranges(e)[k].class != 0,
        forall|i: int|
            0 <= i < e.len() ==> exists|k: int|
                0 <= k < class_ranges(e).len() && class_ranges(e)[k].covers(#[trigger] e[i].0),
    decreases e.len(),
{
    if e.len() > 0 {
        let t = e.drop_last();
        let glyph = e.last().0;
        let class = e.last().1;
        let before = class_ranges(t);
        let runs = class_ranges(e);
        lemma_class_ranges_cover(t);
        lemma_class_ranges_shape(t);
        assert(e =~= t.insert(t.len() as int, (glyph, class)));
        assert forall|j: int| 0 <= j < t.len() implies t[j].0 < glyph by {
            assert(e[j].0 < e[e.len() - 1].0);
        }
        lemma_insert_entry(t, t.len() as int, glyph, class);
        assert(class_at(t, glyph) == 0) by {
            assert forall|j: int| 0 <= j < t.len() implies t[j].0 != glyph by {}
        }
        assert forall|k: int, g: u16|
            0 <= k < runs.len() && #[trigger] runs[k].covers(g) implies class_at(e, g)
            == runs[k].class by {
            if k < runs.len() - 1 {
                assert(runs[k] == before[k]);
                assert(before[k].covers(g));
                assert(before[k].class != 0);
            } else if continues_run(e, e.len() - 1) {
                let old_last = before.last();
                assert(before[before.len() - 1] == old_last);
                assert(t.last() == e[e.len() - 2]);
                if g != glyph {
                    assert(old_last.covers(g));
                }
            }
        }
        assert forall|k: int| 0 <= k < runs.len() implies #[trigger] runs[k].class != 0 by {
            if k < runs.len() - 1 {
                assert(runs[k] == before[k]);
            }
        }
        assert forall|i: int| 0 <= i < e.len() implies exists|k: int|
            0 <= k < runs.len() && runs[k].covers(#[trigger] e[i].0) by {
            if i < t.len() {
                assert(t[i] == e[i]);
                let k = choose|k: int| 0 <= k < before.len() && before[k].covers(t[i].0);
                if k < runs.len() - 1 {
                    assert(runs[k] == before[k]);
                    assert(runs[k].covers(e[i].0));
                } else {
                    assert(k == before.len() - 1);
                    assert(continues_run(e, e.len() - 1));
                    assert(runs[runs.len() - 1].covers(e[i].0));
                }
            } else {
                lemma_class_ranges_shape(e);
                assert(runs[runs.len() - 1].covers(e[i].0));
            }
        }
    }
}

/// Read back glyph by glyph, a built table gives each glyph of the entries
/// its class and every other glyph class 0.
pub proof fn lemma_class_def_round_trip(table: ClassDef, e: Seq<(u16, u16)>)
    requires
        is_class_entries(e),
        table.is_encoding_of(e),
    ensures
        forall|g: u16| table.class_of(g) == class_at(e, g),
{
    assert forall|g: u16| table.class_of(g) == class_at(e, g) by {
        if prefers_format_1(e) {
            let first = e[0].0;
            let last = e.last().0;
            if !(first <= g <= last) {
                assert forall|i: int| 0 <= i < e.len() implies e[i].0 != g by {
                    if 0 < i {
                        assert(e[0].0 < e[i].0);
                    }
                    if i < e.len() - 1 {
                        assert(e[i].0 < e[e.len() - 1].0);
                    }
                }
            }
        } else {
            let runs = class_ranges(e);
            lemma_class_ranges_cover(e);
            lemma_range_class_from(runs, g, 0);
            match range_class_from(runs, g, 0) {
                Some(c) => {
                    let k = choose|k: int|
                        0 <= k < runs.len() && runs[k].covers(g) && runs[k].class == c;
                    assert(class_at(e, g) == runs[k].class);
                },
                None => {
                    if exists|i: int| 0 <= i < e.len() && e[i].0 == g {
                        let i = choose|i: int| 0 <= i < e.len() && e[i].0 == g;
                        let k = choose|k: int| 0 <= k < runs.len() && runs[k].covers(e[i].0);
                        assert(!runs[k].covers(g));
                    }
                },
            }
        }
    }
}

/// Without entries the range layout is chosen, and it holds no run.
pub proof fn lemma_empty_class_def(table: ClassDef, e: Seq<(u16, u16)>)
    requires
        e.len() == 0,
        table.is_encoding_of(e),
    ensures
        table matches ClassDef::Format2(t) && t.class_range_records@ == Seq::<
            ClassRangeRecord,
        >::empty(),
{
}

/// The runs of valid entries are in ascending order, and no two neighbours
/// could be one run: there is a gap between them, or their classes differ.
pub proof fn lemma_class_ranges_are_maximal(e: Seq<(u16, u16)>)
    requires
        is_class_entries(e),
    ensures
        forall|k: int|
            0 <= k < class_ranges(e).len() ==> (#[trigger] class_ranges(e)[k]).start_glyph_id.id
                <= class_ranges(e)[k].end_glyph_id.id,
        forall|k: int|
            0 <= k < class_ranges(e).len() - 1 ==> {
                let run = #[trigger] class_ranges(e)[k];
                let next = class_ranges(e)[k + 1];
                &&& run.end_glyph_id.id < next.start_glyph_id.id
                &&& run.end_glyph_id.id + 1 < next.start_glyph_id.id || run.class != next.class
            },
    decreases e.len(),
{
    if e.len() > 0 {
        let t = e.drop_last();
        let before = class_ranges(t);
        let runs = class_ranges(e);
        lemma_class_ranges_are_maximal(t);
        lemma_class_ranges_shape(t);
        if t.len() > 0 {
            assert(t.last() == e[e.len() - 2]);
            assert(e[e.len() - 2].0 < e[e.len() - 1].0);
        }
        assert forall|k: int| 0 <= k < runs.len() implies (#[trigger] runs[k]).start_glyph_id.id
            <= runs[k].end_glyph_id.id by {
            if k < runs.len() - 1 {
                assert(runs[k] == before[k]);
            } else if continues_run(e, e.len() - 1) {
                assert(before[before.len() - 1].start_glyph_id.id <= before[before.len()
                    - 1].end_glyph_id.id);
            }
        }
        assert forall|k: int| 0 <= k < runs.len() - 1 implies {
            let run = #[trigger] runs[k];
            let next = runs[k + 1];
            &&& run.end_glyph_id.id < next.start_glyph_id.id
            &&& run.end_glyph_id.id + 1 < next.start_glyph_id.id || run.class != next.class
        } by {
            assert(runs[k] == before[k]);
            if k + 1 < runs.len() - 1 {
                assert(runs[k + 1] == before[k + 1]);
            } else if continues_run(e, e.len() - 1) {
                assert(runs[k + 1].start_glyph_id == before[k + 1].start_glyph_id);
                assert(runs[k + 1].class == before[k + 1].class);
            }
        }
    }
}

/// The glyphs of entries, as integers.
spec fn entry_glyphs(e: Seq<(u16, u16)>) -> Seq<int> {
    Seq::new(e.len(), |i: int| e[i].0 as int)
}

/// Entries are determined by the class that they give to each glyph: two
/// tables' worth of entries that agree on every glyph are the same entries.
pub proof fn lemma_entries_determined(a: Seq<(u16, u16)>, b: Seq<(u16, u16)>)
    requires
        is_class_entries(a),
        is_class_entries(b),
        forall|g: u16| class_at(a, g) == class_at(b, g),
    ensures
        a == b,
{
    let x = entry_glyphs(a);
    let y = entry_glyphs(b);
    assert(is_ascending(x)) by {
        assert forall|i: int, j: int| 0 <= i < j < x.len() implies x[i] < x[j] by {
            assert(a[i].0 < a[j].0);
        }
    }
    assert(is_ascending(y)) by {
        assert forall|i: int, j: int| 0 <= i < j < y.len() implies y[i] < y[j] by {
            assert(b[i].0 < b[j].0);
        }
    }
    assert(elements(x) =~= elements(y)) by {
        assert forall|k: int| elements(x).contains(k) implies elements(y).contains(k) by {
            let i = choose|i: int| 0 <= i < x.len() && x[i] == k;
            lemma_class_at_entry(a, i);
            assert(class_at(b, a[i].0) != 0);
            let j = choose|j: int| 0 <= j < b.len() && b[j].0 == a[i].0;
            assert(y[j] == k);
        }
        assert forall|k: int| elements(y).contains(k) implies elements(x).contains(k) by {
            let i = choose|i: int| 0 <= i < y.len() && y[i] == k;
            lemma_class_at_entry(b, i);
            assert(class_at(a, b[i].0) != 0);
            let j = choose|j: int| 0 <= j < a.len() && a[j].0 == b[i].0;
            assert(x[j] == k);
        }
    }
    lemma_ascending_unique(x, y);
    assert(a =~= b) by {
        assert(x.len() == y.len());
        assert forall|i: int| 0 <= i < a.len() implies a[i] == b[i] by {
            assert(x[i] == y[i]);
            lemma_class_at_entry(a, i);
            lemma_class_at_entry(b, i);
        }
    }
}

} // verus!
