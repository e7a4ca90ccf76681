//! Coverage tables: the table itself, read back glyph by glyph, and the
//! builder that keeps its glyphs in order and picks the smaller layout.

use vstd::prelude::*;
use crate::domain::{Domain, GlyphId16};
use crate::int_set::{elements, is_ascending, keys_of, lemma_ascending_unique, search};

verus! {

/// A run of consecutive glyphs; the first of them has coverage index
/// `start_coverage_index`.
#[derive(Copy, Clone, Debug, PartialEq, Eq, Structural)]
pub struct RangeRecord {
    pub start_glyph_id: GlyphId16,
    pub end_glyph_id: GlyphId16,
    pub start_coverage_index: u16,
}

/// The list layout: the covered glyphs, in order of coverage index.
#[derive(Clone, Debug, PartialEq, Eq)]
pub struct CoverageFormat1 {
    pub glyph_array: Vec<GlyphId16>,
}

/// The range layout: runs of consecutive covered glyphs.
#[derive(Clone, Debug, PartialEq, Eq)]
pub struct CoverageFormat2 {
    pub range_records: Vec<RangeRecord>,
}

/// A coverage table in one of its two layouts.
#[derive(Clone, Debug, PartialEq, Eq)]
pub enum CoverageTable {
    Format1(CoverageFormat1),
    Format2(CoverageFormat2),
}

/// The identifiers of a sequence of glyphs, in the same order.
pub open spec fn glyph_ids(glyphs: Seq<GlyphId16>) -> Seq<u16> {
    Seq::new(glyphs.len(), |i: int| glyphs[i].id)
}

/// Every glyph is smaller than every later one.
pub open spec fn is_glyph_order(s: Seq<u16>) -> bool {
    forall|i: int, j: int| 0 <= i < j < s.len() ==> s[i] < s[j]
}

/// The index of the glyph's first occurrence from index `from` on, as far as
/// 16 bits can hold it.
pub open spec fn list_index_from(glyphs: Seq<GlyphId16>, glyph: u16, from: int) -> Option<u16>
    decreases glyphs.len() - from,
{
    if from < 0 || from >= glyphs.len() || from > 0xFFFF {
        None
    } else if glyphs[from].id == glyph {
        Some(from as u16)
    } else {
        list_index_from(glyphs, glyph, from + 1)
    }
}

impl RangeRecord {
    /// Whether the glyph lies in the run.
    pub open spec fn covers(self, glyph: u16) -> bool {
        self.start_glyph_id.id <= glyph <= self.end_glyph_id.id
    }

    /// The coverage index that the run gives to a glyph in it, as far as 16
    /// bits can hold it.
    pub open spec fn index_of(self, glyph: u16) -> Option<u16> {
        let at = self.start_coverage_index + (glyph - self.start_glyph_id.id);
        if at <= 0xFFFF {
            Some(at as u16)
        } else {
            None
        }
    }
}

/// The coverage index by the first run, from index `from` on, that covers the
/// glyph.
pub open spec fn range_index_from(records: Seq<RangeRecord>, glyph: u16, from: int) -> Option<u16>
    decreases records.len() - from,
{
    if from < 0 || from >= records.len() {
        None
    } else if records[from].covers(glyph) {
        records[from].index_of(glyph)
    } else {
        range_index_from(records, glyph, from + 1)
    }
}

impl CoverageTable {
    /// The coverage index of the glyph, or `None` where the table does not
    /// cover it.
    pub open spec fn coverage_index(self, glyph: u16) -> Option<u16> {
        match self {
            CoverageTable::Format1(t) => list_index_from(t.glyph_array@, glyph, 0),
            CoverageTable::Format2(t) => range_index_from(t.range_records@, glyph, 0),
        }
    }

    /// The coverage index of the glyph, or `None` where the table does not
    /// cover it.
    pub fn get(&self, glyph: GlyphId16) -> (r: Option<u16>)
        ensures
            r == self.coverage_index(glyph.id),
    {
        let g: u16 = glyph.to_u16();
        match self {
            CoverageTable::Format1(t) => {
                let n: usize = t.glyph_array.len();
                let mut i: usize = 0;
                while i < n && i <= 0xFFFF
                    invariant
                        i <= n,
                        n == t.glyph_array.len(),
                        g == glyph.id,
                        self.coverage_index(glyph.id) == list_index_from(
                            t.glyph_array@,
                            g,
                            i as int,
                        ),
                    decreases n - i,
                {
                    if t.glyph_array[i].to_u16() == g {
                        return Some(i as u16);
                    }
                    i += 1;
                }
                None
            },
            CoverageTable::Format2(t) => {
                let n: usize = t.range_records.len();
                let mut i: usize = 0;
                while i < n
                    invariant
                        i <= n,
                        n == t.range_records.len(),
                        g == glyph.id,
                        self.coverage_index(glyph.id) == range_index_from(
                            t.range_records@,
                            g,
                            i as int,
                        ),
                    decreases n - i,
                {
                    let rec: RangeRecord = t.range_records[i];
                    let start: u16 = rec.start_glyph_id.to_u16();
                    assert(rec.covers(g) <==> start <= g <= rec.end_glyph_id.id);
                    if start <= g && g <= rec.end_glyph_id.to_u16() {
                        let at: u32 = rec.start_coverage_index as u32 + (g - start) as u32;
                        if at <= 0xFFFF {
                            return Some(at as u16);
                        } else {
                            return None;
                        }
                    }
                    i += 1;
                }
                None
            },
        }
    }
}

/// How many of the glyphs are smaller than `glyph`.
pub open spec fn count_below(s: Seq<u16>, glyph: u16) -> nat
    decreases s.len(),
{
    if s.len() == 0 {
        0
    } else if s.last() < glyph {
        count_below(s.drop_last(), glyph) + 1
    } else {
        count_below(s.drop_last(), glyph)
    }
}

/// The glyphs with `glyph` among them: unchanged where it is there already,
/// else with `glyph` behind the smaller ones.
pub open spec fn with_glyph(s: Seq<u16>, glyph: u16) -> Seq<u16> {
    if s.contains(glyph) {
        s
    } else {
        s.insert(count_below(s, glyph) as int, glyph)
    }
}

/// The glyphs that a builder holds after the given glyphs were added to an
/// empty one, one after the other.
pub open spec fn glyphs_in_order(added: Seq<u16>) -> Seq<u16>
    decreases added.len(),
{
    if added.len() == 0 {
        Seq::empty()
    } else {
        with_glyph(glyphs_in_order(added.drop_last()), added.last())
    }
}

/// Whether glyph `i` carries on the run of the glyph before it.
pub open spec fn follows(s: Seq<u16>, i: int) -> bool {
    0 < i < s.len() && s[i] == s[i - 1] + 1
}

/// The maximal runs of consecutive glyphs, in ascending order, each with the
/// index of its first glyph.
pub open spec fn coverage_ranges(s: Seq<u16>) -> Seq<RangeRecord>
    decreases s.len(),
{
    if s.len() == 0 {
        Seq::empty()
    } else {
        let before = coverage_ranges(s.drop_last());
        let glyph = GlyphId16 { id: s.last() };
        if follows(s, s.len() - 1) {
            before.drop_last().push(
                RangeRecord {
                    start_glyph_id: before.last().start_glyph_id,
                    end_glyph_id: glyph,
                    start_coverage_index: before.last().start_coverage_index,
                },
            )
        } else {
            before.push(
                RangeRecord {
                    start_glyph_id: glyph,
                    end_glyph_id: glyph,
                    start_coverage_index: (s.len() - 1) as u16,
                },
            )
        }
    }
}

/// Whether the range layout is the smaller one for the glyphs.
///
/// The list layout takes 4 bytes and 2 for each glyph; the range layout takes
/// 4 bytes and 6 for each run.
pub open spec fn prefers_format_2(s: Seq<u16>) -> bool {
    4 + 6 * coverage_ranges(s).len() < 4 + 2 * s.len()
}

impl CoverageTable {
    /// Whether the table is the smaller layout of the glyphs: their runs where
    /// that is strictly smaller, else the list of them.
    pub open spec fn is_encoding_of(self, s: Seq<u16>) -> bool {
        if prefers_format_2(s) {
            &&& self matches CoverageTable::Format2(t)
            &&& t.range_records@ == coverage_ranges(s)
        } else {
            &&& self matches CoverageTable::Format1(t)
            &&& glyph_ids(t.glyph_array@) == s
        }
    }
}

/// Glyphs are in order exactly when their keys ascend.
pub proof fn lemma_glyph_order_keys(glyphs: Seq<GlyphId16>)
    ensures
        is_glyph_order(glyph_ids(glyphs)) <==> is_ascending(keys_of(glyphs)),
{
    let ids = glyph_ids(glyphs);
    let ks = keys_of(glyphs);
    if is_glyph_order(ids) {
        assert forall|i: int, j: int| 0 <= i < j < ks.len() implies ks[i] < ks[j] by {
            assert(ids[i] < ids[j]);
        }
    }
    if is_ascending(ks) {
        assert forall|i: int, j: int| 0 <= i < j < ids.len() implies ids[i] < ids[j] by {
            assert(ks[i] < ks[j]);
        }
    }
}

/// In ordered glyphs, the number of glyphs below `glyph` is the index at which
/// the glyphs stop being smaller.
pub proof fn lemma_count_below(s: Seq<u16>, glyph: u16, at: int)
    requires
        0 <= at <= s.len(),
        forall|j: int| 0 <= j < at ==> s[j] < glyph,
        forall|j: int| at <= j < s.len() ==> glyph <= s[j],
    ensures
        count_below(s, glyph) == at,
    decreases s.len(),
{
    if s.len() > 0 {
        let t = s.drop_last();
        if at == s.len() {
            lemma_count_below(t, glyph, at - 1);
        } else {
            lemma_count_below(t, glyph, at);
        }
    }
}

/// Ordered glyphs number no more than there are glyph identifiers, and each is
/// at least as large as its index.
pub proof fn lemma_glyphs_fit(s: Seq<u16>)
    requires
        is_glyph_order(s),
    ensures
        s.len() <= 0x1_0000,
        forall|i: int| 0 <= i < s.len() ==> i <= #[trigger] s[i],
    decreases s.len(),
{
    if s.len() > 0 {
        let t = s.drop_last();
        lemma_glyphs_fit(t);
        assert forall|i: int| 0 <= i < s.len() implies i <= #[trigger] s[i] by {
            if i < t.len() {
                assert(t[i] == s[i]);
            } else if i > 0 {
                assert(i - 1 <= t[i - 1]);
                assert(s[i - 1] < s[i]);
            }
        }
        assert(s.len() - 1 <= s[s.len() - 1]);
    }
}

/// Adding a glyph to ordered glyphs keeps them ordered, adds that glyph and no
/// other, and puts it at the index that counts the smaller glyphs.
pub proof fn lemma_with_glyph(s: Seq<u16>, glyph: u16)
    requires
        is_glyph_order(s),
    ensures
        is_glyph_order(with_glyph(s, glyph)),
        with_glyph(s, glyph).to_set() == s.to_set().insert(glyph),
        0 <= count_below(s, glyph) < with_glyph(s, glyph).len(),
        with_glyph(s, glyph)[count_below(s, glyph) as int] == glyph,
{
    let at = split_point(s, glyph);
    lemma_split_point(s, glyph);
    lemma_count_below(s, glyph, at);
    let r = with_glyph(s, glyph);
    if s.contains(glyph) {
        let i = choose|i: int| 0 <= i < s.len() && s[i] == glyph;
        if i < at {
            assert(s[i] < glyph);
        }
        if at < i {
            assert(s[at] < s[i]);
        }
        assert(r.to_set() =~= s.to_set().insert(glyph));
    } else {
        assert forall|i: int, j: int| 0 <= i < j < r.len() implies r[i] < r[j] by {
            let pi = if i < at { i } else { i - 1 };
            let pj = if j < at { j } else { j - 1 };
            if i != at && j != at {
                assert(s[pi] < s[pj]);
            }
            if i == at {
                assert(s[pj] != glyph);
            }
        }
        assert forall|k: u16| r.to_set().contains(k) <==> s.to_set().insert(glyph).contains(
            k,
        ) by {
            if r.contains(k) {
                let p = choose|p: int| 0 <= p < r.len() && r[p] == k;
                if p < at {
                    assert(s[p] == k);
                } else if p > at {
                    assert(s[p - 1] == k);
                }
            }
            if s.contains(k) {
                let p = choose|p: int| 0 <= p < s.len() && s[p] == k;
                if p < at {
                    assert(r[p] == k);
                } else {
                    assert(r[p + 1] == k);
                }
            }
            if k == glyph {
                assert(r[at] == k);
            }
        }
        assert(r.to_set() =~= s.to_set().insert(glyph));
    }
}

/// The index at which ordered glyphs stop being smaller than `glyph`.
spec fn split_point(s: Seq<u16>, glyph: u16) -> int
    decreases s.len(),
{
    if s.len() == 0 {
        0
    } else if s.last() < glyph {
        s.len() as int
    } else {
        split_point(s.drop_last(), glyph)
    }
}

/// The split point parts ordered glyphs into the smaller ones and the rest.
proof fn lemma_split_point(s: Seq<u16>, glyph: u16)
    requires
        is_glyph_order(s),
    ensures
        0 <= split_point(s, glyph) <= s.len(),
        forall|j: int| 0 <= j < split_point(s, glyph) ==> s[j] < glyph,
        forall|j: int| split_point(s, glyph) <= j < s.len() ==> glyph <= s[j],
    decreases s.len(),
{
    if s.len() > 0 {
        if s.last() < glyph {
            assert forall|j: int| 0 <= j < s.len() implies s[j] < glyph by {
                if j < s.len() - 1 {
                    assert(s[j] < s[s.len() - 1]);
                }
            }
        } else {
            let t = s.drop_last();
            lemma_split_point(t, glyph);
            assert forall|j: int| 0 <= j < split_point(s, glyph) implies s[j] < glyph by {
                assert(t[j] == s[j]);
            }
            assert forall|j: int| split_point(s, glyph) <= j < s.len() implies glyph <= s[j] by {
                if j < t.len() {
                    assert(t[j] == s[j]);
                }
            }
        }
    }
}

/// A builder of coverage tables: it keeps its glyphs in ascending order,
/// each one once, and picks the smaller layout for them.
#[derive(Debug, PartialEq, Eq)]
pub struct CoverageTableBuilder {
    glyphs: Vec<GlyphId16>,
}

impl View for CoverageTableBuilder {
    type V = Seq<u16>;

    /// The glyphs, in ascending order.
    closed spec fn view(&self) -> Seq<u16> {
        glyph_ids(self.glyphs@)
    }
}

impl Default for CoverageTableBuilder {
    fn default() -> (r: Self)
        ensures
            r@ == Seq::<u16>::empty(),
    {
        let r = CoverageTableBuilder { glyphs: Vec::new() };
        assert(r@ =~= Seq::<u16>::empty());
        r
    }
}

impl CoverageTableBuilder {
    #[verifier::type_invariant]
    spec fn ordered(self) -> bool {
        is_glyph_order(self@)
    }

    /// The builder that holds the given glyphs.
    pub fn from_glyphs(glyphs: Vec<GlyphId16>) -> (r: Self)
        ensures
            r@ == glyphs_in_order(glyph_ids(glyphs@)),
    {
        let mut r = CoverageTableBuilder { glyphs: Vec::new() };
        let n: usize = glyphs.len();
        let mut i: usize = 0;
        assert(r@ =~= glyphs_in_order(glyph_ids(glyphs@).take(0)));
        while i < n
            invariant
                i <= n,
                n == glyphs.len(),
                r@ == glyphs_in_order(glyph_ids(glyphs@).take(i as int)),
            decreases n - i,
        {
            proof {
                let now = glyph_ids(glyphs@).take(i + 1);
                assert(now.drop_last() =~= glyph_ids(glyphs@).take(i as int));
                assert(now.last() == glyphs[i as int].id);
            }
            r.add(glyphs[i]);
            i += 1;
        }
        assert(glyph_ids(glyphs@).take(n as int) =~= glyph_ids(glyphs@));
        r
    }

    /// Adds a glyph and returns its coverage index.
    ///
    /// A glyph that is there already is not added again. The index is the
    /// glyph's place among the glyphs held now; it grows when a smaller glyph
    /// is added later.
    pub fn add(&mut self, glyph: GlyphId16) -> (r: u16)
        ensures
            final(self)@ == with_glyph(old(self)@, glyph.id),
            r == count_below(old(self)@, glyph.id),
            is_glyph_order(final(self)@),
            r < final(self)@.len(),
            final(self)@[r as int] == glyph.id,
    {
        proof {
            use_type_invariant(&*self);
            lemma_glyph_order_keys(self.glyphs@);
            lemma_with_glyph(self@, glyph.id);
            lemma_glyphs_fit(with_glyph(self@, glyph.id));
        }
        match search(&self.glyphs, glyph) {
            Ok(ix) => {
                proof {
                    assert(self@[ix as int] == glyph.id);
                    assert(self@.contains(glyph.id));
                }
                ix as u16
            },
            Err(ix) => {
                let mut glyphs: Vec<GlyphId16> = Vec::new();
                std::mem::swap(&mut glyphs, &mut self.glyphs);
                proof {
                    let s = glyph_ids(glyphs@);
                    assert forall|j: int| 0 <= j < s.len() implies s[j] != glyph.id by {
                        assert(glyphs[j].key() == s[j]);
                    }
                    assert forall|j: int| 0 <= j < ix implies s[j] < glyph.id by {
                        assert(glyphs[j].key() == s[j]);
                    }
                    assert forall|j: int| ix <= j < s.len() implies glyph.id <= s[j] by {
                        assert(glyphs[j].key() == s[j]);
                    }
                    lemma_count_below(s, glyph.id, ix as int);
                    assert(glyph_ids(glyphs@.insert(ix as int, glyph)) =~= s.insert(
                        ix as int,
                        glyph.id,
                    ));
                }
                glyphs.insert(ix, glyph);
                self.glyphs = glyphs;
                ix as u16
            },
        }
    }

    /// The glyphs, in ascending order.
    pub fn glyphs(&self) -> (r: &Vec<GlyphId16>)
        ensures
            glyph_ids(r@) == self@,
            is_glyph_order(self@),
    {
        proof {
            use_type_invariant(self);
        }
        &self.glyphs
    }

    /// The table in the smaller of its two layouts.
    pub fn build(self) -> (r: CoverageTable)
        ensures
            r.is_encoding_of(self@),
    {
        proof {
            use_type_invariant(&self);
        }
        if should_choose_coverage_format_2(self.glyphs.as_slice()) {
            CoverageTable::Format2(
                CoverageFormat2 {
                    range_records: RangeRecord::iter_for_glyphs(self.glyphs.as_slice()),
                },
            )
        } else {
            CoverageTable::Format1(CoverageFormat1 { glyph_array: self.glyphs })
        }
    }
}

impl RangeRecord {
    /// The maximal runs of consecutive glyphs among ordered glyphs, each with
    /// the index of its first glyph.
    pub fn iter_for_glyphs(glyphs: &[GlyphId16]) -> (r: Vec<RangeRecord>)
        requires
            is_glyph_order(glyph_ids(glyphs@)),
        ensures
            r@ == coverage_ranges(glyph_ids(glyphs@)),
    {
        let ghost s = glyph_ids(glyphs@);
        let mut out: Vec<RangeRecord> = Vec::new();
        let n: usize = glyphs.len();
        if n == 0 {
            assert(out@ =~= coverage_ranges(s));
            return out;
        }
        proof {
            lemma_glyphs_fit(s);
        }
        let mut cur: RangeRecord = RangeRecord {
            start_glyph_id: glyphs[0],
            end_glyph_id: glyphs[0],
            start_coverage_index: 0,
        };
        let mut i: usize = 1;
        proof {
            let e = s.take(1);
            assert(e.drop_last() =~= Seq::<u16>::empty());
            assert(coverage_ranges(e.drop_last()) =~= Seq::<RangeRecord>::empty());
            assert(coverage_ranges(e) =~= out@.push(cur));
        }
        while i < n
            invariant
                1 <= i <= n,
                n == glyphs.len(),
                n <= 0x1_0000,
                s == glyph_ids(glyphs@),
                is_glyph_order(s),
                coverage_ranges(s.take(i as int)) == out@.push(cur),
                cur.end_glyph_id.id == s[i - 1],
            decreases n - i,
        {
            let glyph: GlyphId16 = glyphs[i];
            let ghost e = s.take(i + 1);
            proof {
                assert(e.drop_last() =~= s.take(i as int));
                assert(e.last() == s[i as int]);
                assert(e[i - 1] == s[i - 1]);
                assert(s[i - 1] < s[i as int]);
            }
            if glyph.to_u16() - cur.end_glyph_id.to_u16() == 1 {
                let ghost longer = RangeRecord {
                    start_glyph_id: cur.start_glyph_id,
                    end_glyph_id: glyph,
                    start_coverage_index: cur.start_coverage_index,
                };
                proof {
                    assert(follows(e, i as int));
                    assert(out@.push(cur).drop_last() =~= out@);
                    assert(coverage_ranges(e) =~= out@.push(longer));
                }
                cur = RangeRecord {
                    start_glyph_id: cur.start_glyph_id,
                    end_glyph_id: glyph,
                    start_coverage_index: cur.start_coverage_index,
                };
            } else {
                proof {
                    assert(!follows(e, i as int));
                }
                out.push(cur);
                cur = RangeRecord {
                    start_glyph_id: glyph,
                    end_glyph_id: glyph,
                    start_coverage_index: i as u16,
                };
            }
            i += 1;
        }
        assert(s.take(n as int) =~= s);
        out.push(cur);
        out
    }
}

/// Whether the range layout is the smaller one for the ordered glyphs.
pub fn should_choose_coverage_format_2(glyphs: &[GlyphId16]) -> (r: bool)
    requires
        is_glyph_order(glyph_ids(glyphs@)),
    ensures
        r == prefers_format_2(glyph_ids(glyphs@)),
{
    proof {
        lemma_glyphs_fit(glyph_ids(glyphs@));
        lemma_coverage_ranges_shape(glyph_ids(glyphs@));
    }
    let format2_len: usize = 4 + RangeRecord::iter_for_glyphs(glyphs).len() * 6;
    let format1_len: usize = 4 + glyphs.len() * 2;
    format2_len < format1_len
}

/// There are no more runs than glyphs, and with a glyph there is a run, the
/// last of which ends at the last glyph.
pub proof fn lemma_coverage_ranges_shape(s: Seq<u16>)
    ensures
        coverage_ranges(s).len() <= s.len(),
        s.len() > 0 ==> coverage_ranges(s).len() > 0 && coverage_ranges(s).last().end_glyph_id.id
            == s.last(),
    decreases s.len(),
{
    if s.len() > 0 {
        lemma_coverage_ranges_shape(s.drop_last());
    }
}

/// The index of the glyph among the glyphs, or `None` where it is not among
/// them.
pub open spec fn position_of(s: Seq<u16>, glyph: u16) -> Option<u16> {
    if s.contains(glyph) {
        Some(s.index_of(glyph) as u16)
    } else {
        None
    }
}

/// In ordered glyphs, a glyph stands at one index only.
pub proof fn lemma_position_of(s: Seq<u16>, i: int)
    requires
        is_glyph_order(s),
        0 <= i < s.len(),
    ensures
        position_of(s, s[i]) == Some(i as u16),
        i <= 0xFFFF,
{
    lemma_glyphs_fit(s);
    let j = s.index_of(s[i]);
    assert(s.contains(s[i]));
    if j < i {
        assert(s[j] < s[i]);
    }
    if i < j {
        assert(s[i] < s[j]);
    }
}

/// A lookup in the list from index `from` on finds the glyph's first
/// occurrence, or there is none within reach of a 16-bit index.
proof fn lemma_list_index_from(glyphs: Seq<GlyphId16>, glyph: u16, from: int)
    requires
        0 <= from,
    ensures
        match list_index_from(glyphs, glyph, from) {
            Some(k) => from <= k < glyphs.len() && glyphs[k as int].id == glyph,
            None => forall|k: int|
                from <= k < glyphs.len() && k <= 0xFFFF ==> glyphs[k].id != glyph,
        },
    decreases glyphs.len() - from,
{
    if from < glyphs.len() && from <= 0xFFFF && glyphs[from].id != glyph {
        lemma_list_index_from(glyphs, glyph, from + 1);
    }
}

/// A lookup in the runs from index `from` on answers by a run that covers the
/// glyph, or there is none.
proof fn lemma_range_index_from(records: Seq<RangeRecord>, glyph: u16, from: int)
    requires
        0 <= from,
    ensures
        (exists|k: int|
            from <= k < records.len() && records[k].covers(glyph) && range_index_from(
                records,
                glyph,
                from,
            ) == records[k].index_of(glyph)) || (range_index_from(records, glyph, from).is_none()
            && forall|k: int| from <= k < records.len() ==> !records[k].covers(glyph)),
    decreases records.len() - from,
{
    if from < records.len() && !records[from].covers(glyph) {
        lemma_range_index_from(records, glyph, from + 1);
    }
}

/// Whether the run stands for a stretch of the glyphs: glyph `start + d` at
/// index `start_coverage_index + d`, up to the run's end.
spec fn run_fits(s: Seq<u16>, r: RangeRecord) -> bool {
    &&& r.start_glyph_id.id <= r.end_glyph_id.id
    &&& r.start_coverage_index + (r.end_glyph_id.id - r.start_glyph_id.id) < s.len()
    &&& forall|d: int|
        0 <= d <= r.end_glyph_id.id - r.start_glyph_id.id ==> #[trigger] s[r.start_coverage_index
            + d] == r.start_glyph_id.id + d
}

/// A run that fits glyphs fits them still when a glyph is appended.
proof fn lemma_run_fits_longer(s: Seq<u16>, r: RangeRecord)
    requires
        s.len() > 0,
        run_fits(s.drop_last(), r),
    ensures
        run_fits(s, r),
{
    let t = s.drop_last();
    let at = r.start_coverage_index as int;
    let span = r.end_glyph_id.id - r.start_glyph_id.id;
    assert forall|d: int| 0 <= d <= span implies #[trigger] s[at + d] == r.start_glyph_id.id + d by {
        assert(t[at + d] == s[at + d]);
    }
}

/// A run that reaches the end of the glyphs before the last and is lengthened
/// by the last glyph, which follows on, fits the glyphs.
proof fn lemma_run_fits_extended(s: Seq<u16>, r: RangeRecord, longer: RangeRecord)
    requires
        s.len() > 1,
        run_fits(s.drop_last(), r),
        r.start_coverage_index + (r.end_glyph_id.id - r.start_glyph_id.id) == s.len() - 2,
        s[s.len() - 1] == r.end_glyph_id.id + 1,
        longer.start_glyph_id == r.start_glyph_id,
        longer.start_coverage_index == r.start_coverage_index,
        longer.end_glyph_id.id == s[s.len() - 1],
    ensures
        run_fits(s, longer),
{
    let t = s.drop_last();
    let at = r.start_coverage_index as int;
    let span = longer.end_glyph_id.id - longer.start_glyph_id.id;
    assert forall|d: int| 0 <= d <= span implies #[trigger] s[at + d] == r.start_glyph_id.id
        + d by {
        if d <= r.end_glyph_id.id - r.start_glyph_id.id {
            assert(t[at + d] == s[at + d]);
        }
    }
}

/// Every run of ordered glyphs fits them, and the last run reaches their end.
proof fn lemma_coverage_ranges_fit(s: Seq<u16>)
    requires
        is_glyph_order(s),
    ensures
        forall|k: int|
            0 <= k < coverage_ranges(s).len() ==> run_fits(s, #[trigger] coverage_ranges(s)[k]),
        s.len() > 0 ==> coverage_ranges(s).len() > 0 && {
            let last = coverage_ranges(s).last();
            &&& last.end_glyph_id.id == s.last()
            &&& last.start_coverage_index + (last.end_glyph_id.id - last.start_glyph_id.id)
                == s.len() - 1
        },
    decreases s.len(),
{
    if s.len() > 0 {
        let t = s.drop_last();
        let before = coverage_ranges(t);
        let runs = coverage_ranges(s);
        lemma_coverage_ranges_fit(t);
        lemma_glyphs_fit(s);
        if follows(s, s.len() - 1) {
            let old_last = before.last();
            assert(before[before.len() - 1] == old_last);
            assert(t.last() == s[s.len() - 2]);
            lemma_run_fits_extended(s, old_last, runs.last());
            assert forall|k: int| 0 <= k < runs.len() implies run_fits(s, #[trigger] runs[k]) by {
                if k < runs.len() - 1 {
                    assert(runs[k] == before[k]);
                    lemma_run_fits_longer(s, before[k]);
                }
            }
        } else {
            assert forall|k: int| 0 <= k < runs.len() implies run_fits(s, #[trigger] runs[k]) by {
                if k < runs.len() - 1 {
                    assert(runs[k] == before[k]);
                    lemma_run_fits_longer(s, before[k]);
                } else {
                    assert(runs[k].start_coverage_index == s.len() - 1);
                }
            }
        }
    }
}

/// Every glyph of ordered glyphs lies in one of their runs.
proof fn lemma_coverage_ranges_reach(s: Seq<u16>, i: int)
    requires
        is_glyph_order(s),
        0 <= i < s.len(),
    ensures
        exists|k: int| 0 <= k < coverage_ranges(s).len() && coverage_ranges(s)[k].covers(s[i]),
    decreases s.len(),
{
    let t = s.drop_last();
    let before = coverage_ranges(t);
    let runs = coverage_ranges(s);
    lemma_coverage_ranges_fit(s);
    lemma_coverage_ranges_fit(t);
    if i < t.len() {
        lemma_coverage_ranges_reach(t, i);
        assert(t[i] == s[i]);
        let k = choose|k: int| 0 <= k < before.len() && before[k].covers(t[i]);
        if k < runs.len() - 1 {
            assert(runs[k] == before[k]);
            assert(runs[k].covers(s[i]));
        } else {
            assert(runs[runs.len() - 1].covers(s[i]));
        }
    } else {
        assert(run_fits(s, runs[runs.len() - 1]));
        assert(runs[runs.len() - 1].covers(s[i]));
    }
}

/// The runs of ordered glyphs are in ascending order with a gap between
/// neighbours, so that no two of them could be one run.
pub proof fn lemma_coverage_ranges_are_maximal(s: Seq<u16>)
    requires
        is_glyph_order(s),
    ensures
        forall|k: int|
            0 <= k < coverage_ranges(s).len() ==> (#[trigger] coverage_ranges(
                s,
            )[k]).start_glyph_id.id <= coverage_ranges(s)[k].end_glyph_id.id,
        forall|k: int|
            0 <= k < coverage_ranges(s).len() - 1 ==> (#[trigger] coverage_ranges(
                s,
            )[k]).end_glyph_id.id + 1 < coverage_ranges(s)[k + 1].start_glyph_id.id,
    decreases s.len(),
{
    if s.len() > 0 {
        let t = s.drop_last();
        let before = coverage_ranges(t);
        let runs = coverage_ranges(s);
        lemma_coverage_ranges_are_maximal(t);
        lemma_coverage_ranges_shape(t);
        if t.len() > 0 {
            assert(t.last() == s[s.len() - 2]);
            assert(s[s.len() - 2] < s[s.len() - 1]);
        }
        assert forall|k: int| 0 <= k < runs.len() implies (#[trigger] runs[k]).start_glyph_id.id
            <= runs[k].end_glyph_id.id by {
            if k < runs.len() - 1 {
                assert(runs[k] == before[k]);
            } else if follows(s, s.len() - 1) {
                assert(before[before.len() - 1].start_glyph_id.id <= before[before.len()
                    - 1].end_glyph_id.id);
            }
        }
        assert forall|k: int| 0 <= k < runs.len() - 1 implies (#[trigger] runs[k]).end_glyph_id.id
            + 1 < runs[k + 1].start_glyph_id.id by {
            assert(runs[k] == before[k]);
            if k + 1 < runs.len() - 1 {
                assert(runs[k + 1] == before[k + 1]);
            } else if follows(s, s.len() - 1) {
                assert(runs[k + 1].start_glyph_id == before[k + 1].start_glyph_id);
            }
        }
    }
}

/// Read back glyph by glyph, a built table gives each glyph of the builder its
/// index among them, and covers no other glyph.
pub proof fn lemma_coverage_round_trip(table: CoverageTable, s: Seq<u16>)
    requires
        is_glyph_order(s),
        table.is_encoding_of(s),
    ensures
        forall|g: u16| table.coverage_index(g) == position_of(s, g),
{
    lemma_glyphs_fit(s);
    assert forall|g: u16| table.coverage_index(g) == position_of(s, g) by {
        match table {
            CoverageTable::Format1(t) => {
                lemma_list_index_from(t.glyph_array@, g, 0);
                match list_index_from(t.glyph_array@, g, 0) {
                    Some(k) => {
                        assert(s[k as int] == g);
                        lemma_position_of(s, k as int);
                    },
                    None => {
                        if s.contains(g) {
                            let i = s.index_of(g);
                            assert(t.glyph_array@[i].id == s[i]);
                        }
                    },
                }
            },
            CoverageTable::Format2(t) => {
                let runs = coverage_ranges(s);
                lemma_coverage_ranges_fit(s);
                lemma_range_index_from(runs, g, 0);
                if range_index_from(runs, g, 0).is_none() && forall|k: int|
                    0 <= k < runs.len() ==> !runs[k].covers(g) {
                    if s.contains(g) {
                        let i = s.index_of(g);
                        lemma_coverage_ranges_reach(s, i);
                        let k = choose|k: int| 0 <= k < runs.len() && runs[k].covers(s[i]);
                        assert(!runs[k].covers(g));
                    }
                } else {
                    let k = choose|k: int|
                        0 <= k < runs.len() && runs[k].covers(g) && range_index_from(runs, g, 0)
                            == runs[k].index_of(g);
                    let d = g - runs[k].start_glyph_id.id;
                    let at = runs[k].start_coverage_index + d;
                    assert(run_fits(s, runs[k]));
                    assert(s[runs[k].start_coverage_index + d] == g);
                    lemma_position_of(s, at);
                }
            },
        }
    }
}

/// The glyphs of a sequence as integers.
spec fn as_ints(s: Seq<u16>) -> Seq<int> {
    Seq::new(s.len(), |i: int| s[i] as int)
}

/// After any additions a builder holds ordered glyphs: those that were added,
/// each once.
pub proof fn lemma_glyphs_in_order(added: Seq<u16>)
    ensures
        is_glyph_order(glyphs_in_order(added)),
        glyphs_in_order(added).to_set() == added.to_set(),
    decreases added.len(),
{
    if added.len() == 0 {
        assert(glyphs_in_order(added).to_set() =~= added.to_set());
    } else {
        let t = added.drop_last();
        lemma_glyphs_in_order(t);
        lemma_with_glyph(glyphs_in_order(t), added.last());
        assert(added.to_set() =~= t.to_set().insert(added.last())) by {
            assert forall|k: u16| added.to_set().contains(k) <==> t.to_set().insert(
                added.last(),
            ).contains(k) by {
                if added.contains(k) {
                    let p = choose|p: int| 0 <= p < added.len() && added[p] == k;
                    if p < t.len() {
                        assert(t[p] == k);
                    }
                }
                if t.contains(k) {
                    let p = choose|p: int| 0 <= p < t.len() && t[p] == k;
                    assert(added[p] == k);
                }
                if k == added.last() {
                    assert(added[added.len() - 1] == k);
                }
            }
        }
    }
}

/// The glyphs that a builder ends up with depend on the set of glyphs that
/// were added alone, not on the order in which they were added, nor on how
/// often.
pub proof fn lemma_insertion_order_independent(a: Seq<u16>, b: Seq<u16>)
    requires
        a.to_set() == b.to_set(),
    ensures
        glyphs_in_order(a) == glyphs_in_order(b),
{
    let x = glyphs_in_order(a);
    let y = glyphs_in_order(b);
    lemma_glyphs_in_order(a);
    lemma_glyphs_in_order(b);
    assert(elements(as_ints(x)) =~= elements(as_ints(y))) by {
        assert forall|k: int| elements(as_ints(x)).contains(k) implies elements(
            as_ints(y),
        ).contains(k) by {
            let p = choose|p: int| 0 <= p < as_ints(x).len() && as_ints(x)[p] == k;
            assert(x.to_set().contains(x[p]));
            assert(y.contains(x[p]));
            let q = choose|q: int| 0 <= q < y.len() && y[q] == x[p];
            assert(as_ints(y)[q] == k);
        }
        assert forall|k: int| elements(as_ints(y)).contains(k) implies elements(
            as_ints(x),
        ).contains(k) by {
            let p = choose|p: int| 0 <= p < as_ints(y).len() && as_ints(y)[p] == k;
            assert(y.to_set().contains(y[p]));
            assert(x.contains(y[p]));
            let q = choose|q: int| 0 <= q < x.len() && x[q] == y[p];
            assert(as_ints(x)[q] == k);
        }
    }
    assert(is_ascending(as_ints(x))) by {
        assert forall|i: int, j: int| 0 <= i < j < as_ints(x).len() implies as_ints(x)[i]
            < as_ints(x)[j] by {
            assert(x[i] < x[j]);
        }
    }
    assert(is_ascending(as_ints(y))) by {
        assert forall|i: int, j: int| 0 <= i < j < as_ints(y).len() implies as_ints(y)[i]
            < as_ints(y)[j] by {
            assert(y[i] < y[j]);
        }
    }
    lemma_ascending_unique(as_ints(x), as_ints(y));
    assert(x =~= y) by {
        assert forall|i: int| 0 <= i < x.len() implies x[i] == y[i] by {
            assert(as_ints(x)[i] == as_ints(y)[i]);
        }
    }
}

} // verus!
