//! The closure of a layout table's features: the features that can be reached
//! from given scripts and language systems.
//!
//! A traversal is bounded by three ceilings, so that a table whose records
//! alias each other or number in the tens of thousands costs no more than a
//! sane one. What lies beyond a ceiling is left out; it is no error.

use vstd::prelude::*;
use crate::domain::{Domain, Tag};
use crate::int_set::{elements, keys_of, ordered_members, IntSet};
use crate::layout::{
    lang_sys_tags, script_tags, tag_index_from, FeatureList, LangSys, LangSysRecord, ReadError,
    Script, ScriptList, ScriptRecord,
};

verus! {

/// How many scripts a traversal looks at before it leaves the rest out.
pub const MAX_SCRIPTS: u16 = 500;

/// How many language systems a traversal looks at before it leaves the rest
/// out.
pub const MAX_LANGSYS: u16 = 2000;

/// How many feature indices a traversal takes before it leaves the rest out.
pub const MAX_FEATURE_INDICES: u16 = 1500;

/// The required-feature index of a language system without a required
/// feature.
pub const NO_REQUIRED_FEATURE: u16 = 0xFFFF;

/// What a traversal has counted, seen and collected so far.
pub struct ClosureState {
    /// The scripts looked at, those seen before among them.
    pub script_count: int,
    /// The language systems looked at, those seen before among them.
    pub langsys_count: int,
    /// The feature indices asked for.
    pub feature_index_count: int,
    /// The offsets of the scripts gone into.
    pub visited_script: Set<int>,
    /// The offsets of the language systems gone into.
    pub visited_langsys: Set<int>,
    /// The feature indices collected.
    pub feature_indices: Set<int>,
    /// The feature indices that may be collected, where not all may.
    pub filter: Option<Set<int>>,
}

/// A state after part of a traversal, and the error that ended it, if one did.
pub type Outcome = (ClosureState, Option<ReadError>);

impl ClosureState {
    /// The state before anything was looked at.
    pub open spec fn initial(filter: Option<Set<int>>) -> ClosureState {
        ClosureState {
            script_count: 0,
            langsys_count: 0,
            feature_index_count: 0,
            visited_script: Set::empty(),
            visited_langsys: Set::empty(),
            feature_indices: Set::empty(),
            filter,
        }
    }

    /// Looking at the script at `offset`: the state after it, and whether the
    /// script is to be passed over, because the ceiling is exceeded or the
    /// script at that offset was gone into before.
    pub open spec fn script_visited(self, offset: u32) -> (ClosureState, bool) {
        if self.script_count > MAX_SCRIPTS {
            (self, true)
        } else if self.visited_script.contains(offset as int) {
            (ClosureState { script_count: self.script_count + 1, ..self }, true)
        } else {
            (
                ClosureState {
                    script_count: self.script_count + 1,
                    visited_script: self.visited_script.insert(offset as int),
                    ..self
                },
                false,
            )
        }
    }

    /// Looking at the language system at `offset`: the state after it, and
    /// whether the language system is to be passed over.
    pub open spec fn langsys_visited(self, offset: u32) -> (ClosureState, bool) {
        if self.langsys_count > MAX_LANGSYS {
            (self, true)
        } else if self.visited_langsys.contains(offset as int) {
            (ClosureState { langsys_count: self.langsys_count + 1, ..self }, true)
        } else {
            (
                ClosureState {
                    langsys_count: self.langsys_count + 1,
                    visited_langsys: self.visited_langsys.insert(offset as int),
                    ..self
                },
                false,
            )
        }
    }

    /// Asking for `count` more feature indices: the state after it, and
    /// whether the ceiling is exceeded by them. A count that 16 bits cannot
    /// hold is set to the ceiling and exceeds it.
    pub open spec fn feature_indices_limit_exceeded(self, count: u16) -> (ClosureState, bool) {
        let new_count = self.feature_index_count + count;
        if new_count > u16::MAX {
            (ClosureState { feature_index_count: MAX_FEATURE_INDICES as int, ..self }, true)
        } else {
            (
                ClosureState { feature_index_count: new_count, ..self },
                new_count > MAX_FEATURE_INDICES,
            )
        }
    }

    /// Whether the filter lets the feature index through.
    pub open spec fn admits(self, index: u16) -> bool {
        match self.filter {
            Some(allowed) => allowed.contains(index as int),
            None => true,
        }
    }

    /// One feature index of a language system: left out where the filter does
    /// not let it through, asked for otherwise, and collected unless the
    /// ceiling is exceeded by it.
    pub open spec fn contribute(self, index: u16) -> ClosureState {
        if !self.admits(index) {
            self
        } else {
            let (asked, exceeded) = self.feature_indices_limit_exceeded(1);
            if exceeded {
                asked
            } else {
                ClosureState {
                    feature_indices: asked.feature_indices.insert(index as int),
                    ..asked
                }
            }
        }
    }

    /// The feature indices of a list from index `from` on, one after the
    /// other.
    pub open spec fn contribute_all(self, indices: Seq<u16>, from: int) -> ClosureState
        decreases indices.len() - from,
    {
        if from < 0 || from >= indices.len() {
            self
        } else {
            self.contribute(indices[from]).contribute_all(indices, from + 1)
        }
    }

    /// A language system: passed over where [`Self::langsys_visited`] says so;
    /// else its required feature, if it has one, and then its other features.
    pub open spec fn collect_lang_sys(self, lang_sys: LangSys) -> ClosureState {
        let (looked, visited) = self.langsys_visited(lang_sys.offset);
        if visited {
            looked
        } else if lang_sys.required_feature_index != NO_REQUIRED_FEATURE {
            looked.contribute(lang_sys.required_feature_index).contribute_all(
                lang_sys.feature_indices@,
                0,
            )
        } else {
            looked.contribute_all(lang_sys.feature_indices@, 0)
        }
    }

    /// The language systems of the records from index `from` on, in order, up
    /// to the first that could not be read.
    pub open spec fn collect_records(self, records: Seq<LangSysRecord>, from: int) -> Outcome
        decreases records.len() - from,
    {
        if from < 0 || from >= records.len() {
            (self, None)
        } else {
            match records[from].lang_sys {
                Ok(lang_sys) => self.collect_lang_sys(lang_sys).collect_records(records, from + 1),
                Err(e) => (self, Some(e)),
            }
        }
    }

    /// The language systems with the tags from index `from` on, in the order
    /// of the tags, up to the first that could not be read. A tag without a
    /// record is passed over.
    pub open spec fn collect_tagged_records(
        self,
        records: Seq<LangSysRecord>,
        tags: Seq<Tag>,
        from: int,
    ) -> Outcome
        decreases tags.len() - from,
    {
        if from < 0 || from >= tags.len() {
            (self, None)
        } else {
            match tag_index_from(lang_sys_tags(records), tags[from], 0) {
                None => self.collect_tagged_records(records, tags, from + 1),
                Some(i) => match records[i].lang_sys {
                    Ok(lang_sys) => self.collect_lang_sys(lang_sys).collect_tagged_records(
                        records,
                        tags,
                        from + 1,
                    ),
                    Err(e) => (self, Some(e)),
                },
            }
        }
    }

    /// A script: passed over where [`Self::script_visited`] says so. Else,
    /// without language tags, its default language system and then its
    /// records in order; with language tags, the records with these tags.
    pub open spec fn collect_script(self, script: Script, languages: Option<Seq<Tag>>) -> Outcome {
        let (looked, visited) = self.script_visited(script.offset);
        if visited {
            (looked, None)
        } else {
            match languages {
                None => match script.default_lang_sys {
                    Some(Err(e)) => (looked, Some(e)),
                    Some(Ok(lang_sys)) => looked.collect_lang_sys(lang_sys).collect_records(
                        script.lang_sys_records@,
                        0,
                    ),
                    None => looked.collect_records(script.lang_sys_records@, 0),
                },
                Some(tags) => looked.collect_tagged_records(script.lang_sys_records@, tags, 0),
            }
        }
    }

    /// The scripts of the records from index `from` on, in order, up to the
    /// first error.
    pub open spec fn collect_scripts(
        self,
        records: Seq<ScriptRecord>,
        languages: Option<Seq<Tag>>,
        from: int,
    ) -> Outcome
        decreases records.len() - from,
    {
        if from < 0 || from >= records.len() {
            (self, None)
        } else {
            match records[from].script {
                Err(e) => (self, Some(e)),
                Ok(script) => {
                    let (after, error) = self.collect_script(script, languages);
                    if error.is_some() {
                        (after, error)
                    } else {
                        after.collect_scripts(records, languages, from + 1)
                    }
                },
            }
        }
    }

    /// The scripts with the tags from index `from` on, in the order of the
    /// tags, up to the first error. A tag without a record is passed over.
    pub open spec fn collect_tagged_scripts(
        self,
        records: Seq<ScriptRecord>,
        tags: Seq<Tag>,
        languages: Option<Seq<Tag>>,
        from: int,
    ) -> Outcome
        decreases tags.len() - from,
    {
        if from < 0 || from >= tags.len() {
            (self, None)
        } else {
            match tag_index_from(script_tags(records), tags[from], 0) {
                None => self.collect_tagged_scripts(records, tags, languages, from + 1),
                Some(i) => match records[i].script {
                    Err(e) => (self, Some(e)),
                    Ok(script) => {
                        let (after, error) = self.collect_script(script, languages);
                        if error.is_some() {
                            (after, error)
                        } else {
                            after.collect_tagged_scripts(records, tags, languages, from + 1)
                        }
                    },
                },
            }
        }
    }

    /// A whole query: every script, or the scripts with the given tags.
    pub open spec fn collect_script_list(
        self,
        scripts: ScriptList,
        script_tags: Option<Seq<Tag>>,
        languages: Option<Seq<Tag>>,
    ) -> Outcome {
        match script_tags {
            None => self.collect_scripts(scripts.script_records@, languages, 0),
            Some(tags) => self.collect_tagged_scripts(scripts.script_records@, tags, languages, 0),
        }
    }
}

/// The tags of a set in the order in which a traversal takes them: ascending.
pub open spec fn tag_order(tags: Option<&IntSet<Tag>>) -> Option<Seq<Tag>> {
    match tags {
        Some(set) => Some(ordered_members::<Tag>(set@)),
        None => None,
    }
}

/// The indices of the features that have one of the tags, as far as 16 bits
/// can hold an index.
pub open spec fn feature_filter(features: FeatureList, tags: Set<int>) -> Set<int> {
    Set::new(
        |i: int|
            0 <= i < features.feature_records@.len() && i <= u16::MAX && tags.contains(
                features.feature_records@[i].feature_tag.key(),
            ),
    )
}

/// The tags of the features with the given indices, as far as the list has a
/// feature at the index.
pub open spec fn feature_tags(features: FeatureList, indices: Set<int>) -> Set<int> {
    Set::new(
        |k: int|
            exists|i: int|
                indices.contains(i) && 0 <= i < features.feature_records@.len()
                    && features.feature_records@[i].feature_tag.key() == k,
    )
}

/// The state of one query over a table's scripts: what was counted and seen,
/// the filter on the features, and the feature indices collected.
#[derive(Debug)]
pub struct CollectFeaturesContext<'a> {
    script_count: u16,
    langsys_count: u16,
    feature_index_count: u16,
    visited_script: IntSet<u32>,
    visited_langsys: IntSet<u32>,
    feature_indices: IntSet<u16>,
    feature_indices_filter: Option<IntSet<u16>>,
    feature_list: &'a FeatureList,
}

impl<'a> View for CollectFeaturesContext<'a> {
    type V = ClosureState;

    closed spec fn view(&self) -> ClosureState {
        ClosureState {
            script_count: self.script_count as int,
            langsys_count: self.langsys_count as int,
            feature_index_count: self.feature_index_count as int,
            visited_script: self.visited_script@,
            visited_langsys: self.visited_langsys@,
            feature_indices: self.feature_indices@,
            filter: match self.feature_indices_filter {
                Some(allowed) => Some(allowed@),
                None => None,
            },
        }
    }
}

impl<'a> CollectFeaturesContext<'a> {
    /// The feature list that the query is about.
    pub closed spec fn feature_list(&self) -> FeatureList {
        *self.feature_list
    }

    /// The context of a new query.
    ///
    /// With feature tags, only the features of the list that have one of the
    /// tags are collected; the filter is made once, here.
    pub fn new(features: Option<&IntSet<Tag>>, feature_list: &'a FeatureList) -> (r: Self)
        ensures
            r.feature_list() == *feature_list,
            r@ == ClosureState::initial(
                match features {
                    Some(tags) => Some(feature_filter(*feature_list, tags@)),
                    None => None,
                },
            ),
    {
        let mut this = CollectFeaturesContext {
            script_count: 0,
            langsys_count: 0,
            feature_index_count: 0,
            visited_script: IntSet::empty(),
            visited_langsys: IntSet::empty(),
            feature_indices: IntSet::empty(),
            feature_indices_filter: None,
            feature_list,
        };
        this.compute_feature_filter(features);
        this
    }

    /// Sets the filter to the features of the list that have one of the tags;
    /// without tags the filter stays as it is.
    pub fn compute_feature_filter(&mut self, features: Option<&IntSet<Tag>>)
        ensures
            final(self).feature_list() == old(self).feature_list(),
            final(self)@ == (ClosureState {
                filter: match features {
                    Some(tags) => Some(feature_filter(old(self).feature_list(), tags@)),
                    None => old(self)@.filter,
                },
                ..old(self)@
            }),
    {
        let features: &IntSet<Tag> = match features {
            Some(f) => f,
            None => { return ; },
        };
        let list: &FeatureList = self.feature_list;
        let mut indices: IntSet<u16> = IntSet::empty();
        let n: usize = list.feature_records.len();
        let mut idx: usize = 0;
        while idx < n && idx <= 0xFFFF
            invariant
                idx <= n,
                n == list.feature_records.len(),
                forall|i: int|
                    indices@.contains(i) <==> 0 <= i < idx && i <= u16::MAX && features@.contains(
                        list.feature_records@[i].feature_tag.key(),
                    ),
            decreases n - idx,
        {
            let tag: Tag = list.feature_records[idx].feature_tag;
            if features.contains(tag) {
                indices.insert(idx as u16);
            }
            idx += 1;
        }
        assert(indices@ =~= feature_filter(*list, features@));
        self.feature_indices_filter = Some(indices);
    }

    /// Counts a script and says whether it is to be passed over: because the
    /// ceiling on scripts is exceeded, or because the script at this offset
    /// was gone into before.
    pub fn script_visited(&mut self, s: &Script) -> (r: bool)
        ensures
            (final(self)@, r) == old(self)@.script_visited(s.offset),
            final(self).feature_list() == old(self).feature_list(),
    {
        if self.script_count > MAX_SCRIPTS {
            return true;
        }
        self.script_count += 1;
        let delta: u32 = s.offset;
        if self.visited_script.contains(delta) {
            return true;
        }
        self.visited_script.insert(delta);
        false
    }

    /// Counts a language system and says whether it is to be passed over:
    /// because the ceiling on language systems is exceeded, or because the
    /// language system at this offset was gone into before.
    pub fn langsys_visited(&mut self, langsys: &LangSys) -> (r: bool)
        ensures
            (final(self)@, r) == old(self)@.langsys_visited(langsys.offset),
            final(self).feature_list() == old(self).feature_list(),
    {
        if self.langsys_count > MAX_LANGSYS {
            return true;
        }
        self.langsys_count += 1;
        let delta: u32 = langsys.offset;
        if self.visited_langsys.contains(delta) {
            return true;
        }
        self.visited_langsys.insert(delta);
        false
    }

    /// Counts `count` more feature indices and says whether the ceiling on
    /// them is exceeded.
    pub fn feature_indices_limit_exceeded(&mut self, count: u16) -> (r: bool)
        ensures
            (final(self)@, r) == old(self)@.feature_indices_limit_exceeded(count),
            final(self).feature_list() == old(self).feature_list(),
    {
        match self.feature_index_count.checked_add(count) {
            None => {
                self.feature_index_count = MAX_FEATURE_INDICES;
                true
            },
            Some(new_count) => {
                self.feature_index_count = new_count;
                new_count > MAX_FEATURE_INDICES
            },
        }
    }

    /// Takes one feature index of a language system, if the filter and the
    /// ceiling allow it.
    fn contribute(&mut self, index: u16)
        ensures
            final(self)@ == old(self)@.contribute(index),
            final(self).feature_list() == old(self).feature_list(),
    {
        let admitted: bool = match &self.feature_indices_filter {
            Some(allowed) => allowed.contains(index),
            None => true,
        };
        if admitted && !self.feature_indices_limit_exceeded(1) {
            self.feature_indices.insert(index);
        }
    }

    /// The feature indices collected so far.
    pub fn feature_indices(&self) -> (r: &IntSet<u16>)
        ensures
            r@ == self@.feature_indices,
    {
        &self.feature_indices
    }

    /// Ends the query and hands out the feature indices collected.
    pub fn into_feature_indices(self) -> (r: IntSet<u16>)
        ensures
            r@ == self@.feature_indices,
    {
        self.feature_indices
    }

    /// The tags of the features collected so far.
    pub fn feature_tags(&self) -> (r: IntSet<Tag>)
        ensures
            r@ == feature_tags(self.feature_list(), self@.feature_indices),
    {
        let list: &FeatureList = self.feature_list;
        let indices: Vec<u16> = self.feature_indices.to_vec();
        let mut out: IntSet<Tag> = IntSet::empty();
        let n: usize = indices.len();
        let mut t: usize = 0;
        while t < n
            invariant
                t <= n,
                n == indices.len(),
                forall|k: int|
                    out@.contains(k) <==> exists|p: int|
                        0 <= p < t && indices[p] < list.feature_records@.len()
                            && list.feature_records@[indices[p] as int].feature_tag.key() == k,
            decreases n - t,
        {
            let at: usize = indices[t] as usize;
            if at < list.feature_records.len() {
                out.insert(list.feature_records[at].feature_tag);
            }
            t += 1;
        }
        proof {
            let want = feature_tags(*list, self@.feature_indices);
            let ks = keys_of(indices@);
            assert forall|k: int| out@.contains(k) implies want.contains(k) by {
                let p = choose|p: int|
                    0 <= p < n && indices[p] < list.feature_records@.len()
                        && list.feature_records@[indices[p] as int].feature_tag.key() == k;
                assert(ks[p] == indices[p] as int);
                assert(elements(ks).contains(indices[p] as int));
            }
            assert forall|k: int| want.contains(k) implies out@.contains(k) by {
                let i = choose|i: int|
                    self@.feature_indices.contains(i) && 0 <= i < list.feature_records@.len()
                        && list.feature_records@[i].feature_tag.key() == k;
                let p = choose|p: int| 0 <= p < ks.len() && ks[p] == i;
                assert(indices[p] as int == i);
            }
            assert(out@ =~= want);
        }
        out
    }
}

/// The result that stands for the end of part of a traversal: the error where
/// one ended it.
pub open spec fn as_result(error: Option<ReadError>) -> Result<(), ReadError> {
    match error {
        Some(e) => Err(e),
        None => Ok(()),
    }
}

impl LangSys {
    /// Adds the features of the language system to the query, unless it is
    /// passed over.
    pub fn collect_features(&self, c: &mut CollectFeaturesContext)
        ensures
            final(c)@ == old(c)@.collect_lang_sys(*self),
            final(c).feature_list() == old(c).feature_list(),
    {
        let ghost goal = c@.collect_lang_sys(*self);
        if c.langsys_visited(self) {
            return ;
        }
        let required_feature_idx: u16 = self.required_feature_index;
        if required_feature_idx != NO_REQUIRED_FEATURE {
            c.contribute(required_feature_idx);
        }
        let n: usize = self.feature_indices.len();
        let mut i: usize = 0;
        while i < n
            invariant
                i <= n,
                n == self.feature_indices.len(),
                goal == c@.contribute_all(self.feature_indices@, i as int),
                c.feature_list() == old(c).feature_list(),
            decreases n - i,
        {
            c.contribute(self.feature_indices[i]);
            i += 1;
        }
    }
}

impl Script {
    /// Adds the features of the script's language systems to the query,
    /// unless the script is passed over.
    ///
    /// Without language tags these are the default language system and then
    /// every tagged one, in file order; with language tags, the language
    /// systems under these tags, in ascending order of tag. The first
    /// language system that could not be read ends the query with its error.
    pub fn collect_features(
        &self,
        c: &mut CollectFeaturesContext,
        languages: Option<&IntSet<Tag>>,
    ) -> (r: Result<(), ReadError>)
        ensures
            final(c)@ == old(c)@.collect_script(*self, tag_order(languages)).0,
            r == as_result(old(c)@.collect_script(*self, tag_order(languages)).1),
            final(c).feature_list() == old(c).feature_list(),
    {
        let ghost goal = c@.collect_script(*self, tag_order(languages));
        if c.script_visited(self) {
            return Ok(());
        }
        match languages {
            None => {
                match &self.default_lang_sys {
                    Some(Err(e)) => {
                        return Err(*e);
                    },
                    Some(Ok(default_lang_sys)) => {
                        default_lang_sys.collect_features(c);
                    },
                    None => {},
                }
                let n: usize = self.lang_sys_records.len();
                let mut i: usize = 0;
                while i < n
                    invariant
                        i <= n,
                        n == self.lang_sys_records.len(),
                        goal == old(c)@.collect_script(*self, tag_order(languages)),
                        goal == c@.collect_records(self.lang_sys_records@, i as int),
                        c.feature_list() == old(c).feature_list(),
                    decreases n - i,
                {
                    match &self.lang_sys_records[i].lang_sys {
                        Ok(lang_sys) => {
                            lang_sys.collect_features(c);
                        },
                        Err(e) => {
                            return Err(*e);
                        },
                    }
                    i += 1;
                }
                Ok(())
            },
            Some(wanted) => {
                let tags: Vec<Tag> = wanted.to_vec();
                let n: usize = tags.len();
                let mut i: usize = 0;
                while i < n
                    invariant
                        i <= n,
                        n == tags.len(),
                        goal == old(c)@.collect_script(*self, tag_order(languages)),
                        goal == c@.collect_tagged_records(self.lang_sys_records@, tags@, i as int),
                        c.feature_list() == old(c).feature_list(),
                    decreases n - i,
                {
                    match self.lang_sys_index_for_tag(tags[i]) {
                        None => {},
                        Some(idx) => match &self.lang_sys_records[idx].lang_sys {
                            Ok(lang_sys) => {
                                lang_sys.collect_features(c);
                            },
                            Err(e) => {
                                return Err(*e);
                            },
                        },
                    }
                    i += 1;
                }
                Ok(())
            },
        }
    }
}

impl ScriptList {
    /// Collects the features that can be reached from the scripts, and
    /// returns the tags of the features collected.
    ///
    /// Without script tags every script is gone through, in file order; with
    /// script tags, the scripts under these tags, in ascending order of tag.
    /// The language tags choose the language systems of each script in the
    /// same way. A tag that the table does not have is passed over. The first
    /// script or language system that could not be read ends the query with
    /// its error; what was collected up to then stays in the context.
    pub fn collect_features(
        &self,
        c: &mut CollectFeaturesContext,
        scripts: Option<&IntSet<Tag>>,
        languages: Option<&IntSet<Tag>>,
    ) -> (r: Result<IntSet<Tag>, ReadError>)
        ensures
            final(c)@ == old(c)@.collect_script_list(
                *self,
                tag_order(scripts),
                tag_order(languages),
            ).0,
            final(c).feature_list() == old(c).feature_list(),
            match r {
                Ok(tags) => {
                    &&& old(c)@.collect_script_list(
                        *self,
                        tag_order(scripts),
                        tag_order(languages),
                    ).1.is_none()
                    &&& tags@ == feature_tags(final(c).feature_list(), final(c)@.feature_indices)
                },
                Err(e) => old(c)@.collect_script_list(
                    *self,
                    tag_order(scripts),
                    tag_order(languages),
                ).1 == Some(e),
            },
    {
        let ghost goal = c@.collect_script_list(*self, tag_order(scripts), tag_order(languages));
        match scripts {
            None => {
                let n: usize = self.script_records.len();
                let mut i: usize = 0;
                while i < n
                    invariant
                        i <= n,
                        n == self.script_records.len(),
                        goal == old(c)@.collect_script_list(
                            *self,
                            tag_order(scripts),
                            tag_order(languages),
                        ),
                        goal == c@.collect_scripts(
                            self.script_records@,
                            tag_order(languages),
                            i as int,
                        ),
                        c.feature_list() == old(c).feature_list(),
                    decreases n - i,
                {
                    match &self.script_records[i].script {
                        Err(e) => {
                            return Err(*e);
                        },
                        Ok(script) => {
                            match script.collect_features(c, languages) {
                                Err(e) => {
                                    return Err(e);
                                },
                                Ok(_) => {},
                            }
                        },
                    }
                    i += 1;
                }
            },
            Some(wanted) => {
                let tags: Vec<Tag> = wanted.to_vec();
                let n: usize = tags.len();
                let mut i: usize = 0;
                while i < n
                    invariant
                        i <= n,
                        n == tags.len(),
                        goal == old(c)@.collect_script_list(
                            *self,
                            tag_order(scripts),
                            tag_order(languages),
                        ),
                        goal == c@.collect_tagged_scripts(
                            self.script_records@,
                            tags@,
                            tag_order(languages),
                            i as int,
                        ),
                        c.feature_list() == old(c).feature_list(),
                    decreases n - i,
                {
                    match self.index_for_tag(tags[i]) {
                        None => {},
                        Some(idx) => match &self.script_records[idx].script {
                            Err(e) => {
                                return Err(*e);
                            },
                            Ok(script) => {
                                match script.collect_features(c, languages) {
                                    Err(e) => {
                                        return Err(e);
                                    },
                                    Ok(_) => {},
                                }
                            },
                        },
                    }
                    i += 1;
                }
            },
        }
        Ok(c.feature_tags())
    }
}

} // verus!
