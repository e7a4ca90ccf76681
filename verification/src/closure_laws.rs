//! What holds of every traversal: it only adds to what was collected, it stays
//! within its ceilings, and what lies at one offset is gone into once.

use vstd::prelude::*;
use crate::closure::{ClosureState, MAX_FEATURE_INDICES, MAX_LANGSYS, MAX_SCRIPTS};
use crate::domain::Tag;
use crate::layout::{
    lang_sys_tags, script_tags, tag_index_from, LangSys, LangSysRecord, Script, ScriptList,
    ScriptRecord,
};

verus! {

/// The smaller of two integers.
pub open spec fn min_int(a: int, b: int) -> int {
    if a <= b {
        a
    } else {
        b
    }
}

impl ClosureState {
    /// Whether `later` can follow on this state: the counts of scripts and of
    /// language systems are no smaller, the count of feature indices is no
    /// further from its ceiling, nothing seen or collected is lost, the filter
    /// is the same, and what was collected since passed the filter.
    pub open spec fn grows_to(self, later: ClosureState) -> bool {
        &&& self.script_count <= later.script_count
        &&& self.langsys_count <= later.langsys_count
        &&& min_int(self.feature_index_count, MAX_FEATURE_INDICES as int) <= min_int(
            later.feature_index_count,
            MAX_FEATURE_INDICES as int,
        )
        &&& self.visited_script.subset_of(later.visited_script)
        &&& self.visited_langsys.subset_of(later.visited_langsys)
        &&& self.feature_indices.subset_of(later.feature_indices)
        &&& self.filter == later.filter
        &&& forall|i: int|
            later.feature_indices.contains(i) && !self.feature_indices.contains(i) ==> 0 <= i
                <= u16::MAX && self.admits(i as u16)
    }

    /// Whether the state is within the ceilings: no more scripts and language
    /// systems gone into than were counted, no more counted than one beyond
    /// the ceiling, and no more feature indices collected than were asked for
    /// up to the ceiling.
    pub open spec fn within_ceilings(self) -> bool {
        &&& 0 <= self.script_count <= MAX_SCRIPTS + 1
        &&& 0 <= self.langsys_count <= MAX_LANGSYS + 1
        &&& 0 <= self.feature_index_count <= u16::MAX
        &&& self.visited_script.finite()
        &&& self.visited_langsys.finite()
        &&& self.feature_indices.finite()
        &&& self.visited_script.len() <= self.script_count
        &&& self.visited_langsys.len() <= self.langsys_count
        &&& self.feature_indices.len() <= min_int(
            self.feature_index_count,
            MAX_FEATURE_INDICES as int,
        )
    }
}

/// A new query is within the ceilings.
pub proof fn lemma_initial_within_ceilings(filter: Option<Set<int>>)
    ensures
        ClosureState::initial(filter).within_ceilings(),
        ClosureState::initial(filter).feature_indices == Set::<int>::empty(),
{
}

/// What follows on what follows on a state follows on the state.
pub proof fn lemma_grows_to_transitive(a: ClosureState, b: ClosureState, c: ClosureState)
    requires
        a.grows_to(b),
        b.grows_to(c),
    ensures
        a.grows_to(c),
{
    assert forall|i: int|
        c.feature_indices.contains(i) && !a.feature_indices.contains(i) implies 0 <= i <= u16::MAX
        && a.admits(i as u16) by {
        if b.feature_indices.contains(i) {
        } else {
            assert(b.admits(i as u16));
        }
    }
}

/// Counting a script keeps a state within the ceilings and loses nothing.
pub proof fn lemma_script_visited(s: ClosureState, offset: u32)
    ensures
        s.grows_to(s.script_visited(offset).0),
        s.within_ceilings() ==> s.script_visited(offset).0.within_ceilings(),
{
}

/// Counting a language system keeps a state within the ceilings and loses
/// nothing.
pub proof fn lemma_langsys_visited(s: ClosureState, offset: u32)
    ensures
        s.grows_to(s.langsys_visited(offset).0),
        s.within_ceilings() ==> s.langsys_visited(offset).0.within_ceilings(),
{
}

/// Taking a feature index keeps a state within the ceilings and loses nothing.
pub proof fn lemma_contribute(s: ClosureState, index: u16)
    ensures
        s.grows_to(s.contribute(index)),
        s.within_ceilings() ==> s.contribute(index).within_ceilings(),
{
}

/// Taking the feature indices of a list keeps a state within the ceilings and
/// loses nothing.
pub proof fn lemma_contribute_all(s: ClosureState, indices: Seq<u16>, from: int)
    ensures
        s.grows_to(s.contribute_all(indices, from)),
        s.within_ceilings() ==> s.contribute_all(indices, from).within_ceilings(),
    decreases indices.len() - from,
{
    if 0 <= from < indices.len() {
        let next = s.contribute(indices[from]);
        lemma_contribute(s, indices[from]);
        lemma_contribute_all(next, indices, from + 1);
        lemma_grows_to_transitive(s, next, next.contribute_all(indices, from + 1));
    }
}

/// Going through a language system keeps a state within the ceilings and
/// loses nothing.
pub proof fn lemma_collect_lang_sys(s: ClosureState, lang_sys: LangSys)
    ensures
        s.grows_to(s.collect_lang_sys(lang_sys)),
        s.within_ceilings() ==> s.collect_lang_sys(lang_sys).within_ceilings(),
{
    let (looked, visited) = s.langsys_visited(lang_sys.offset);
    lemma_langsys_visited(s, lang_sys.offset);
    if !visited {
        let required = looked.contribute(lang_sys.required_feature_index);
        lemma_contribute(looked, lang_sys.required_feature_index);
        lemma_contribute_all(looked, lang_sys.feature_indices@, 0);
        lemma_contribute_all(required, lang_sys.feature_indices@, 0);
        lemma_grows_to_transitive(
            looked,
            required,
            required.contribute_all(lang_sys.feature_indices@, 0),
        );
        lemma_grows_to_transitive(s, looked, s.collect_lang_sys(lang_sys));
    }
}

/// Going through language-system records keeps a state within the ceilings
/// and loses nothing, whether or not an error ends it.
pub proof fn lemma_collect_records(s: ClosureState, records: Seq<LangSysRecord>, from: int)
    ensures
        s.grows_to(s.collect_records(records, from).0),
        s.within_ceilings() ==> s.collect_records(records, from).0.within_ceilings(),
    decreases records.len() - from,
{
    if 0 <= from < records.len() {
        match records[from].lang_sys {
            Ok(lang_sys) => {
                let next = s.collect_lang_sys(lang_sys);
                lemma_collect_lang_sys(s, lang_sys);
                lemma_collect_records(next, records, from + 1);
                lemma_grows_to_transitive(s, next, next.collect_records(records, from + 1).0);
            },
            Err(_) => {},
        }
    }
}

/// Going through the language systems under given tags keeps a state within
/// the ceilings and loses nothing, whether or not an error ends it.
pub proof fn lemma_collect_tagged_records(
    s: ClosureState,
    records: Seq<LangSysRecord>,
    tags: Seq<Tag>,
    from: int,
)
    ensures
        s.grows_to(s.collect_tagged_records(records, tags, from).0),
        s.within_ceilings() ==> s.collect_tagged_records(records, tags, from).0.within_ceilings(),
    decreases tags.len() - from,
{
    if 0 <= from < tags.len() {
        match tag_index_from(lang_sys_tags(records), tags[from], 0) {
            None => {
                lemma_collect_tagged_records(s, records, tags, from + 1);
            },
            Some(i) => match records[i].lang_sys {
                Ok(lang_sys) => {
                    let next = s.collect_lang_sys(lang_sys);
                    lemma_collect_lang_sys(s, lang_sys);
                    lemma_collect_tagged_records(next, records, tags, from + 1);
                    lemma_grows_to_transitive(
                        s,
                        next,
                        next.collect_tagged_records(records, tags, from + 1).0,
                    );
                },
                Err(_) => {},
            },
        }
    }
}

/// Going through a script keeps a state within the ceilings and loses
/// nothing, whether or not an error ends it.
pub proof fn lemma_collect_script(s: ClosureState, script: Script, languages: Option<Seq<Tag>>)
    ensures
        s.grows_to(s.collect_script(script, languages).0),
        s.within_ceilings() ==> s.collect_script(script, languages).0.within_ceilings(),
{
    let (looked, visited) = s.script_visited(script.offset);
    lemma_script_visited(s, script.offset);
    if !visited {
        match languages {
            None => match script.default_lang_sys {
                Some(Err(_)) => {},
                Some(Ok(lang_sys)) => {
                    let next = looked.collect_lang_sys(lang_sys);
                    lemma_collect_lang_sys(looked, lang_sys);
                    lemma_collect_records(next, script.lang_sys_records@, 0);
                    lemma_grows_to_transitive(
                        looked,
                        next,
                        next.collect_records(script.lang_sys_records@, 0).0,
                    );
                },
                None => {
                    lemma_collect_records(looked, script.lang_sys_records@, 0);
                },
            },
            Some(tags) => {
                lemma_collect_tagged_records(looked, script.lang_sys_records@, tags, 0);
            },
        }
        lemma_grows_to_transitive(s, looked, s.collect_script(script, languages).0);
    }
}

/// Going through script records keeps a state within the ceilings and loses
/// nothing, whether or not an error ends it.
pub proof fn lemma_collect_scripts(
    s: ClosureState,
    records: Seq<ScriptRecord>,
    languages: Option<Seq<Tag>>,
    from: int,
)
    ensures
        s.grows_to(s.collect_scripts(records, languages, from).0),
        s.within_ceilings() ==> s.collect_scripts(records, languages, from).0.within_ceilings(),
    decreases records.len() - from,
{
    if 0 <= from < records.len() {
        match records[from].script {
            Err(_) => {},
            Ok(script) => {
                let (after, error) = s.collect_script(script, languages);
                lemma_collect_script(s, script, languages);
                if error.is_none() {
                    lemma_collect_scripts(after, records, languages, from + 1);
                    lemma_grows_to_transitive(
                        s,
                        after,
                        after.collect_scripts(records, languages, from + 1).0,
                    );
                }
            },
        }
    }
}

/// Going through the scripts under given tags keeps a state within the
/// ceilings and loses nothing, whether or not an error ends it.
pub proof fn lemma_collect_tagged_scripts(
    s: ClosureState,
    records: Seq<ScriptRecord>,
    tags: Seq<Tag>,
    languages: Option<Seq<Tag>>,
    from: int,
)
    ensures
        s.grows_to(s.collect_tagged_scripts(records, tags, languages, from).0),
        s.within_ceilings() ==> s.collect_tagged_scripts(
            records,
            tags,
            languages,
            from,
        ).0.within_ceilings(),
    decreases tags.len() - from,
{
    if 0 <= from < tags.len() {
        match tag_index_from(script_tags(records), tags[from], 0) {
            None => {
                lemma_collect_tagged_scripts(s, records, tags, languages, from + 1);
            },
            Some(i) => match records[i].script {
                Err(_) => {},
                Ok(script) => {
                    let (after, error) = s.collect_script(script, languages);
                    lemma_collect_script(s, script, languages);
                    if error.is_none() {
                        lemma_collect_tagged_scripts(after, records, tags, languages, from + 1);
                        lemma_grows_to_transitive(
                            s,
                            after,
                            after.collect_tagged_scripts(records, tags, languages, from + 1).0,
                        );
                    }
                },
            },
        }
    }
}

/// A whole query, however many records the table has and whether or not an
/// error ends it, loses nothing of what was collected before and stays within
/// the ceilings: from a new context it goes into no more than 501 scripts and
/// 2001 language systems and collects no more than 1500 feature indices.
pub proof fn lemma_query_is_bounded(
    s: ClosureState,
    scripts: ScriptList,
    script_tags: Option<Seq<Tag>>,
    languages: Option<Seq<Tag>>,
)
    ensures
        s.grows_to(s.collect_script_list(scripts, script_tags, languages).0),
        s.within_ceilings() ==> {
            let after = s.collect_script_list(scripts, script_tags, languages).0;
            &&& after.within_ceilings()
            &&& after.visited_script.len() <= MAX_SCRIPTS + 1
            &&& after.visited_langsys.len() <= MAX_LANGSYS + 1
            &&& after.feature_indices.len() <= MAX_FEATURE_INDICES
        },
{
    match script_tags {
        None => lemma_collect_scripts(s, scripts.script_records@, languages, 0),
        Some(tags) => lemma_collect_tagged_scripts(s, scripts.script_records@, tags, languages, 0),
    }
}

/// After a language system was gone through, its offset is remembered, or the
/// ceiling on language systems is exceeded.
pub proof fn lemma_lang_sys_is_remembered(s: ClosureState, lang_sys: LangSys)
    ensures
        s.collect_lang_sys(lang_sys).visited_langsys.contains(lang_sys.offset as int)
            || s.collect_lang_sys(lang_sys).langsys_count > MAX_LANGSYS,
{
    let looked = s.langsys_visited(lang_sys.offset).0;
    lemma_collect_lang_sys(s, lang_sys);
    if s.langsys_count <= MAX_LANGSYS {
        assert(looked.visited_langsys.contains(lang_sys.offset as int));
        if !s.langsys_visited(lang_sys.offset).1 {
            let required = looked.contribute(lang_sys.required_feature_index);
            lemma_contribute(looked, lang_sys.required_feature_index);
            lemma_contribute_all(looked, lang_sys.feature_indices@, 0);
            lemma_contribute_all(required, lang_sys.feature_indices@, 0);
        }
    }
}

/// A language system at an offset that is remembered, or one beyond the
/// ceiling, adds no feature.
pub proof fn lemma_seen_lang_sys_adds_nothing(s: ClosureState, lang_sys: LangSys)
    requires
        s.visited_langsys.contains(lang_sys.offset as int) || s.langsys_count > MAX_LANGSYS,
    ensures
        s.collect_lang_sys(lang_sys).feature_indices == s.feature_indices,
        s.collect_lang_sys(lang_sys).feature_index_count == s.feature_index_count,
{
}

/// Of two language systems at one offset, reached under whatever tags and
/// with whatever gone through between them, the second adds no feature: a
/// language system contributes once.
pub proof fn lemma_alias_contributes_once(
    s: ClosureState,
    first: LangSys,
    between: ClosureState,
    second: LangSys,
)
    requires
        first.offset == second.offset,
        s.collect_lang_sys(first).grows_to(between),
    ensures
        between.collect_lang_sys(second).feature_indices == between.feature_indices,
{
    lemma_lang_sys_is_remembered(s, first);
    lemma_seen_lang_sys_adds_nothing(between, second);
}

/// A script at an offset that is remembered, or one beyond the ceiling, is
/// passed over: nothing but the count of scripts changes, and no error comes
/// of it.
pub proof fn lemma_seen_script_is_passed_over(
    s: ClosureState,
    script: Script,
    languages: Option<Seq<Tag>>,
)
    requires
        s.visited_script.contains(script.offset as int) || s.script_count > MAX_SCRIPTS,
    ensures
        s.collect_script(script, languages).1.is_none(),
        s.collect_script(script, languages).0 == (ClosureState {
            script_count: s.collect_script(script, languages).0.script_count,
            ..s
        }),
{
}

/// Once the feature indices asked for have reached the ceiling, no feature
/// index is collected any more.
pub proof fn lemma_nothing_beyond_ceiling(s: ClosureState, index: u16)
    requires
        s.feature_index_count >= MAX_FEATURE_INDICES,
    ensures
        s.contribute(index).feature_indices == s.feature_indices,
        s.contribute(index).feature_index_count >= MAX_FEATURE_INDICES,
{
}

} // verus!
