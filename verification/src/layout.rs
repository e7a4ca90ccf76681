//! The script, language-system and feature lists of a layout table, as far as
//! a traversal reads them.
//!
//! Each list is held as resolved records. Where the table's bytes could not be
//! resolved to a record, the record holds the error in its place.

use vstd::prelude::*;
use crate::domain::Tag;

verus! {

/// Why a part of a table could not be read.
#[derive(Copy, Clone, Debug, PartialEq, Eq, Structural)]
pub enum ReadError {
    /// An offset points outside the table.
    OutOfBounds,
    /// An offset that must point somewhere is null.
    NullOffset,
    /// The bytes at an offset are not what the table's format asks for.
    MalformedData,
}

/// A feature of the feature list, known by its tag.
#[derive(Copy, Clone, Debug, PartialEq, Eq, Structural)]
pub struct FeatureRecord {
    pub feature_tag: Tag,
}

/// The features of a table; a feature's index is its place in the list.
#[derive(Clone, Debug, PartialEq, Eq)]
pub struct FeatureList {
    pub feature_records: Vec<FeatureRecord>,
}

/// A language system: the features that apply to one language of a script.
#[derive(Clone, Debug, PartialEq, Eq)]
pub struct LangSys {
    /// Where the language system's bytes lie, counted from the table's origin.
    pub offset: u32,
    /// The index of the feature that must be applied, or `0xFFFF` for none.
    pub required_feature_index: u16,
    /// The indices of the other features.
    pub feature_indices: Vec<u16>,
}

/// A language system of a script, under its tag.
#[derive(Debug, PartialEq, Eq)]
pub struct LangSysRecord {
    pub lang_sys_tag: Tag,
    pub lang_sys: Result<LangSys, ReadError>,
}

/// A script: a default language system, if it has one, and tagged ones.
#[derive(Debug, PartialEq, Eq)]
pub struct Script {
    /// Where the script's bytes lie, counted from the table's origin.
    pub offset: u32,
    pub default_lang_sys: Option<Result<LangSys, ReadError>>,
    pub lang_sys_records: Vec<LangSysRecord>,
}

/// A script of a table, under its tag.
#[derive(Debug, PartialEq, Eq)]
pub struct ScriptRecord {
    pub script_tag: Tag,
    pub script: Result<Script, ReadError>,
}

/// The scripts of a table, in file order.
#[derive(Debug, PartialEq, Eq)]
pub struct ScriptList {
    pub script_records: Vec<ScriptRecord>,
}

/// The index of the first of the tags, from index `from` on, that is `tag`.
pub open spec fn tag_index_from(tags: Seq<Tag>, tag: Tag, from: int) -> Option<int>
    decreases tags.len() - from,
{
    if from < 0 || from >= tags.len() {
        None
    } else if tags[from] == tag {
        Some(from)
    } else {
        tag_index_from(tags, tag, from + 1)
    }
}

/// The tags of language-system records, in the same order.
pub open spec fn lang_sys_tags(records: Seq<LangSysRecord>) -> Seq<Tag> {
    Seq::new(records.len(), |i: int| records[i].lang_sys_tag)
}

/// The tags of script records, in the same order.
pub open spec fn script_tags(records: Seq<ScriptRecord>) -> Seq<Tag> {
    Seq::new(records.len(), |i: int| records[i].script_tag)
}

impl Script {
    /// The index of the first language system with the tag.
    pub fn lang_sys_index_for_tag(&self, tag: Tag) -> (r: Option<usize>)
        ensures
            match r {
                Some(i) => tag_index_from(lang_sys_tags(self.lang_sys_records@), tag, 0) == Some(
                    i as int,
                ) && i < self.lang_sys_records.len(),
                None => tag_index_from(lang_sys_tags(self.lang_sys_records@), tag, 0).is_none(),
            },
    {
        let n: usize = self.lang_sys_records.len();
        let ghost tags = lang_sys_tags(self.lang_sys_records@);
        let mut i: usize = 0;
        while i < n
            invariant
                i <= n,
                n == self.lang_sys_records.len(),
                tags == lang_sys_tags(self.lang_sys_records@),
                tag_index_from(tags, tag, 0) == tag_index_from(tags, tag, i as int),
            decreases n - i,
        {
            assert(tags[i as int] == self.lang_sys_records[i as int].lang_sys_tag);
            if self.lang_sys_records[i].lang_sys_tag == tag {
                return Some(i);
            }
            i += 1;
        }
        None
    }
}

impl ScriptList {
    /// The index of the first script with the tag.
    pub fn index_for_tag(&self, tag: Tag) -> (r: Option<usize>)
        ensures
            match r {
                Some(i) => tag_index_from(script_tags(self.script_records@), tag, 0) == Some(
                    i as int,
                ) && i < self.script_records.len(),
                None => tag_index_from(script_tags(self.script_records@), tag, 0).is_none(),
            },
    {
        let n: usize = self.script_records.len();
        let ghost tags = script_tags(self.script_records@);
        let mut i: usize = 0;
        while i < n
            invariant
                i <= n,
                n == self.script_records.len(),
                tags == script_tags(self.script_records@),
                tag_index_from(tags, tag, 0) == tag_index_from(tags, tag, i as int),
            decreases n - i,
        {
            assert(tags[i as int] == self.script_records[i as int].script_tag);
            if self.script_records[i].script_tag == tag {
                return Some(i);
            }
            i += 1;
        }
        None
    }
}

} // verus!
