use font_layout::closure::{
    CollectFeaturesContext, MAX_FEATURE_INDICES, MAX_LANGSYS, MAX_SCRIPTS,
};
use font_layout::domain::Tag;
use font_layout::int_set::IntSet;
use font_layout::layout::{
    FeatureList, FeatureRecord, LangSys, LangSysRecord, ReadError, Script, ScriptList,
    ScriptRecord,
};

fn feature_list(tags: &[&[u8; 4]]) -> FeatureList {
    FeatureList {
        feature_records: tags.iter().map(|t| FeatureRecord { feature_tag: Tag::new(t) }).collect(),
    }
}

fn numbered_features(count: usize) -> FeatureList {
    FeatureList {
        feature_records: (0..count)
            .map(|i| FeatureRecord {
                feature_tag: Tag::new(&[b'f', b'0' + (i / 100) as u8, b'0' + (i / 10 % 10) as u8, b'0' + (i % 10) as u8]),
            })
            .collect(),
    }
}

fn lang_sys(offset: u32, required: u16, features: &[u16]) -> LangSys {
    LangSys { offset, required_feature_index: required, feature_indices: features.to_vec() }
}

fn tagged(tag: &[u8; 4], lang_sys: LangSys) -> LangSysRecord {
    LangSysRecord { lang_sys_tag: Tag::new(tag), lang_sys: Ok(lang_sys) }
}

fn script_record(tag: &[u8; 4], script: Script) -> ScriptRecord {
    ScriptRecord { script_tag: Tag::new(tag), script: Ok(script) }
}

fn tags(of: &[&[u8; 4]]) -> IntSet<Tag> {
    IntSet::from_vec(of.iter().map(|t| Tag::new(t)).collect())
}

fn indices(c: &CollectFeaturesContext) -> Vec<u16> {
    c.feature_indices().to_vec()
}

#[test]
fn default_lang_sys_of_one_script() {
    let features = numbered_features(8);
    let scripts = ScriptList {
        script_records: vec![
            script_record(
                b"cyrl",
                Script {
                    offset: 10,
                    default_lang_sys: Some(Ok(lang_sys(20, 0xFFFF, &[1, 2]))),
                    lang_sys_records: vec![],
                },
            ),
            script_record(
                b"latn",
                Script {
                    offset: 100,
                    default_lang_sys: Some(Ok(lang_sys(120, 3, &[3, 5, 7]))),
                    lang_sys_records: vec![],
                },
            ),
        ],
    };
    let mut c = CollectFeaturesContext::new(None, &features);
    let wanted = tags(&[b"latn"]);
    let out = scripts.collect_features(&mut c, Some(&wanted), None).unwrap();
    assert_eq!(indices(&c), vec![3, 5, 7]);
    assert_eq!(
        out.to_vec(),
        vec![Tag::new(b"f003"), Tag::new(b"f005"), Tag::new(b"f007")]
    );
}

#[test]
fn all_scripts_and_all_languages() {
    let features = numbered_features(10);
    let scripts = ScriptList {
        script_records: vec![
            script_record(
                b"cyrl",
                Script {
                    offset: 10,
                    default_lang_sys: Some(Ok(lang_sys(20, 0xFFFF, &[1, 2]))),
                    lang_sys_records: vec![tagged(b"SRB ", lang_sys(30, 9, &[2]))],
                },
            ),
            script_record(
                b"latn",
                Script {
                    offset: 100,
                    default_lang_sys: None,
                    lang_sys_records: vec![
                        tagged(b"DEU ", lang_sys(130, 0xFFFF, &[4])),
                        tagged(b"TRK ", lang_sys(140, 0xFFFF, &[6, 4])),
                    ],
                },
            ),
        ],
    };
    let mut c = CollectFeaturesContext::new(None, &features);
    scripts.collect_features(&mut c, None, None).unwrap();
    assert_eq!(indices(&c), vec![1, 2, 4, 6, 9]);
    assert_eq!(c.into_feature_indices().to_vec(), vec![1, 2, 4, 6, 9]);
}

#[test]
fn language_tags_choose_the_tagged_language_systems() {
    let features = numbered_features(10);
    let scripts = ScriptList {
        script_records: vec![script_record(
            b"latn",
            Script {
                offset: 100,
                default_lang_sys: Some(Ok(lang_sys(120, 0xFFFF, &[0]))),
                lang_sys_records: vec![
                    tagged(b"DEU ", lang_sys(130, 0xFFFF, &[4])),
                    tagged(b"TRK ", lang_sys(140, 0xFFFF, &[6])),
                ],
            },
        )],
    };
    let mut c = CollectFeaturesContext::new(None, &features);
    let languages = tags(&[b"TRK ", b"ZZZ "]);
    scripts.collect_features(&mut c, None, Some(&languages)).unwrap();
    assert_eq!(indices(&c), vec![6]);
}

#[test]
fn unknown_tags_are_passed_over() {
    let features = numbered_features(4);
    let scripts = ScriptList {
        script_records: vec![script_record(
            b"latn",
            Script {
                offset: 100,
                default_lang_sys: Some(Ok(lang_sys(120, 0xFFFF, &[1]))),
                lang_sys_records: vec![],
            },
        )],
    };
    let mut c = CollectFeaturesContext::new(None, &features);
    let wanted = tags(&[b"grek", b"arab"]);
    let out = scripts.collect_features(&mut c, Some(&wanted), None).unwrap();
    assert!(indices(&c).is_empty());
    assert!(out.is_empty());
}

#[test]
fn feature_tags_restrict_what_is_collected() {
    let features = feature_list(&[b"kern", b"liga", b"liga", b"mark", b"smcp"]);
    let scripts = ScriptList {
        script_records: vec![script_record(
            b"latn",
            Script {
                offset: 100,
                default_lang_sys: Some(Ok(lang_sys(120, 0, &[1, 3, 2, 9]))),
                lang_sys_records: vec![tagged(b"DEU ", lang_sys(130, 4, &[0]))],
            },
        )],
    };
    let wanted = tags(&[b"liga", b"smcp", b"zzzz"]);
    let mut c = CollectFeaturesContext::new(Some(&wanted), &features);
    let out = scripts.collect_features(&mut c, None, None).unwrap();
    assert_eq!(indices(&c), vec![1, 2, 4]);
    assert_eq!(out.to_vec(), vec![Tag::new(b"liga"), Tag::new(b"smcp")]);
}

#[test]
fn aliased_lang_sys_contributes_once() {
    let features = numbered_features(10);
    // two records under different tags, at one offset
    let script = Script {
        offset: 100,
        default_lang_sys: None,
        lang_sys_records: vec![
            tagged(b"AAA ", lang_sys(500, 1, &[2, 3])),
            tagged(b"BBB ", lang_sys(500, 1, &[2, 3])),
        ],
    };
    let mut c = CollectFeaturesContext::new(None, &features);
    script.collect_features(&mut c, None).unwrap();
    assert_eq!(indices(&c), vec![1, 2, 3]);
    // three indices were asked for, not six: the next 1497 still fit
    assert!(!c.feature_indices_limit_exceeded(MAX_FEATURE_INDICES - 3));
    assert!(c.feature_indices_limit_exceeded(1));
}

#[test]
fn aliased_script_is_gone_into_once() {
    let features = numbered_features(10);
    let make = || Script {
        offset: 64,
        default_lang_sys: Some(Ok(lang_sys(80, 0xFFFF, &[5]))),
        lang_sys_records: vec![],
    };
    let mut c = CollectFeaturesContext::new(None, &features);
    assert!(!c.script_visited(&make()));
    assert!(c.script_visited(&make()));
    let scripts = ScriptList {
        script_records: vec![script_record(b"aaaa", make()), script_record(b"bbbb", make())],
    };
    scripts.collect_features(&mut c, None, None).unwrap();
    assert!(indices(&c).is_empty());
}

#[test]
fn far_too_many_scripts() {
    let features = numbered_features(1);
    let count: u32 = 3000;
    let scripts = ScriptList {
        script_records: (0..count)
            .map(|i| {
                script_record(
                    b"many",
                    Script {
                        offset: 8 * i,
                        default_lang_sys: Some(Ok(lang_sys(100_000 + 8 * i, 0xFFFF, &[i as u16]))),
                        lang_sys_records: vec![],
                    },
                )
            })
            .collect(),
    };
    let mut c = CollectFeaturesContext::new(None, &features);
    let out = scripts.collect_features(&mut c, None, None).unwrap();
    // the scripts counted 0 to 500 are gone into
    let want: Vec<u16> = (0..=MAX_SCRIPTS).collect();
    assert_eq!(indices(&c), want);
    assert_eq!(out.to_vec(), vec![Tag::new(b"f000")]);
}

#[test]
fn far_too_many_language_systems() {
    let features = numbered_features(1);
    let count: u32 = 5000;
    let script = Script {
        offset: 0,
        default_lang_sys: None,
        lang_sys_records: (0..count)
            .map(|i| tagged(b"many", lang_sys(16 + 8 * i, 0xFFFF, &[i as u16])))
            .collect(),
    };
    let mut c = CollectFeaturesContext::new(None, &features);
    script.collect_features(&mut c, None).unwrap();
    // 2001 language systems are gone into, and the first 1500 feature
    // indices are taken
    let want: Vec<u16> = (0..MAX_FEATURE_INDICES).collect();
    assert_eq!(indices(&c), want);
    assert!(c.langsys_visited(&lang_sys(1, 0xFFFF, &[])));
    assert!(MAX_LANGSYS > MAX_FEATURE_INDICES);
}

#[test]
fn script_ceiling() {
    let features = numbered_features(1);
    let mut c = CollectFeaturesContext::new(None, &features);
    let script_at = |offset: u32| Script { offset, default_lang_sys: None, lang_sys_records: vec![] };
    for i in 0..=(MAX_SCRIPTS as u32) {
        assert!(!c.script_visited(&script_at(i)));
    }
    // beyond the ceiling every script is passed over, new or not
    assert!(c.script_visited(&script_at(70_000)));
    assert!(c.script_visited(&script_at(70_001)));
}

#[test]
fn lang_sys_ceiling() {
    let features = numbered_features(1);
    let mut c = CollectFeaturesContext::new(None, &features);
    for i in 0..=(MAX_LANGSYS as u32) {
        assert!(!c.langsys_visited(&lang_sys(i, 0xFFFF, &[])));
    }
    assert!(c.langsys_visited(&lang_sys(70_000, 0xFFFF, &[])));
}

#[test]
fn feature_index_ceiling_and_overflow() {
    let features = numbered_features(1);
    let mut c = CollectFeaturesContext::new(None, &features);
    assert!(!c.feature_indices_limit_exceeded(1500));
    assert!(c.feature_indices_limit_exceeded(1));
    // 1501 + 64000 is within 16 bits, and beyond the ceiling
    assert!(c.feature_indices_limit_exceeded(64000));
    // 65501 + 100 is not: the count is set to the ceiling
    assert!(c.feature_indices_limit_exceeded(100));
    assert!(!c.feature_indices_limit_exceeded(0));
    assert!(c.feature_indices_limit_exceeded(1));
}

#[test]
fn unreadable_script_ends_the_query() {
    let features = numbered_features(10);
    let scripts = ScriptList {
        script_records: vec![
            script_record(
                b"aaaa",
                Script {
                    offset: 10,
                    default_lang_sys: Some(Ok(lang_sys(20, 1, &[2]))),
                    lang_sys_records: vec![],
                },
            ),
            ScriptRecord { script_tag: Tag::new(b"bbbb"), script: Err(ReadError::OutOfBounds) },
            script_record(
                b"cccc",
                Script {
                    offset: 30,
                    default_lang_sys: Some(Ok(lang_sys(40, 0xFFFF, &[3]))),
                    lang_sys_records: vec![],
                },
            ),
        ],
    };
    let mut c = CollectFeaturesContext::new(None, &features);
    let out = scripts.collect_features(&mut c, None, None);
    assert_eq!(out.unwrap_err(), ReadError::OutOfBounds);
    // what was collected before the error is still there
    assert_eq!(indices(&c), vec![1, 2]);
}

#[test]
fn unreadable_lang_sys_ends_the_query() {
    let features = numbered_features(10);
    let script = Script {
        offset: 10,
        default_lang_sys: Some(Err(ReadError::NullOffset)),
        lang_sys_records: vec![tagged(b"AAA ", lang_sys(20, 0xFFFF, &[1]))],
    };
    let mut c = CollectFeaturesContext::new(None, &features);
    assert_eq!(script.collect_features(&mut c, None), Err(ReadError::NullOffset));
    assert!(indices(&c).is_empty());

    let script = Script {
        offset: 11,
        default_lang_sys: None,
        lang_sys_records: vec![
            tagged(b"AAA ", lang_sys(20, 0xFFFF, &[1])),
            LangSysRecord { lang_sys_tag: Tag::new(b"BBB "), lang_sys: Err(ReadError::MalformedData) },
            tagged(b"CCC ", lang_sys(30, 0xFFFF, &[2])),
        ],
    };
    assert_eq!(script.collect_features(&mut c, None), Err(ReadError::MalformedData));
    assert_eq!(indices(&c), vec![1]);
    // with a language tag the unreadable record is not looked at
    let script = Script { offset: 12, ..script };
    let languages = tags(&[b"CCC "]);
    assert_eq!(script.collect_features(&mut c, Some(&languages)), Ok(()));
    assert_eq!(indices(&c), vec![1, 2]);
}

#[test]
fn first_record_of_a_tag_is_found() {
    let scripts = ScriptList {
        script_records: vec![
            script_record(b"aaaa", Script { offset: 1, default_lang_sys: None, lang_sys_records: vec![] }),
            script_record(b"bbbb", Script { offset: 2, default_lang_sys: None, lang_sys_records: vec![] }),
            script_record(b"bbbb", Script { offset: 3, default_lang_sys: None, lang_sys_records: vec![] }),
        ],
    };
    assert_eq!(scripts.index_for_tag(Tag::new(b"bbbb")), Some(1));
    assert_eq!(scripts.index_for_tag(Tag::new(b"cccc")), None);
    let script = Script {
        offset: 1,
        default_lang_sys: None,
        lang_sys_records: vec![tagged(b"AAA ", lang_sys(20, 0xFFFF, &[1]))],
    };
    assert_eq!(script.lang_sys_index_for_tag(Tag::new(b"AAA ")), Some(0));
    assert_eq!(script.lang_sys_index_for_tag(Tag::new(b"AAAA")), None);
}

#[test]
fn filter_is_made_from_the_feature_list() {
    let features = feature_list(&[b"kern", b"liga", b"kern"]);
    let mut c = CollectFeaturesContext::new(None, &features);
    lang_sys(1, 0xFFFF, &[0, 1, 2]).collect_features(&mut c);
    assert_eq!(indices(&c), vec![0, 1, 2]);

    let wanted = tags(&[b"kern"]);
    let mut c = CollectFeaturesContext::new(None, &features);
    c.compute_feature_filter(Some(&wanted));
    lang_sys(1, 0xFFFF, &[0, 1, 2]).collect_features(&mut c);
    assert_eq!(indices(&c), vec![0, 2]);
    assert_eq!(c.feature_tags().to_vec(), vec![Tag::new(b"kern")]);
    // without tags the filter stays
    c.compute_feature_filter(None);
    lang_sys(2, 1, &[]).collect_features(&mut c);
    assert_eq!(indices(&c), vec![0, 2]);
}
