use font_layout::class_def::{
    iter_class_ranges, ClassDef, ClassDefBuilderImpl, ClassDefFormat1, ClassDefFormat2,
    ClassRangeRecord,
};
use font_layout::domain::GlyphId16;

fn make_impl(pairs: &[(u16, u16)]) -> ClassDefBuilderImpl {
    ClassDefBuilderImpl::from_iter(
        pairs.iter().map(|(gid, cls)| (GlyphId16::new(*gid), *cls)).collect(),
    )
}

fn class_items(start: u16, end: u16, cls: u16) -> Vec<(u16, u16)> {
    (start..=end).map(|gid| (gid, cls)).collect()
}

fn make_class(pairs: &[(u16, u16)]) -> ClassDef {
    make_impl(pairs).build()
}

#[test]
fn classdef_format() {
    let builder = make_impl(&[(3u16, 4u16), (4, 6), (5, 1), (9, 5), (10, 2), (11, 3)]);
    assert!(builder.prefer_format_1());

    let builder = make_impl(&[(1u16, 1u16), (3, 4), (9, 5), (10, 2), (11, 3)]);
    assert!(builder.prefer_format_1());
}

#[test]
fn classdef_prefer_format2() {
    // 3 ranges of 4 glyphs at 6 bytes a range should be smaller than writing
    // out the 3 * 4 classes directly
    let mut items = class_items(5, 8, 3);
    items.extend(class_items(9, 12, 4));
    items.extend(class_items(13, 16, 5));
    let builder = make_impl(&items);

    assert!(!builder.prefer_format_1());
}

#[test]
fn class_def_builder_zero() {
    // even if class 0 is provided, we don't need to assign explicit entries for it
    let class = make_class(&[(4, 0), (5, 1)]);
    assert!(class.get_raw(GlyphId16::new(4)).is_none());
    assert_eq!(class.get_raw(GlyphId16::new(5)), Some(1));
    assert!(class.get_raw(GlyphId16::new(100)).is_none());
}

// an empty classdef should always be format 2
#[test]
fn class_def_builder_empty() {
    let builder = ClassDefBuilderImpl::from_iter(vec![]);
    let built = builder.build();

    assert_eq!(built, ClassDef::Format2(ClassDefFormat2 { class_range_records: vec![] }))
}

#[test]
fn class_def_small() {
    let class = make_class(&[(1, 1), (2, 1), (3, 1)]);

    assert_eq!(
        class,
        ClassDef::Format2(ClassDefFormat2 {
            class_range_records: vec![ClassRangeRecord {
                start_glyph_id: GlyphId16::new(1),
                end_glyph_id: GlyphId16::new(3),
                class: 1
            }]
        })
    )
}

#[test]
fn classdef_f2_get() {
    fn make_f2_class(ranges: &[(u16, u16)]) -> ClassDef {
        ClassDef::Format2(ClassDefFormat2::new(
            ranges
                .iter()
                .enumerate()
                .map(|(i, range)| {
                    ClassRangeRecord::new(
                        GlyphId16::new(range.0),
                        GlyphId16::new(range.1),
                        (1 + i) as _,
                    )
                })
                .collect(),
        ))
    }

    let cls = make_f2_class(&[(1, 1), (2, 9)]);
    assert_eq!(cls.get(GlyphId16::new(2)), 2);
    assert_eq!(cls.get(GlyphId16::new(20)), 0);
}

#[test]
fn class_def_format_1_content() {
    // first glyph 3, last glyph 11: 6 + 2 * 9 = 24 bytes against 4 + 6 * 6 = 40
    let class = make_class(&[(3, 4), (4, 6), (5, 1), (9, 5), (10, 2), (11, 3)]);
    assert_eq!(
        class,
        ClassDef::Format1(ClassDefFormat1 {
            start_glyph_id: GlyphId16::new(3),
            class_value_array: vec![4, 6, 1, 0, 0, 0, 5, 2, 3],
        })
    );
    assert_eq!(class.get(GlyphId16::new(5)), 1);
    assert_eq!(class.get(GlyphId16::new(6)), 0);
    assert_eq!(class.get_raw(GlyphId16::new(6)), Some(0));
    assert_eq!(class.get_raw(GlyphId16::new(2)), None);
    assert_eq!(class.get_raw(GlyphId16::new(12)), None);
}

#[test]
fn class_def_equal_sizes_choose_format_2() {
    // one run of 2 glyphs: format 1 is 6 + 2 * 2 = 10 bytes, format 2 is 4 + 6 = 10
    let builder = make_impl(&[(7, 2), (8, 2)]);
    assert!(!builder.prefer_format_1());
    // two runs over 4 glyphs: format 1 is 6 + 2 * 4 = 14, format 2 is 4 + 12 = 16
    let builder = make_impl(&[(7, 2), (8, 2), (9, 3), (10, 3)]);
    assert!(builder.prefer_format_1());
}

#[test]
fn class_ranges_are_maximal_runs() {
    let builder = make_impl(&[(1, 1), (2, 1), (3, 2), (5, 2), (6, 2), (9, 1)]);
    let runs = iter_class_ranges(&builder);
    let plain: Vec<(u16, u16, u16)> = runs
        .iter()
        .map(|r| (r.start_glyph_id.to_u16(), r.end_glyph_id.to_u16(), r.class))
        .collect();
    assert_eq!(plain, vec![(1, 2, 1), (3, 3, 2), (5, 6, 2), (9, 9, 1)]);
}

#[test]
fn class_def_last_pair_of_a_glyph_counts() {
    let class = make_class(&[(5, 1), (5, 7), (6, 0), (5, 0)]);
    assert_eq!(class.get(GlyphId16::new(5)), 7);
    assert_eq!(class.get(GlyphId16::new(6)), 0);
}

#[test]
fn class_def_round_trip() {
    let pairs: Vec<(u16, u16)> =
        vec![(10, 3), (11, 3), (12, 3), (40, 1), (41, 2), (42, 2), (100, 9), (65535, 4)];
    let class = make_class(&pairs);
    for g in 0u16..=200 {
        let want = pairs.iter().find(|p| p.0 == g).map(|p| p.1).unwrap_or(0);
        assert_eq!(class.get(GlyphId16::new(g)), want);
    }
    assert_eq!(class.get(GlyphId16::new(65535)), 4);
    assert_eq!(class.get(GlyphId16::new(65534)), 0);
}
