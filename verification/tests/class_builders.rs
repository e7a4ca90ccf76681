use font_layout::class_builder::ClassDefBuilder;
use font_layout::class_def::{ClassDef, ClassDefFormat2};
use font_layout::domain::GlyphId16;
use font_layout::int_set::IntSet;

fn make_glyph_class(glyphs: &[u16]) -> IntSet<GlyphId16> {
    IntSet::from_vec(glyphs.iter().map(|g| GlyphId16::new(*g)).collect())
}

fn ids(set: &IntSet<GlyphId16>) -> Vec<u16> {
    set.to_vec().iter().map(|g| g.to_u16()).collect()
}

#[test]
fn smoke_test_class_builder() {
    let mut builder = ClassDefBuilder::new();
    builder.checked_add(make_glyph_class(&[6, 10]));
    let cls = builder.build();
    assert_eq!(cls.get(GlyphId16::new(6)), 1);

    let mut builder = ClassDefBuilder::new_using_class_0();
    builder.checked_add(make_glyph_class(&[6, 10]));
    let cls = builder.build();
    assert_eq!(cls.get(GlyphId16::new(6)), 0);
    assert_eq!(cls.get(GlyphId16::new(10)), 0);
}

#[test]
fn classdef_assign_order() {
    // - longer classes before short ones
    // - if tied, lowest glyph id first

    let mut builder = ClassDefBuilder::default();
    builder.checked_add(make_glyph_class(&[7, 8, 9]));
    builder.checked_add(make_glyph_class(&[1, 12]));
    builder.checked_add(make_glyph_class(&[3, 4]));
    let cls = builder.build();
    assert_eq!(cls.get(GlyphId16::new(9)), 1);
    assert_eq!(cls.get(GlyphId16::new(1)), 2);
    assert_eq!(cls.get(GlyphId16::new(4)), 3);
    // notdef
    assert_eq!(cls.get(GlyphId16::new(5)), 0);
}

#[test]
fn we_handle_dupes() {
    let mut builder = ClassDefBuilder::default();
    let c1 = make_glyph_class(&[1, 2, 3, 4]);
    let c2 = make_glyph_class(&[4, 3, 2, 1, 1]);
    let c3 = make_glyph_class(&[1, 5, 6, 7]);
    assert!(builder.checked_add(c1.clone()));
    assert!(builder.checked_add(c2.clone()));
    assert!(!builder.checked_add(c3.clone()));

    let (_, map) = builder.build_with_mapping();
    assert_eq!(map.get(&c1), map.get(&c2));
    assert!(!map.contains_key(&c3));
}

#[test]
fn overlapping_class_is_refused() {
    let mut builder = ClassDefBuilder::new();
    assert!(builder.checked_add(make_glyph_class(&[1, 2, 3, 4])));
    assert!(!builder.checked_add(make_glyph_class(&[1, 3, 4, 5, 6, 7])));
    assert!(builder.checked_add(make_glyph_class(&[8, 9])));
    assert_eq!(builder.class_count(), 2);

    let (table, map) = builder.build_with_mapping();
    assert_eq!(map.len(), 2);
    assert_eq!(map.get(&make_glyph_class(&[1, 2, 3, 4])), Some(1));
    assert_eq!(map.get(&make_glyph_class(&[8, 9])), Some(2));
    assert_eq!(map.get(&make_glyph_class(&[1, 3, 4, 5, 6, 7])), None);
    // the glyphs of the refused class that are in no other class have no class
    for g in [5u16, 6, 7] {
        assert_eq!(table.get(GlyphId16::new(g)), 0);
    }
    for g in [1u16, 2, 3, 4] {
        assert_eq!(table.get(GlyphId16::new(g)), 1);
    }
    for g in [8u16, 9] {
        assert_eq!(table.get(GlyphId16::new(g)), 2);
    }
}

#[test]
fn refused_class_leaves_builder_unchanged() {
    let mut builder = ClassDefBuilder::new();
    assert!(builder.checked_add(make_glyph_class(&[10, 11])));
    assert!(!builder.can_add(&make_glyph_class(&[11, 12])));
    assert!(!builder.checked_add(make_glyph_class(&[11, 12])));
    assert_eq!(builder.class_count(), 1);
    // 12 was not taken by the refused class
    assert!(builder.can_add(&make_glyph_class(&[12])));
    assert!(builder.checked_add(make_glyph_class(&[12])));
    assert_eq!(builder.class_count(), 2);
}

#[test]
fn same_class_twice_is_held_once() {
    let mut builder = ClassDefBuilder::new();
    assert!(builder.checked_add(make_glyph_class(&[20, 21, 22])));
    assert!(builder.can_add(&make_glyph_class(&[22, 21, 20])));
    assert!(builder.checked_add(make_glyph_class(&[22, 21, 20])));
    assert_eq!(builder.class_count(), 1);
    let (table, map) = builder.build_with_mapping();
    assert_eq!(map.len(), 1);
    assert_eq!(table.get(GlyphId16::new(21)), 1);
}

#[test]
fn larger_classes_get_lower_ids() {
    let mut builder = ClassDefBuilder::new();
    let small = make_glyph_class(&[1]);
    let large = make_glyph_class(&[100, 101, 102, 103]);
    let middle_high = make_glyph_class(&[50, 60]);
    let middle_low = make_glyph_class(&[40, 70]);
    assert!(builder.checked_add(small.clone()));
    assert!(builder.checked_add(middle_high.clone()));
    assert!(builder.checked_add(large.clone()));
    assert!(builder.checked_add(middle_low.clone()));
    let (_, map) = builder.build_with_mapping();
    assert_eq!(map.get(&large), Some(1));
    assert_eq!(map.get(&middle_low), Some(2));
    assert_eq!(map.get(&middle_high), Some(3));
    assert_eq!(map.get(&small), Some(4));
}

#[test]
fn ids_do_not_depend_on_the_order_of_adding() {
    let classes: Vec<Vec<u16>> = vec![vec![9, 8], vec![1, 2, 3], vec![30], vec![4, 5]];
    let mut forward = ClassDefBuilder::new();
    for c in classes.iter() {
        assert!(forward.checked_add(make_glyph_class(c)));
    }
    let mut backward = ClassDefBuilder::new();
    for c in classes.iter().rev() {
        assert!(backward.checked_add(make_glyph_class(c)));
    }
    let (table_a, map_a) = forward.build_with_mapping();
    let (table_b, map_b) = backward.build_with_mapping();
    assert_eq!(table_a, table_b);
    for c in classes.iter() {
        assert_eq!(map_a.get(&make_glyph_class(c)), map_b.get(&make_glyph_class(c)));
    }
    assert_eq!(map_a.get(&make_glyph_class(&[1, 2, 3])), Some(1));
    assert_eq!(map_a.get(&make_glyph_class(&[4, 5])), Some(2));
    assert_eq!(map_a.get(&make_glyph_class(&[8, 9])), Some(3));
    assert_eq!(map_a.get(&make_glyph_class(&[30])), Some(4));
}

#[test]
fn class_0_mode_numbers_from_0() {
    let mut builder = ClassDefBuilder::new_using_class_0();
    assert!(builder.checked_add(make_glyph_class(&[6, 7, 8])));
    assert!(builder.checked_add(make_glyph_class(&[20])));
    let (table, map) = builder.build_with_mapping();
    assert_eq!(map.get(&make_glyph_class(&[6, 7, 8])), Some(0));
    assert_eq!(map.get(&make_glyph_class(&[20])), Some(1));
    // class 0 has no entry in the table
    assert_eq!(table.get_raw(GlyphId16::new(7)), None);
    assert_eq!(table.get_raw(GlyphId16::new(20)), Some(1));
}

#[test]
fn empty_builder_builds_empty_format_2() {
    let builder = ClassDefBuilder::new();
    assert_eq!(builder.class_count(), 0);
    let (table, map) = builder.build_with_mapping();
    assert_eq!(map.len(), 0);
    assert_eq!(table, ClassDef::Format2(ClassDefFormat2 { class_range_records: vec![] }));
}

#[test]
fn empty_class_comes_last() {
    let mut builder = ClassDefBuilder::new();
    assert!(builder.checked_add(make_glyph_class(&[])));
    assert!(builder.checked_add(make_glyph_class(&[3])));
    // the empty class is held already, so it can be added again
    assert!(builder.checked_add(make_glyph_class(&[])));
    let (_, map) = builder.build_with_mapping();
    assert_eq!(map.get(&make_glyph_class(&[3])), Some(1));
    assert_eq!(map.get(&make_glyph_class(&[])), Some(2));
}

#[test]
fn glyph_class_is_a_set() {
    let class = make_glyph_class(&[4, 3, 2, 1, 1]);
    assert_eq!(ids(&class), vec![1, 2, 3, 4]);
    assert_eq!(class.len(), 4);
}
