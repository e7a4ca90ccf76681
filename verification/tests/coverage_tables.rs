use font_layout::coverage::{
    should_choose_coverage_format_2, CoverageFormat1, CoverageFormat2, CoverageTable,
    CoverageTableBuilder, RangeRecord,
};
use font_layout::domain::GlyphId16;

fn make_glyph_vec(gids: &[u16]) -> Vec<GlyphId16> {
    gids.iter().map(|g| GlyphId16::new(*g)).collect()
}

#[test]
fn coverage_builder() {
    let coverage = CoverageTableBuilder::from_glyphs(make_glyph_vec(&[1u16, 2, 9, 3, 6, 9]));
    assert_eq!(coverage.glyphs(), &make_glyph_vec(&[1, 2, 3, 6, 9]));
}

#[test]
fn add_returns_the_index_in_sorted_order() {
    let mut builder = CoverageTableBuilder::default();
    assert_eq!(builder.add(GlyphId16::new(10)), 0);
    assert_eq!(builder.add(GlyphId16::new(20)), 1);
    assert_eq!(builder.add(GlyphId16::new(15)), 1);
    // 20 moved on when 15 came in
    assert_eq!(builder.add(GlyphId16::new(20)), 2);
    assert_eq!(builder.add(GlyphId16::new(5)), 0);
    assert_eq!(builder.add(GlyphId16::new(10)), 1);
    assert_eq!(builder.add(GlyphId16::new(65535)), 4);
    assert_eq!(builder.glyphs(), &make_glyph_vec(&[5, 10, 15, 20, 65535]));
}

#[test]
fn insertion_order_does_not_matter() {
    let orders: [[u16; 5]; 4] =
        [[1, 2, 3, 6, 9], [9, 6, 3, 2, 1], [3, 9, 1, 6, 2], [6, 1, 9, 2, 3]];
    for order in orders.iter() {
        let mut builder = CoverageTableBuilder::default();
        for g in order.iter() {
            builder.add(GlyphId16::new(*g));
        }
        // once more, with repetitions
        for g in order.iter() {
            builder.add(GlyphId16::new(*g));
        }
        assert_eq!(builder.glyphs(), &make_glyph_vec(&[1, 2, 3, 6, 9]));
        assert_eq!(builder, CoverageTableBuilder::from_glyphs(make_glyph_vec(order)));
    }
}

#[test]
fn coverage_format_is_the_smaller_one() {
    // 3 glyphs in one run: format 1 is 4 + 6 = 10 bytes, format 2 is 4 + 6 = 10
    let glyphs = make_glyph_vec(&[1, 2, 3]);
    assert!(!should_choose_coverage_format_2(&glyphs));
    let built = CoverageTableBuilder::from_glyphs(glyphs.clone()).build();
    assert_eq!(built, CoverageTable::Format1(CoverageFormat1 { glyph_array: glyphs }));

    // 4 glyphs in one run: format 1 is 4 + 8 = 12 bytes, format 2 is 10
    let glyphs = make_glyph_vec(&[1, 2, 3, 4]);
    assert!(should_choose_coverage_format_2(&glyphs));
    let built = CoverageTableBuilder::from_glyphs(glyphs).build();
    assert_eq!(
        built,
        CoverageTable::Format2(CoverageFormat2 {
            range_records: vec![RangeRecord {
                start_glyph_id: GlyphId16::new(1),
                end_glyph_id: GlyphId16::new(4),
                start_coverage_index: 0,
            }]
        })
    );

    // no glyphs: 4 bytes either way, so format 1
    let built = CoverageTableBuilder::default().build();
    assert_eq!(built, CoverageTable::Format1(CoverageFormat1 { glyph_array: vec![] }));
}

#[test]
fn coverage_ranges_carry_the_index_of_their_first_glyph() {
    let glyphs = make_glyph_vec(&[3, 4, 5, 6, 10, 20, 21, 22, 23, 24, 65535]);
    let ranges = RangeRecord::iter_for_glyphs(&glyphs);
    let plain: Vec<(u16, u16, u16)> = ranges
        .iter()
        .map(|r| (r.start_glyph_id.to_u16(), r.end_glyph_id.to_u16(), r.start_coverage_index))
        .collect();
    assert_eq!(plain, vec![(3, 6, 0), (10, 10, 4), (20, 24, 5), (65535, 65535, 10)]);
    assert!(RangeRecord::iter_for_glyphs(&[]).is_empty());
}

#[test]
fn coverage_round_trip() {
    let lists: Vec<Vec<u16>> = vec![
        vec![],
        vec![7],
        vec![1, 3, 5, 7, 9],
        vec![10, 11, 12, 13, 14, 15, 30, 31, 32, 33, 34, 100],
        vec![0, 1, 2, 3, 65533, 65534, 65535],
    ];
    for list in lists.iter() {
        let table = CoverageTableBuilder::from_glyphs(make_glyph_vec(list)).build();
        for g in (0u16..=120).chain(65500..=65535) {
            let want = list.iter().position(|x| *x == g).map(|i| i as u16);
            assert_eq!(table.get(GlyphId16::new(g)), want);
        }
    }
    // the two larger lists are in format 2
    let table = CoverageTableBuilder::from_glyphs(make_glyph_vec(&lists[3])).build();
    assert!(matches!(table, CoverageTable::Format2(_)));
    let table = CoverageTableBuilder::from_glyphs(make_glyph_vec(&lists[2])).build();
    assert!(matches!(table, CoverageTable::Format1(_)));
}
