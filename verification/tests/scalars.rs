use font_layout::domain::{Domain, GlyphId16, Tag};
use font_layout::fword::{FWord, UfWord};
use font_layout::int_set::{search, IntSet};

#[test]
fn font_units_keep_their_value() {
    assert_eq!(FWord::new(-1234).to_i16(), -1234);
    assert_eq!(FWord::new(i16::MIN).to_i16(), i16::MIN);
    assert_eq!(UfWord::new(65535).to_u16(), 65535);
    assert_eq!(FWord::new(7), FWord::new(7));
    assert_ne!(UfWord::new(7), UfWord::new(8));
}

#[test]
fn tags_are_compared_byte_by_byte() {
    let latn = Tag::new(b"latn");
    assert_eq!(latn, Tag::new(b"latn"));
    assert_ne!(latn, Tag::new(b"latm"));
    assert_ne!(latn, Tag::new(b"Latn"));
    assert_eq!(latn.to_be_bytes(), *b"latn");
    assert_eq!(latn.to_u32(), 0x6C61746E);
    assert_eq!(Tag::new(&[0xFF, 0xFF, 0xFF, 0xFF]).to_u32(), u32::MAX);
}

#[test]
fn glyph_ids() {
    assert_eq!(GlyphId16::new(513).to_u16(), 513);
    assert_eq!(GlyphId16::notdef(), GlyphId16::new(0));
    assert_eq!(GlyphId16::default(), GlyphId16::new(0));
    assert_eq!(GlyphId16::new(513).to_u32(), 513);
}

#[test]
fn int_set_is_ordered_and_has_each_value_once() {
    let mut set: IntSet<u32> = IntSet::empty();
    assert!(set.is_empty());
    assert_eq!(set.first(), None);
    assert_eq!(set.last(), None);
    assert!(set.insert(50));
    assert!(set.insert(7));
    assert!(!set.insert(50));
    assert!(set.insert(u32::MAX));
    assert!(set.insert(0));
    assert_eq!(set.to_vec(), vec![0, 7, 50, u32::MAX]);
    assert_eq!(set.len(), 4);
    assert!(!set.is_empty());
    assert!(set.contains(7));
    assert!(!set.contains(8));
    assert_eq!(set.first(), Some(0));
    assert_eq!(set.last(), Some(u32::MAX));
}

#[test]
fn int_set_union_and_comparison() {
    let a: IntSet<u16> = IntSet::from_vec(vec![5, 1, 3, 1]);
    let b: IntSet<u16> = IntSet::from_vec(vec![4, 5, 6]);
    let c: IntSet<u16> = IntSet::from_vec(vec![7, 8]);
    assert!(a.intersects(&b));
    assert!(!a.intersects(&c));
    assert!(!a.same_members(&b));
    assert!(a.same_members(&IntSet::from_vec(vec![1, 3, 5])));
    assert!(a.clone().same_members(&a));
    assert_eq!(a.clone(), a);
    assert_eq!(a, IntSet::from_vec(vec![3, 5, 1]));
    assert_ne!(a, b);
    let mut u = a.clone();
    u.extend(&b);
    assert_eq!(u.to_vec(), vec![1, 3, 4, 5, 6]);
    u.extend(&c);
    assert_eq!(u.to_vec(), vec![1, 3, 4, 5, 6, 7, 8]);
    assert_eq!(a.to_vec(), vec![1, 3, 5]);
}

#[test]
fn int_set_of_tags_is_ordered_by_bytes() {
    let set: IntSet<Tag> =
        IntSet::from_vec(vec![Tag::new(b"latn"), Tag::new(b"DFLT"), Tag::new(b"arab")]);
    assert_eq!(set.to_vec(), vec![Tag::new(b"DFLT"), Tag::new(b"arab"), Tag::new(b"latn")]);
}

#[test]
fn search_finds_the_place() {
    let items: Vec<u16> = vec![2, 4, 6, 8];
    assert_eq!(search(&items, 2), Ok(0));
    assert_eq!(search(&items, 8), Ok(3));
    assert_eq!(search(&items, 1), Err(0));
    assert_eq!(search(&items, 5), Err(2));
    assert_eq!(search(&items, 9), Err(4));
    assert_eq!(search(&Vec::<u16>::new(), 9), Err(0));
}
