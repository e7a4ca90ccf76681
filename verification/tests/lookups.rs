use font_layout::lookup::{Builder, Lookup, LookupBuilder, LookupFlag};
use font_layout::metric::DeviceOrDeltas;
use font_layout::variations::{RegionAxisCoordinates, VariationRegion, VariationStoreBuilder};

/// A subtable builder that gives its words, one subtable each.
#[derive(Default, Debug, PartialEq, Clone)]
struct Words(Vec<u16>);

impl Builder for Words {
    type Output = Vec<u16>;

    fn build(self, _var_store: &mut VariationStoreBuilder) -> Vec<u16> {
        self.0
    }
}

/// A subtable builder that hands a list of deltas to the store for each of
/// its values, and gives the values.
#[derive(Default, Debug, PartialEq, Clone)]
struct Varying(Vec<i16>);

impl From<Words> for Varying {
    fn from(src: Words) -> Varying {
        Varying(src.0.iter().map(|w| *w as i16).collect())
    }
}

impl Builder for Varying {
    type Output = Vec<i16>;

    fn build(self, var_store: &mut VariationStoreBuilder) -> Vec<i16> {
        for v in self.0.iter() {
            let region = VariationRegion::new(vec![RegionAxisCoordinates {
                start_coord: 0,
                peak_coord: 1,
                end_coord: 2,
            }]);
            DeviceOrDeltas::Deltas(vec![(region, *v)]).build(var_store);
        }
        self.0
    }
}

#[test]
fn lookup_build_flattens_in_order() {
    let mut builder: LookupBuilder<Words> =
        LookupBuilder::new(LookupFlag::from_bits_truncate(8), Some(3));
    builder.last_mut().unwrap().0.push(1);
    builder.last_mut().unwrap().0.push(2);
    builder.force_subtable_break();
    builder.force_subtable_break();
    builder.last_mut().unwrap().0.push(3);
    assert_eq!(builder.iter_subtables().len(), 3);
    let mut store = VariationStoreBuilder::new();
    let lookup: Lookup<u16> = builder.build(&mut store);
    assert_eq!(lookup.subtables, vec![1, 2, 3]);
    assert_eq!(lookup.lookup_flag, LookupFlag::from_bits_truncate(8));
    assert_eq!(lookup.mark_filtering_set, Some(3));
}

#[test]
fn new_builder_has_one_subtable() {
    let builder: LookupBuilder<Words> = LookupBuilder::new(LookupFlag::empty(), None);
    assert_eq!(builder.iter_subtables(), &[Words::default()]);
    assert_eq!(builder.flags.to_bits(), 0);
    assert_eq!(builder.mark_set, None);
    let lookup = builder.build(&mut VariationStoreBuilder::new());
    assert_eq!(lookup, Lookup::new(LookupFlag::default(), vec![]));
}

#[test]
fn builder_from_subtables() {
    let given = vec![Words(vec![4]), Words(vec![]), Words(vec![5, 6])];
    let mut builder = LookupBuilder::new_with_lookups(LookupFlag::empty(), Some(1), given.clone());
    assert_eq!(builder.iter_subtables(), given.as_slice());
    assert_eq!(builder.last_mut(), Some(&mut Words(vec![5, 6])));
    let lookup = builder.build(&mut VariationStoreBuilder::new());
    assert_eq!(lookup.subtables, vec![4, 5, 6]);

    // there is a subtable to write to even when none was given
    let mut builder: LookupBuilder<Words> =
        LookupBuilder::new_with_lookups(LookupFlag::empty(), None, vec![]);
    assert_eq!(builder.iter_subtables().len(), 1);
    assert_eq!(builder.last_mut(), Some(&mut Words(vec![])));
}

#[test]
fn last_mut_without_subtables() {
    let mut builder: LookupBuilder<Words> =
        LookupBuilder { flags: LookupFlag::empty(), mark_set: None, subtables: vec![] };
    assert!(builder.last_mut().is_none());
    builder.force_subtable_break();
    assert_eq!(builder.subtables.len(), 1);
}

#[test]
fn convert_keeps_order_and_flags() {
    let builder = LookupBuilder::new_with_lookups(
        LookupFlag::from_bits_truncate(0x10),
        Some(9),
        vec![Words(vec![1, 2]), Words(vec![3])],
    );
    let converted: LookupBuilder<Varying> = builder.convert();
    assert_eq!(converted.subtables, vec![Varying(vec![1, 2]), Varying(vec![3])]);
    assert_eq!(converted.flags, LookupFlag::from_bits_truncate(0x10));
    assert_eq!(converted.mark_set, Some(9));
}

#[test]
fn subtables_share_the_store() {
    let builder = LookupBuilder::new_with_lookups(
        LookupFlag::empty(),
        None,
        vec![Varying(vec![10, 20]), Varying(vec![10]), Varying(vec![30])],
    );
    let mut store = VariationStoreBuilder::new();
    let lookup = builder.build(&mut store);
    assert_eq!(lookup.subtables, vec![10, 20, 10, 30]);
    let (built, _) = store.build();
    let deltas: Vec<i16> = built.delta_sets.iter().map(|list| list[0].1).collect();
    assert_eq!(deltas, vec![10, 20, 30]);
}
