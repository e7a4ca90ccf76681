use font_layout::device::{
    DeltaFormat, Device, DeviceOrVariationIndex, PendingVariationIndex,
};
use font_layout::metric::{CaretValue, CaretValueBuilder, DeviceOrDeltas, Metric};
use font_layout::variations::{
    same_deltas, RegionAxisCoordinates, VariationIndex, VariationRegion, VariationStoreBuilder,
};

fn region(peak: i16) -> VariationRegion {
    VariationRegion::new(vec![RegionAxisCoordinates { start_coord: 0, peak_coord: peak, end_coord: 0x4000 }])
}

fn device() -> Device {
    Device::new(9, 12, DeltaFormat::Local4BitDeltas, vec![0x1230])
}

#[test]
fn handles_get_final_indices_when_the_store_is_built() {
    let mut builder = VariationStoreBuilder::new();
    let a = builder.add_deltas(vec![(region(0x4000), 10)]);
    let b = builder.add_deltas(vec![(region(0x2000), -5), (region(0x4000), 7)]);
    let c = builder.add_deltas(vec![(region(0x4000), 10)]);
    let d = builder.add_deltas(vec![(region(0x4000), 11)]);
    assert_ne!(a, b);
    assert_ne!(a, c);
    let (store, remap) = builder.build();
    assert_eq!(store.delta_sets.len(), 3);
    assert_eq!(store.delta_sets[0], vec![(region(0x4000), 10)]);
    assert_eq!(store.delta_sets[1], vec![(region(0x2000), -5), (region(0x4000), 7)]);
    assert_eq!(store.delta_sets[2], vec![(region(0x4000), 11)]);
    assert_eq!(remap.get(a), Some(VariationIndex { delta_set_index: 0 }));
    assert_eq!(remap.get(b), Some(VariationIndex { delta_set_index: 1 }));
    assert_eq!(remap.get(c), Some(VariationIndex { delta_set_index: 0 }));
    assert_eq!(remap.get(d), Some(VariationIndex { delta_set_index: 2 }));

    // a handle of another, larger store is not known here
    let mut other = VariationStoreBuilder::new();
    let mut last = other.add_deltas(vec![]);
    for _ in 0..4 {
        last = other.add_deltas(vec![]);
    }
    assert_eq!(remap.get(last), None);
}

#[test]
fn empty_store() {
    let (store, _) = VariationStoreBuilder::new().build();
    assert!(store.delta_sets.is_empty());
}

#[test]
fn delta_lists_are_compared_by_value() {
    let a = vec![(region(1), 2), (region(3), 4)];
    assert!(same_deltas(&a, &a.clone()));
    assert!(!same_deltas(&a, &vec![(region(1), 2)]));
    assert!(!same_deltas(&a, &vec![(region(1), 2), (region(3), 5)]));
    assert!(!same_deltas(&a, &vec![(region(1), 2), (region(4), 4)]));
    assert!(!same_deltas(&a, &vec![(region(3), 4), (region(1), 2)]));
    assert!(region(1).same_region(&region(1)));
    assert!(!region(1).same_region(&VariationRegion::new(vec![])));
}

#[test]
fn device_or_deltas_is_built_in_two_steps() {
    let mut store = VariationStoreBuilder::new();
    assert_eq!(DeviceOrDeltas::Absent.build(&mut store), None);
    assert_eq!(
        DeviceOrDeltas::Device(device()).build(&mut store),
        Some(DeviceOrVariationIndex::Device(device()))
    );
    let first = DeviceOrDeltas::Deltas(vec![(region(5), 1)]).build(&mut store).unwrap();
    let second = DeviceOrDeltas::Deltas(vec![(region(6), 1)]).build(&mut store).unwrap();
    let third = DeviceOrDeltas::Deltas(vec![(region(5), 1)]).build(&mut store).unwrap();
    assert!(first.is_pending());
    assert!(second.is_pending());
    assert_ne!(first, second);
    assert_ne!(first, third);

    let (built, remap) = store.build();
    assert_eq!(built.delta_sets.len(), 2);
    let mut values = vec![first, second, third, DeviceOrVariationIndex::Device(device())];
    for v in values.iter_mut() {
        v.remap_variation_indices(&remap);
    }
    assert_eq!(
        values,
        vec![
            DeviceOrVariationIndex::VariationIndex(VariationIndex { delta_set_index: 0 }),
            DeviceOrVariationIndex::VariationIndex(VariationIndex { delta_set_index: 1 }),
            DeviceOrVariationIndex::VariationIndex(VariationIndex { delta_set_index: 0 }),
            DeviceOrVariationIndex::Device(device()),
        ]
    );
    assert!(!values[0].is_pending());
    // a second pass changes nothing
    values[0].remap_variation_indices(&remap);
    assert_eq!(
        values[0],
        DeviceOrVariationIndex::VariationIndex(VariationIndex { delta_set_index: 0 })
    );
}

#[test]
fn caret_values() {
    let mut store = VariationStoreBuilder::new();
    assert_eq!(CaretValueBuilder::PointIndex(7).build(&mut store), CaretValue::format_2(7));
    assert_eq!(
        CaretValueBuilder::Coordinate { default: -30, deltas: DeviceOrDeltas::Absent }.build(&mut store),
        CaretValue::Format1 { coordinate: -30 }
    );
    assert_eq!(
        CaretValueBuilder::Coordinate { default: 12, deltas: DeviceOrDeltas::Device(device()) }
            .build(&mut store),
        CaretValue::format_3(12, DeviceOrVariationIndex::Device(device()))
    );
    // nothing went to the store so far: the first handle is still to come
    let handle = VariationStoreBuilder::new().add_deltas(vec![]);
    assert_eq!(
        CaretValueBuilder::Coordinate {
            default: 5,
            deltas: DeviceOrDeltas::Deltas(vec![(region(9), 3)])
        }
        .build(&mut store),
        CaretValue::Format3 {
            coordinate: 5,
            device: DeviceOrVariationIndex::PendingVariationIndex(PendingVariationIndex::new(handle))
        }
    );
    let (built, _) = store.build();
    assert_eq!(built.delta_sets, vec![vec![(region(9), 3)]]);
}

#[test]
fn metrics() {
    assert!(Metric::from(0).is_zero());
    assert!(!Metric::from(1).is_zero());
    assert!(!Metric::from(0).has_device_or_deltas());
    assert_eq!(Metric::from(-7), Metric { default: -7, device_or_deltas: DeviceOrDeltas::Absent });
    assert_eq!(Metric::default(), Metric::from(0));
    let with_device = Metric { default: 0, device_or_deltas: DeviceOrDeltas::Device(device()) };
    assert!(!with_device.is_zero());
    assert!(with_device.has_device_or_deltas());
    let with_deltas =
        Metric { default: 0, device_or_deltas: DeviceOrDeltas::Deltas(vec![(region(1), 1)]) };
    assert!(!with_deltas.is_zero());
    assert!(with_deltas.has_device_or_deltas());
}

#[test]
fn device_or_deltas_from_other_values() {
    assert!(DeviceOrDeltas::default().is_none());
    assert!(DeviceOrDeltas::from(None).is_none());
    assert_eq!(DeviceOrDeltas::from(Some(device())), DeviceOrDeltas::Device(device()));
    assert_eq!(DeviceOrDeltas::from(device()), DeviceOrDeltas::Device(device()));
    assert!(!DeviceOrDeltas::from(device()).is_none());
    assert!(DeviceOrDeltas::from(Vec::<(VariationRegion, i16)>::new()).is_none());
    assert_eq!(
        DeviceOrDeltas::from(vec![(region(2), 3)]),
        DeviceOrDeltas::Deltas(vec![(region(2), 3)])
    );
}
