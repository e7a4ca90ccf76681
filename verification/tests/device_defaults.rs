use font_layout::device::DeltaFormat;

#[test]
fn delta_format_dflt() {
    let some: DeltaFormat = Default::default();
    assert_eq!(some, DeltaFormat::Local2BitDeltas);
}
