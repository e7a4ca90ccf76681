//! Values that may vary, as they are written down and as they are built.
//!
//! A value is written with a device table, or with a list of deltas, or with
//! neither. Building it hands a list of deltas to the variation store's
//! builder and puts a pending reference in its place.

use vstd::prelude::*;
use vstd::std_specs::convert::FromSpecImpl;
use crate::device::{Device, DeviceOrVariationIndex, PendingVariationIndex};
use crate::variations::{delta_set, DeltaSet, VariationRegion, VariationStoreBuilder};

verus! {

/// A device table, or a list of deltas, or neither.
#[derive(Clone, Debug, PartialEq, Eq, PartialOrd, Ord)]
pub enum DeviceOrDeltas {
    Device(Device),
    Deltas(Vec<(VariationRegion, i16)>),
    /// Neither: the value does not vary.
    Absent,
}

/// A value at the default position, with a device table or deltas or neither.
#[derive(Clone, Debug, PartialEq, Eq, PartialOrd, Ord)]
pub struct Metric {
    /// The value at the default position.
    pub default: i16,
    /// The device table or the deltas, if there are any.
    pub device_or_deltas: DeviceOrDeltas,
}

/// A caret position of a ligature, as it is written down.
#[derive(Clone, Debug, PartialEq, Eq, PartialOrd, Ord)]
pub enum CaretValueBuilder {
    /// A coordinate in design units, with a device table or deltas or neither.
    Coordinate { default: i16, deltas: DeviceOrDeltas },
    /// The index of the contour point at which the caret stands.
    PointIndex(u16),
}

/// A caret position of a ligature, as a table holds it.
#[derive(Clone, Debug, PartialEq, Eq, PartialOrd, Ord)]
pub enum CaretValue {
    /// A coordinate in design units.
    Format1 { coordinate: i16 },
    /// The index of a contour point.
    Format2 { caret_value_point_index: u16 },
    /// A coordinate in design units, with a device table or a reference to
    /// deltas.
    Format3 { coordinate: i16, device: DeviceOrVariationIndex },
}

impl CaretValue {
    /// A coordinate without adjustments.
    pub fn format_1(coordinate: i16) -> (r: Self)
        ensures
            r == (CaretValue::Format1 { coordinate }),
    {
        CaretValue::Format1 { coordinate }
    }

    /// The index of a contour point.
    pub fn format_2(caret_value_point_index: u16) -> (r: Self)
        ensures
            r == (CaretValue::Format2 { caret_value_point_index }),
    {
        CaretValue::Format2 { caret_value_point_index }
    }

    /// A coordinate with a device table or a reference to deltas.
    pub fn format_3(coordinate: i16, device: DeviceOrVariationIndex) -> (r: Self)
        ensures
            r == (CaretValue::Format3 { coordinate, device }),
    {
        CaretValue::Format3 { coordinate, device }
    }
}

impl Default for DeviceOrDeltas {
    fn default() -> (r: Self)
        ensures
            r == DeviceOrDeltas::Absent,
    {
        DeviceOrDeltas::Absent
    }
}

impl Default for Metric {
    fn default() -> (r: Self)
        ensures
            r == (Metric { default: 0, device_or_deltas: DeviceOrDeltas::Absent }),
    {
        Metric { default: 0, device_or_deltas: DeviceOrDeltas::Absent }
    }
}

impl DeviceOrDeltas {
    /// Whether there is neither a device table nor a list of deltas.
    pub fn is_none(&self) -> (r: bool)
        ensures
            r == (self is Absent),
    {
        match self {
            DeviceOrDeltas::Absent => true,
            _ => false,
        }
    }

    /// What building the value leaves in the store's builder: the list of
    /// deltas behind the lists that were there, and else no change.
    pub open spec fn stored(self, lists: Seq<DeltaSet>) -> Seq<DeltaSet> {
        match self {
            DeviceOrDeltas::Deltas(deltas) => lists.push(delta_set(deltas@)),
            _ => lists,
        }
    }

    /// Builds the value: a device table stays as it is, a list of deltas goes
    /// to the store's builder and leaves a pending reference, which gets its
    /// final index once the store is built.
    pub fn build(self, var_store: &mut VariationStoreBuilder) -> (r: Option<DeviceOrVariationIndex>)
        ensures
            final(var_store)@ == self.stored(old(var_store)@),
            match self {
                DeviceOrDeltas::Device(dev) => r == Some(DeviceOrVariationIndex::Device(dev)),
                DeviceOrDeltas::Deltas(_) => r matches Some(
                    DeviceOrVariationIndex::PendingVariationIndex(p),
                ) && p.delta_set_id@ == old(var_store)@.len(),
                DeviceOrDeltas::Absent => r is None,
            },
    {
        match self {
            DeviceOrDeltas::Device(dev) => Some(DeviceOrVariationIndex::Device(dev)),
            DeviceOrDeltas::Deltas(deltas) => {
                let temp_id = var_store.add_deltas(deltas);
                Some(
                    DeviceOrVariationIndex::PendingVariationIndex(
                        PendingVariationIndex::new(temp_id),
                    ),
                )
            },
            DeviceOrDeltas::Absent => None,
        }
    }
}

impl Metric {
    /// Whether the default value is 0 and there is neither a device table
    /// nor deltas.
    pub fn is_zero(&self) -> (r: bool)
        ensures
            r == (self.default == 0 && self.device_or_deltas is Absent),
    {
        self.default == 0 && !self.has_device_or_deltas()
    }

    /// Whether there is a device table or a list of deltas.
    pub fn has_device_or_deltas(&self) -> (r: bool)
        ensures
            r == !(self.device_or_deltas is Absent),
    {
        !self.device_or_deltas.is_none()
    }
}

impl CaretValueBuilder {
    /// Builds the caret position: a coordinate with a device table or deltas
    /// in the third format, with what [`DeviceOrDeltas::build`] makes of them;
    /// a bare coordinate in the first; a point index in the second.
    pub fn build(self, var_store: &mut VariationStoreBuilder) -> (r: CaretValue)
        ensures
            match self {
                CaretValueBuilder::Coordinate { default, deltas } => {
                    &&& final(var_store)@ == deltas.stored(old(var_store)@)
                    &&& match deltas {
                        DeviceOrDeltas::Device(dev) => r == (CaretValue::Format3 {
                            coordinate: default,
                            device: DeviceOrVariationIndex::Device(dev),
                        }),
                        DeviceOrDeltas::Deltas(_) => r matches CaretValue::Format3 {
                            coordinate,
                            device: DeviceOrVariationIndex::PendingVariationIndex(p),
                        } && coordinate == default && p.delta_set_id@ == old(var_store)@.len(),
                        DeviceOrDeltas::Absent => r == (CaretValue::Format1 {
                            coordinate: default,
                        }),
                    }
                },
                CaretValueBuilder::PointIndex(index) => {
                    &&& final(var_store)@ == old(var_store)@
                    &&& r == (CaretValue::Format2 { caret_value_point_index: index })
                },
            },
    {
        match self {
            CaretValueBuilder::Coordinate { default, deltas } => match deltas.build(var_store) {
                Some(deltas) => CaretValue::format_3(default, deltas),
                None => CaretValue::format_1(default),
            },
            CaretValueBuilder::PointIndex(index) => CaretValue::format_2(index),
        }
    }
}

impl From<i16> for Metric {
    fn from(src: i16) -> (r: Metric) {
        Metric { default: src, device_or_deltas: DeviceOrDeltas::Absent }
    }
}

impl FromSpecImpl<i16> for Metric {
    open spec fn obeys_from_spec() -> bool {
        true
    }

    open spec fn from_spec(src: i16) -> Metric {
        Metric { default: src, device_or_deltas: DeviceOrDeltas::Absent }
    }
}

impl From<Option<Device>> for DeviceOrDeltas {
    fn from(src: Option<Device>) -> (r: DeviceOrDeltas) {
        match src {
            Some(dev) => DeviceOrDeltas::Device(dev),
            None => DeviceOrDeltas::Absent,
        }
    }
}

impl FromSpecImpl<Option<Device>> for DeviceOrDeltas {
    open spec fn obeys_from_spec() -> bool {
        true
    }

    open spec fn from_spec(src: Option<Device>) -> DeviceOrDeltas {
        match src {
            Some(dev) => DeviceOrDeltas::Device(dev),
            None => DeviceOrDeltas::Absent,
        }
    }
}

impl From<Device> for DeviceOrDeltas {
    fn from(value: Device) -> (r: DeviceOrDeltas) {
        DeviceOrDeltas::Device(value)
    }
}

impl FromSpecImpl<Device> for DeviceOrDeltas {
    open spec fn obeys_from_spec() -> bool {
        true
    }

    open spec fn from_spec(value: Device) -> DeviceOrDeltas {
        DeviceOrDeltas::Device(value)
    }
}

impl From<Vec<(VariationRegion, i16)>> for DeviceOrDeltas {
    fn from(src: Vec<(VariationRegion, i16)>) -> (r: DeviceOrDeltas) {
        if src.len() == 0 {
            DeviceOrDeltas::Absent
        } else {
            DeviceOrDeltas::Deltas(src)
        }
    }
}

impl FromSpecImpl<Vec<(VariationRegion, i16)>> for DeviceOrDeltas {
    open spec fn obeys_from_spec() -> bool {
        true
    }

    /// Without deltas there is nothing that varies.
    open spec fn from_spec(src: Vec<(VariationRegion, i16)>) -> DeviceOrDeltas {
        if src@.len() == 0 {
            DeviceOrDeltas::Absent
        } else {
            DeviceOrDeltas::Deltas(src)
        }
    }
}

} // verus!
