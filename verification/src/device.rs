//! Device tables, and the reference that stands in a built table where a
//! value varies.

use vstd::prelude::*;
use crate::variations::{TemporaryDeltaSetId, VariationIndex, VariationIndexRemapping};

verus! {

/// How the deltas of a device table are packed.
#[derive(Copy, Clone, Debug, PartialEq, Eq, Structural, PartialOrd, Ord, Hash)]
pub enum DeltaFormat {
    /// Signed 2-bit values, 8 to a word.
    Local2BitDeltas,
    /// Signed 4-bit values, 4 to a word.
    Local4BitDeltas,
    /// Signed 8-bit values, 2 to a word.
    Local8BitDeltas,
    /// The table holds a variation index in place of deltas.
    VariationIndex,
}

impl Default for DeltaFormat {
    fn default() -> (r: Self)
        ensures
            r == DeltaFormat::Local2BitDeltas,
    {
        DeltaFormat::Local2BitDeltas
    }
}

/// A device table: adjustments of a value for a range of sizes.
#[derive(Clone, Debug, PartialEq, Eq, PartialOrd, Ord, Hash)]
pub struct Device {
    /// The smallest size, in pixels per em, that has an adjustment.
    pub start_size: u16,
    /// The largest size that has an adjustment.
    pub end_size: u16,
    pub delta_format: DeltaFormat,
    /// The adjustments, packed.
    pub delta_value: Vec<u16>,
}

impl Device {
    /// The device table with the given content.
    pub fn new(
        start_size: u16,
        end_size: u16,
        delta_format: DeltaFormat,
        delta_value: Vec<u16>,
    ) -> (r: Self)
        ensures
            r == (Device { start_size, end_size, delta_format, delta_value }),
    {
        Device { start_size, end_size, delta_format, delta_value }
    }
}

/// The reference to a list of deltas that is written before the store is
/// built: it holds the temporary handle.
#[derive(Copy, Clone, Debug, PartialEq, Eq, Structural, PartialOrd, Ord, Hash)]
pub struct PendingVariationIndex {
    pub delta_set_id: TemporaryDeltaSetId,
}

impl PendingVariationIndex {
    /// The reference to the list that the handle stands for.
    pub fn new(delta_set_id: TemporaryDeltaSetId) -> (r: Self)
        ensures
            r.delta_set_id == delta_set_id,
    {
        PendingVariationIndex { delta_set_id }
    }
}

/// What a built table holds where a value may vary: a device table, or a
/// reference to a list of deltas, pending until the store is built and final
/// after that.
#[derive(Clone, Debug, PartialEq, Eq, PartialOrd, Ord, Hash)]
pub enum DeviceOrVariationIndex {
    Device(Device),
    PendingVariationIndex(PendingVariationIndex),
    VariationIndex(VariationIndex),
}

impl DeviceOrVariationIndex {
    /// Whether the reference is still pending.
    pub fn is_pending(&self) -> (r: bool)
        ensures
            r == (self is PendingVariationIndex),
    {
        match self {
            DeviceOrVariationIndex::PendingVariationIndex(_) => true,
            _ => false,
        }
    }

    /// What the value becomes once the store is built: a pending reference
    /// becomes the final index of its list, anything else stays as it is.
    pub open spec fn remapped(self, key_map: Seq<usize>) -> DeviceOrVariationIndex {
        match self {
            DeviceOrVariationIndex::PendingVariationIndex(p) => {
                DeviceOrVariationIndex::VariationIndex(
                    VariationIndex { delta_set_index: key_map[p.delta_set_id@] },
                )
            },
            other => other,
        }
    }

    /// Replaces a pending reference by the final index of its list.
    ///
    /// The handle of a pending reference must be one that the store's builder
    /// gave out.
    pub fn remap_variation_indices(&mut self, key_map: &VariationIndexRemapping)
        requires
            *old(self) matches DeviceOrVariationIndex::PendingVariationIndex(p)
                ==> p.delta_set_id@ < key_map@.len(),
        ensures
            *final(self) == old(self).remapped(key_map@),
    {
        let pending: Option<PendingVariationIndex> = match self {
            DeviceOrVariationIndex::PendingVariationIndex(p) => Some(*p),
            _ => None,
        };
        match pending {
            Some(p) => {
                match key_map.get(p.delta_set_id) {
                    Some(index) => {
                        *self = DeviceOrVariationIndex::VariationIndex(index);
                    },
                    None => {},
                }
            },
            None => {},
        }
    }
}

} // verus!
