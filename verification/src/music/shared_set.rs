//! The room's shared, causally edited pitch set.
//!
//! This is deliberately not partitioned by peer. Every authorized member may
//! add or remove any pitch. The causal-history fold supplies observed-remove
//! semantics, so a departed or reidentified peer never owns an unremovable part
//! of the sounding set.

use crate::collections::SortedSet;
use crate::music::tuning::{TunedDegree, TunedPeriodicPitch};
use vstd::prelude::*;

verus! {

#[derive(Debug, PartialEq, Eq)]
pub struct SharedPitchSet {
    pub pitch_classes: SortedSet<TunedDegree>,
    pub pitches: SortedSet<TunedPeriodicPitch>,
}

impl SharedPitchSet {
    pub fn is_empty(&self) -> (empty: bool)
        ensures
            empty == (self.pitch_classes@ == Set::<TunedDegree>::empty() && self.pitches@
                == Set::<TunedPeriodicPitch>::empty()),
    {
        self.pitch_classes.is_empty() && self.pitches.is_empty()
    }
}

impl Default for SharedPitchSet {
    fn default() -> (set: Self)
        ensures
            set.pitch_classes@ == Set::<TunedDegree>::empty(),
            set.pitches@ == Set::<TunedPeriodicPitch>::empty(),
    {
        SharedPitchSet { pitch_classes: SortedSet::new(), pitches: SortedSet::new() }
    }
}

} // verus!
