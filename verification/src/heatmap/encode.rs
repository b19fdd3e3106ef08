//! The feature layout of the exported heatmap frames: which column of a frame counts
//! what.
//!
//! - `0..8`: tap counts for keys A1..A8
//! - `8..41`: touch counts for sensors A1..A8, B1..B8, C, D1..D8, E1..E8
//! - `41..43`: two-hand hold/touch-hold occupancy ratios
//! - `43..76`: slide occupancy ratios, in the same 33-sensor order as `sensor_index()`
use vstd::prelude::*;
use crate::heatmap::sensor::{sensor_index, spec_sensor_index, NUM_SENSORS};
use crate::insn::{Key, TouchSensor};

verus! {

pub const NUM_TAP_FEATURES: usize = 8;
pub const NUM_TOUCH_FEATURES: usize = NUM_SENSORS;
pub const NUM_HOLD_FEATURES: usize = 2;
pub const NUM_SLIDE_FEATURES: usize = NUM_SENSORS;

pub const TAP_FEATURE_OFFSET: usize = 0;
pub const TOUCH_FEATURE_OFFSET: usize = TAP_FEATURE_OFFSET + NUM_TAP_FEATURES;
pub const HOLD_FEATURE_OFFSET: usize = TOUCH_FEATURE_OFFSET + NUM_TOUCH_FEATURES;
pub const SLIDE_FEATURE_OFFSET: usize = HOLD_FEATURE_OFFSET + NUM_HOLD_FEATURES;
pub const NUM_FEATURES: usize = SLIDE_FEATURE_OFFSET + NUM_SLIDE_FEATURES;

/// Kept as an export-dimension alias for older call sites.
pub const NUM_CHANNELS: usize = NUM_FEATURES;

/// The column counting taps (and hold heads) on a key.
pub fn tap_feature(key: Key) -> (r: usize)
    ensures
        r == TAP_FEATURE_OFFSET + key.spec_index(),
{
    TAP_FEATURE_OFFSET + key.index() as usize
}

/// The column counting touches (and touch-hold heads) on a sensor.
pub fn touch_feature(sensor: &TouchSensor) -> (r: usize)
    ensures
        r == TOUCH_FEATURE_OFFSET + spec_sensor_index(*sensor),
{
    TOUCH_FEATURE_OFFSET + sensor_index(sensor) as usize
}

/// The column holding the slide occupancy of a sensor.
pub fn slide_feature(sensor: &TouchSensor) -> (r: usize)
    ensures
        r == SLIDE_FEATURE_OFFSET + spec_sensor_index(*sensor),
{
    SLIDE_FEATURE_OFFSET + sensor_index(sensor) as usize
}

/// Whether a column counts notes (taps, touches and their holds' heads) rather than
/// holding an occupancy ratio.
pub fn is_count_feature(feature: usize) -> (r: bool)
    ensures
        r == (feature < HOLD_FEATURE_OFFSET),
{
    feature < HOLD_FEATURE_OFFSET
}

/// The layout gives each kind of column its own range inside a frame of `NUM_FEATURES`
/// columns: tap columns below the touch columns, below the two hold columns, below the
/// slide columns; keys and sensors get distinct columns, and count columns are exactly
/// the tap and touch ones.
pub proof fn lemma_feature_layout(k1: Key, k2: Key, s1: TouchSensor, s2: TouchSensor)
    ensures
        NUM_FEATURES == 76,
        TAP_FEATURE_OFFSET + k1.spec_index() < TOUCH_FEATURE_OFFSET,
        TOUCH_FEATURE_OFFSET + spec_sensor_index(s1) < HOLD_FEATURE_OFFSET,
        HOLD_FEATURE_OFFSET + NUM_HOLD_FEATURES == SLIDE_FEATURE_OFFSET,
        SLIDE_FEATURE_OFFSET + spec_sensor_index(s1) < NUM_FEATURES,
        k1.spec_index() == k2.spec_index() ==> k1 == k2,
        spec_sensor_index(s1) == spec_sensor_index(s2) ==> s1 == s2,
{
    crate::heatmap::sensor::lemma_sensor_index_bijective(s1, s2, 0);
    crate::insn::lemma_key_index_roundtrip(k1, 0);
    crate::insn::lemma_key_index_roundtrip(k2, 0);
}

} // verus!
