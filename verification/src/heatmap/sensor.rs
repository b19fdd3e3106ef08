//! The export order of the touch sensors.
use vstd::prelude::*;
use crate::insn::{Key, TouchSensor};

verus! {

/// Total number of touch sensors.
pub const NUM_SENSORS: usize = 33;

/// The export position of a sensor: A1..A8, B1..B8, C, D1..D8, E1..E8 give 0..32.
pub open spec fn spec_sensor_index(sensor: TouchSensor) -> nat {
    match sensor {
        TouchSensor::A(k) => k.spec_index(),
        TouchSensor::B(k) => k.spec_index() + 8,
        TouchSensor::C => 16,
        TouchSensor::D(k) => k.spec_index() + 17,
        TouchSensor::E(k) => k.spec_index() + 25,
    }
}

/// The sensor at a given export position, for positions below 33.
pub open spec fn spec_sensor_at(n: int) -> Option<TouchSensor> {
    if 0 <= n < 8 {
        Some(TouchSensor::A(Key::spec_from_index(n)->0))
    } else if 8 <= n < 16 {
        Some(TouchSensor::B(Key::spec_from_index(n - 8)->0))
    } else if n == 16 {
        Some(TouchSensor::C)
    } else if 17 <= n < 25 {
        Some(TouchSensor::D(Key::spec_from_index(n - 17)->0))
    } else if 25 <= n < 33 {
        Some(TouchSensor::E(Key::spec_from_index(n - 25)->0))
    } else {
        None
    }
}

/// Global export index for a touch sensor.
///
/// This ordering is the layout of the exported `[T, 33, C]` tensors:
/// A1..A8, B1..B8, C, D1..D8, E1..E8.
pub fn sensor_index(sensor: &TouchSensor) -> (r: u8)
    ensures
        r == spec_sensor_index(*sensor),
        (r as usize) < NUM_SENSORS,
{
    match sensor {
        TouchSensor::A(k) => k.index(),
        TouchSensor::B(k) => k.index() + 8,
        TouchSensor::C => 16,
        TouchSensor::D(k) => k.index() + 17,
        TouchSensor::E(k) => k.index() + 25,
    }
}

/// The export order is a one-to-one correspondence between the 33 sensors and `0..33`:
/// every sensor gets a position below 33, distinct sensors get distinct positions, and
/// every position below 33 belongs to a sensor.
pub proof fn lemma_sensor_index_bijective(s1: TouchSensor, s2: TouchSensor, n: int)
    ensures
        spec_sensor_index(s1) < 33,
        spec_sensor_index(s1) == spec_sensor_index(s2) ==> s1 == s2,
        spec_sensor_at(spec_sensor_index(s1) as int) == Some(s1),
        0 <= n < 33 ==> (spec_sensor_at(n) matches Some(s) && spec_sensor_index(s) == n),
{
    crate::insn::lemma_key_index_roundtrip(Key::K1, n);
    crate::insn::lemma_key_index_roundtrip(Key::K1, n - 8);
    crate::insn::lemma_key_index_roundtrip(Key::K1, n - 17);
    crate::insn::lemma_key_index_roundtrip(Key::K1, n - 25);
    match s1 {
        TouchSensor::A(k) => crate::insn::lemma_key_index_roundtrip(k, 0),
        TouchSensor::B(k) => crate::insn::lemma_key_index_roundtrip(k, 0),
        TouchSensor::C => {},
        TouchSensor::D(k) => crate::insn::lemma_key_index_roundtrip(k, 0),
        TouchSensor::E(k) => crate::insn::lemma_key_index_roundtrip(k, 0),
    }
}

} // verus!
