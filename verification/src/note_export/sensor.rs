//! Sensor numbering used by the note exporter.
use vstd::prelude::*;
use crate::heatmap::sensor::spec_sensor_index;
use crate::insn::{Key, TouchSensor};
use crate::text::{chars_of, parse_unsigned, spec_parse_unsigned};

verus! {

/// The sensor index of a button: the A-ring sensor in front of it.
pub fn key_to_sensor_idx(key: Key) -> (r: usize)
    ensures
        r == key.spec_index(),
        r == spec_sensor_index(TouchSensor::A(key)),
{
    key.index() as usize
}

/// The sensor index of a touch sensor (A1..A8, B1..B8, C, D1..D8, E1..E8 give 0..32).
pub fn touch_sensor_to_idx(sensor: &TouchSensor) -> (r: usize)
    ensures
        r == spec_sensor_index(*sensor),
{
    let group = sensor.group();
    let idx: usize = match sensor.index() {
        Some(i) => i as usize,
        None => 0,
    };
    if group == 'A' {
        idx
    } else if group == 'B' {
        8 + idx
    } else if group == 'C' {
        16
    } else if group == 'D' {
        17 + idx
    } else {
        25 + idx
    }
}

/// The button counter-clockwise next to `key`.
pub fn left_neighbor(key: Key) -> (r: Key)
    ensures
        r.spec_index() == (key.spec_index() + 7) % 8,
{
    let i = key.index();
    match Key::new((i + 7) % 8) {
        Some(k) => k,
        None => key,
    }
}

/// The button clockwise next to `key`.
pub fn right_neighbor(key: Key) -> (r: Key)
    ensures
        r.spec_index() == (key.spec_index() + 1) % 8,
{
    let i = key.index();
    match Key::new((i + 1) % 8) {
        Some(k) => k,
        None => key,
    }
}

/// Going to the left neighbour and then to the right one (or the other way round)
/// comes back to the same button.
pub proof fn lemma_neighbors_inverse(key: Key, l: Key, r: Key)
    requires
        l.spec_index() == (key.spec_index() + 7) % 8,
        r.spec_index() == (key.spec_index() + 1) % 8,
    ensures
        (l.spec_index() + 1) % 8 == key.spec_index(),
        (r.spec_index() + 7) % 8 == key.spec_index(),
{
}

/// The index offset of a sensor group letter, if it is one of `A`..`E`.
pub open spec fn group_base(g: char) -> Option<nat> {
    if g == 'A' {
        Some(0)
    } else if g == 'B' {
        Some(8)
    } else if g == 'C' {
        Some(16)
    } else if g == 'D' {
        Some(17)
    } else if g == 'E' {
        Some(25)
    } else {
        None
    }
}

/// The names that `parse_sensor_idx` accepts: a group letter `A`..`E`, optionally followed
/// by a number of at least 1 (Rust's `usize` syntax), such that the index fits in `usize`.
pub open spec fn valid_sensor_name(s: Seq<char>) -> bool {
    &&& s.len() >= 1
    &&& group_base(s[0]) is Some
    &&& s.len() > 1 ==> {
        let n = spec_parse_unsigned(s.drop_first(), usize::MAX as nat);
        &&& n is Some
        &&& n->0 >= 1
        &&& s[0] != 'C' ==> group_base(s[0])->0 + n->0 - 1 <= usize::MAX
    }
}

/// The index named by a sensor name: the group offset plus the number minus one;
/// `C` is 16 whatever number follows it.
pub open spec fn spec_parse_sensor_idx(s: Seq<char>) -> nat {
    let idx: nat = if s.len() > 1 {
        (spec_parse_unsigned(s.drop_first(), usize::MAX as nat)->0 - 1) as nat
    } else {
        0
    };
    if s[0] == 'C' {
        16
    } else {
        group_base(s[0])->0 + idx
    }
}

/// Parses a sensor name such as `A1`, `B8`, `C` or `E3` into its sensor index.
pub fn parse_sensor_idx(name: &str) -> (r: usize)
    requires
        valid_sensor_name(name@),
    ensures
        r == spec_parse_sensor_idx(name@),
{
    let v = chars_of(name);
    let group = v[0];
    let idx: usize = if v.len() > 1 {
        assert(v@.subrange(1, v@.len() as int) == v@.drop_first());
        match parse_unsigned(&v, 1, v.len(), usize::MAX as u64) {
            Some(n) => (n - 1) as usize,
            None => 0,
        }
    } else {
        0
    };
    if group == 'A' {
        idx
    } else if group == 'B' {
        8 + idx
    } else if group == 'C' {
        16
    } else if group == 'D' {
        17 + idx
    } else {
        25 + idx
    }
}

/// The name of every sensor (`TouchSensor::name`) is accepted by `parse_sensor_idx` and
/// gives back the sensor's index below 33, the index `touch_sensor_to_idx` and
/// `sensor_index` give, so names written by the exporter and the tensor order agree.
pub proof fn lemma_parse_sensor_name(s: TouchSensor)
    ensures
        valid_sensor_name(s.spec_name()),
        spec_parse_sensor_idx(s.spec_name()) == spec_sensor_index(s),
        spec_parse_sensor_idx(s.spec_name()) < 33,
{
    crate::heatmap::sensor::lemma_sensor_index_bijective(s, s, 0);
    let name = s.spec_name();
    match s.spec_index() {
        None => {},
        Some(i) => {
            let d = name.drop_first();
            assert(d =~= seq![crate::text::digit_char(i as nat + 1)]);
            assert(d.drop_last() =~= Seq::<char>::empty());
            assert(crate::text::digits_value(Seq::<char>::empty()) == 0);
            assert(crate::text::digits_value(d) == crate::text::digits_value(d.drop_last()) * 10
                + crate::text::digit_value(d.last()));
            assert(crate::text::digit_value(crate::text::digit_char(i as nat + 1)) == i + 1);
            assert(crate::text::all_digits(d));
        },
    }
}

/// Parses a sensor name as `parse_sensor_idx` does; `None` exactly for the names it
/// refuses.
pub fn try_parse_sensor_idx(name: &str) -> (r: Option<usize>)
    ensures
        r is Some <==> valid_sensor_name(name@),
        r matches Some(i) ==> i == spec_parse_sensor_idx(name@),
{
    let v = chars_of(name);
    if v.len() == 0 {
        return None;
    }
    let group = v[0];
    if !(group == 'A' || group == 'B' || group == 'C' || group == 'D' || group == 'E') {
        return None;
    }
    if v.len() > 1 {
        assert(v@.subrange(1, v@.len() as int) == v@.drop_first());
        match parse_unsigned(&v, 1, v.len(), usize::MAX as u64) {
            Some(n) => {
                if n < 1 {
                    return None;
                }
                let base: u64 = if group == 'A' {
                    0
                } else if group == 'B' {
                    8
                } else if group == 'C' {
                    0
                } else if group == 'D' {
                    17
                } else {
                    25
                };
                if n - 1 > usize::MAX as u64 - base {
                    return None;
                }
            },
            None => {
                return None;
            },
        }
    }
    Some(parse_sensor_idx(name))
}

/// The index of a raw key number in the sensor order (keys are the A ring).
pub fn _raw_key_index(key: u8) -> (r: usize)
    ensures
        r == key,
{
    key as usize
}

} // verus!
