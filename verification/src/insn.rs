//! Basic chart vocabulary: buttons (keys), touch sensors, note types,
//! difficulties and levels.
use vstd::prelude::*;
use crate::text::{digit_char, push_char, push_decimal, spec_decimal};

verus! {

/// One of the eight buttons around the ring, numbered clockwise from the top right.
/// `K1` is button 1 (index 0), `K8` is button 8 (index 7).
#[derive(Clone, Copy, Debug, PartialEq, Eq, Structural)]
pub enum Key {
    K1,
    K2,
    K3,
    K4,
    K5,
    K6,
    K7,
    K8,
}

impl Key {
    /// The zero-based index of the key, in `0..8`.
    pub open spec fn spec_index(self) -> nat {
        match self {
            Key::K1 => 0,
            Key::K2 => 1,
            Key::K3 => 2,
            Key::K4 => 3,
            Key::K5 => 4,
            Key::K6 => 5,
            Key::K7 => 6,
            Key::K8 => 7,
        }
    }

    /// The key with the given zero-based index, if the index is below 8.
    pub open spec fn spec_from_index(i: int) -> Option<Key> {
        if i == 0 {
            Some(Key::K1)
        } else if i == 1 {
            Some(Key::K2)
        } else if i == 2 {
            Some(Key::K3)
        } else if i == 3 {
            Some(Key::K4)
        } else if i == 4 {
            Some(Key::K5)
        } else if i == 5 {
            Some(Key::K6)
        } else if i == 6 {
            Some(Key::K7)
        } else if i == 7 {
            Some(Key::K8)
        } else {
            None
        }
    }

    /// Builds a key from its zero-based index; `None` unless `index < 8`.
    pub fn new(index: u8) -> (res: Option<Key>)
        ensures
            res == Key::spec_from_index(index as int),
            res matches Some(k) ==> k.spec_index() == index,
            res is Some <==> index < 8,
    {
        match index {
            0 => Some(Key::K1),
            1 => Some(Key::K2),
            2 => Some(Key::K3),
            3 => Some(Key::K4),
            4 => Some(Key::K5),
            5 => Some(Key::K6),
            6 => Some(Key::K7),
            7 => Some(Key::K8),
            _ => None,
        }
    }

    /// The zero-based index of the key.
    pub fn index(&self) -> (r: u8)
        ensures
            r == self.spec_index(),
            r < 8,
    {
        match self {
            Key::K1 => 0,
            Key::K2 => 1,
            Key::K3 => 2,
            Key::K4 => 3,
            Key::K5 => 4,
            Key::K6 => 5,
            Key::K7 => 6,
            Key::K8 => 7,
        }
    }
}

/// Each index in `0..8` names exactly one key, and each key has its index.
pub proof fn lemma_key_index_roundtrip(k: Key, i: int)
    ensures
        Key::spec_from_index(k.spec_index() as int) == Some(k),
        0 <= i < 8 ==> (Key::spec_from_index(i) matches Some(k2) && k2.spec_index() == i),
        !(0 <= i < 8) ==> Key::spec_from_index(i) is None,
{
}

/// A touch sensor of the touch panel: the rings A, B, D, E hold eight sensors each
/// (indexed by a key position) and C is the single centre sensor.
#[derive(Clone, Copy, Debug, PartialEq, Eq, Structural)]
pub enum TouchSensor {
    A(Key),
    B(Key),
    C,
    D(Key),
    E(Key),
}

impl TouchSensor {
    /// The group letter of the sensor.
    pub open spec fn spec_group(self) -> char {
        match self {
            TouchSensor::A(_) => 'A',
            TouchSensor::B(_) => 'B',
            TouchSensor::C => 'C',
            TouchSensor::D(_) => 'D',
            TouchSensor::E(_) => 'E',
        }
    }

    /// The zero-based position inside the group; the centre sensor has none.
    pub open spec fn spec_index(self) -> Option<u8> {
        match self {
            TouchSensor::A(k) => Some(k.spec_index() as u8),
            TouchSensor::B(k) => Some(k.spec_index() as u8),
            TouchSensor::C => None,
            TouchSensor::D(k) => Some(k.spec_index() as u8),
            TouchSensor::E(k) => Some(k.spec_index() as u8),
        }
    }

    /// The sensor with the given group letter and position, if the pair names one.
    pub open spec fn spec_new(group: char, index: Option<u8>) -> Option<TouchSensor> {
        match index {
            None => if group == 'C' {
                Some(TouchSensor::C)
            } else {
                None
            },
            Some(i) => match Key::spec_from_index(i as int) {
                None => None,
                Some(k) => if group == 'A' {
                    Some(TouchSensor::A(k))
                } else if group == 'B' {
                    Some(TouchSensor::B(k))
                } else if group == 'D' {
                    Some(TouchSensor::D(k))
                } else if group == 'E' {
                    Some(TouchSensor::E(k))
                } else {
                    None
                },
            },
        }
    }

    /// Builds a sensor from its group letter and zero-based position:
    /// `A`, `B`, `D`, `E` need a position below 8, `C` needs none.
    pub fn new(group: char, index: Option<u8>) -> (res: Option<TouchSensor>)
        ensures
            res == TouchSensor::spec_new(group, index),
            res matches Some(s) ==> s.spec_group() == group && s.spec_index() == index,
    {
        match index {
            None => if group == 'C' {
                Some(TouchSensor::C)
            } else {
                None
            },
            Some(i) => match Key::new(i) {
                None => None,
                Some(k) => if group == 'A' {
                    Some(TouchSensor::A(k))
                } else if group == 'B' {
                    Some(TouchSensor::B(k))
                } else if group == 'D' {
                    Some(TouchSensor::D(k))
                } else if group == 'E' {
                    Some(TouchSensor::E(k))
                } else {
                    None
                },
            },
        }
    }

    /// The group letter of the sensor.
    pub fn group(&self) -> (r: char)
        ensures
            r == self.spec_group(),
    {
        match self {
            TouchSensor::A(_) => 'A',
            TouchSensor::B(_) => 'B',
            TouchSensor::C => 'C',
            TouchSensor::D(_) => 'D',
            TouchSensor::E(_) => 'E',
        }
    }

    /// The zero-based position inside the group; `None` for the centre sensor.
    pub fn index(&self) -> (r: Option<u8>)
        ensures
            r == self.spec_index(),
    {
        match self {
            TouchSensor::A(k) => Some(k.index()),
            TouchSensor::B(k) => Some(k.index()),
            TouchSensor::C => None,
            TouchSensor::D(k) => Some(k.index()),
            TouchSensor::E(k) => Some(k.index()),
        }
    }
}

impl TouchSensor {
    /// The written name of the sensor: the group letter followed by the one-based
    /// position (`A1` .. `E8`), or `C` for the centre sensor.
    pub open spec fn spec_name(self) -> Seq<char> {
        match self.spec_index() {
            None => seq![self.spec_group()],
            Some(i) => seq![self.spec_group(), digit_char(i as nat + 1)],
        }
    }

    /// The written name of the sensor (`A1` .. `E8`, or `C`).
    pub fn name(&self) -> (r: String)
        ensures
            r@ == self.spec_name(),
    {
        let mut s = String::new();
        push_char(&mut s, self.group());
        match self.index() {
            None => {
                assert(s@ =~= self.spec_name());
            },
            Some(i) => {
                push_decimal(&mut s, i as u64 + 1);
                assert(spec_decimal(i as nat + 1) =~= seq![digit_char(i as nat + 1)]);
                assert(s@ =~= self.spec_name());
            },
        }
        s
    }
}

/// A sensor is determined by its group letter and position.
pub proof fn lemma_touch_sensor_new_roundtrip(s: TouchSensor)
    ensures
        TouchSensor::spec_new(s.spec_group(), s.spec_index()) == Some(s),
{
}

/// The kind of a note instruction, used in diagnostics.
#[derive(Clone, Copy, Debug, PartialEq, Eq, Structural)]
pub enum NoteType {
    Tap,
    Touch,
    Slide,
    Hold,
    TouchHold,
}

/// The seven difficulties of a maidata file, in their file order (`_1` .. `_7`).
#[derive(Clone, Copy, Debug, PartialEq, Eq, Structural)]
pub enum Difficulty {
    Easy,
    Basic,
    Advanced,
    Expert,
    Master,
    ReMaster,
    Original,
}

impl Difficulty {
    /// The number of the difficulty, `1` (Easy) to `7` (Original).
    pub open spec fn spec_number(self) -> u8 {
        match self {
            Difficulty::Easy => 1,
            Difficulty::Basic => 2,
            Difficulty::Advanced => 3,
            Difficulty::Expert => 4,
            Difficulty::Master => 5,
            Difficulty::ReMaster => 6,
            Difficulty::Original => 7,
        }
    }

    /// The difficulty with the given number, if it is in `1..=7`.
    pub open spec fn spec_from_number(n: u8) -> Option<Difficulty> {
        if n == 1 {
            Some(Difficulty::Easy)
        } else if n == 2 {
            Some(Difficulty::Basic)
        } else if n == 3 {
            Some(Difficulty::Advanced)
        } else if n == 4 {
            Some(Difficulty::Expert)
        } else if n == 5 {
            Some(Difficulty::Master)
        } else if n == 6 {
            Some(Difficulty::ReMaster)
        } else if n == 7 {
            Some(Difficulty::Original)
        } else {
            None
        }
    }

    /// The number of the difficulty, `1` (Easy) to `7` (Original).
    pub fn number(&self) -> (r: u8)
        ensures
            r == self.spec_number(),
            1 <= r <= 7,
    {
        match self {
            Difficulty::Easy => 1,
            Difficulty::Basic => 2,
            Difficulty::Advanced => 3,
            Difficulty::Expert => 4,
            Difficulty::Master => 5,
            Difficulty::ReMaster => 6,
            Difficulty::Original => 7,
        }
    }

    /// The difficulty with the given number; `None` outside `1..=7`.
    pub fn from_number(n: u8) -> (r: Option<Difficulty>)
        ensures
            r == Difficulty::spec_from_number(n),
            r is Some <==> 1 <= n <= 7,
            r matches Some(d) ==> d.spec_number() == n,
    {
        match n {
            1 => Some(Difficulty::Easy),
            2 => Some(Difficulty::Basic),
            3 => Some(Difficulty::Advanced),
            4 => Some(Difficulty::Expert),
            5 => Some(Difficulty::Master),
            6 => Some(Difficulty::ReMaster),
            7 => Some(Difficulty::Original),
            _ => None,
        }
    }
}

/// Difficulties and their numbers correspond one to one.
pub proof fn lemma_difficulty_number_roundtrip(d: Difficulty, e: Difficulty)
    ensures
        Difficulty::spec_from_number(d.spec_number()) == Some(d),
        d.spec_number() == e.spec_number() ==> d == e,
{
}

/// The level of a chart: a number, a number with `+`, or a special character.
#[derive(Clone, Copy, Debug, PartialEq, Eq, Structural)]
pub enum Level {
    Normal(u8),
    Plus(u8),
    Char(char),
}

} // verus!
