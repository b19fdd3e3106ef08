//! The sensor-tracking part of slide judgement: which judgement area of the slide path
//! the player has reached, given which touch sensors are pressed.
use vstd::prelude::*;
use crate::heatmap::sensor::{sensor_index, spec_sensor_index, NUM_SENSORS};
use crate::insn::TouchSensor;

verus! {

/// Which of the 33 touch sensors are pressed at one moment.
pub struct TouchSensorStates {
    on: Vec<bool>,
}

impl TouchSensorStates {
    #[verifier::type_invariant]
    spec fn wf(self) -> bool {
        self.on@.len() == 33
    }

    /// Pressed flags in export order (see `sensor_index`).
    pub closed spec fn spec_on(self) -> Seq<bool> {
        self.on@
    }

    /// Whether `s` is pressed.
    pub open spec fn spec_is_on(self, s: TouchSensor) -> bool {
        self.spec_on()[spec_sensor_index(s) as int]
    }

    /// No sensor pressed.
    pub fn new() -> (r: TouchSensorStates)
        ensures
            forall|s: TouchSensor| !r.spec_is_on(s),
            r.spec_on().len() == 33,
    {
        let mut on: Vec<bool> = Vec::new();
        let mut i: usize = 0;
        while i < NUM_SENSORS
            invariant
                i <= 33,
                on@.len() == i,
                forall|j: int| 0 <= j < i ==> !on@[j],
            decreases 33 - i,
        {
            on.push(false);
            i = i + 1;
        }
        let r = TouchSensorStates { on };
        assert forall|s: TouchSensor| !r.spec_is_on(s) by {
            crate::heatmap::sensor::lemma_sensor_index_bijective(s, s, 0);
        }
        r
    }

    /// Presses or releases one sensor.
    pub fn set(&mut self, sensor: TouchSensor, on: bool)
        ensures
            final(self).spec_is_on(sensor) == on,
            forall|s: TouchSensor| s != sensor ==> final(self).spec_is_on(s) == old(self).spec_is_on(s),
            final(self).spec_on().len() == 33,
    {
        proof {
            use_type_invariant(&*self);
        }
        let i = sensor_index(&sensor) as usize;
        let mut v = self.on.clone();
        assert(v@ =~= self.on@);
        v.set(i, on);
        self.on = v;
        proof {
            assert forall|s: TouchSensor| s != sensor implies final(self).spec_is_on(s)
                == old(self).spec_is_on(s) by {
                crate::heatmap::sensor::lemma_sensor_index_bijective(s, sensor, 0);
            }
        }
    }

    /// Whether `sensor` is pressed.
    pub fn sensor_is_on(&self, sensor: TouchSensor) -> (r: bool)
        ensures
            r == self.spec_is_on(sensor),
    {
        proof {
            use_type_invariant(self);
        }
        self.on[sensor_index(&sensor) as usize]
    }
}

/// The abstract state of a slide being judged.
pub struct SlideState {
    /// The judgement areas of the path, in order; each is a set of sensors.
    pub path: Seq<Seq<TouchSensor>>,
    /// Area 1 may not be skipped over.
    pub check_sensor_1: bool,
    /// Area 3 may not be skipped over.
    pub check_sensor_3: bool,
    /// The area reached so far; the path length once the slide is complete.
    pub index: nat,
    /// Whether a sensor of area `index` is being held.
    pub is_on: bool,
    /// The held sensor.
    pub sub_sensor: Option<TouchSensor>,
}

/// The first sensor of `area` that is pressed.
pub open spec fn first_on(area: Seq<TouchSensor>, states: TouchSensorStates) -> Option<TouchSensor>
    decreases area.len(),
{
    if area.len() == 0 {
        None
    } else if states.spec_is_on(area[0]) {
        Some(area[0])
    } else {
        first_on(area.drop_first(), states)
    }
}

/// One attempt to progress at area `index`. Not holding: if a sensor of the area is pressed,
/// the slide holds it there (and completes if that is the last area). Holding: when the
/// held sensor is released, the slide moves on to the next area. Returns whether the
/// state changed.
pub open spec fn spec_check_sensor(st: SlideState, states: TouchSensorStates, index: nat, is_on: bool) -> (
    SlideState,
    bool,
) {
    if index >= st.path.len() {
        (st, false)
    } else if !is_on {
        match first_on(st.path[index as int], states) {
            Some(s) => (
                SlideState {
                    index: if index == st.path.len() - 1 {
                        st.path.len()
                    } else {
                        index
                    },
                    is_on: true,
                    sub_sensor: Some(s),
                    ..st
                },
                true,
            ),
            None => (st, false),
        }
    } else {
        if !states.spec_is_on(st.sub_sensor->0) {
            (SlideState { index: st.index + 1, is_on: false, sub_sensor: None, ..st }, true)
        } else {
            (st, false)
        }
    }
}

/// Whether the area after the current one may be tried directly.
pub open spec fn spec_is_next_sensor_check(st: SlideState) -> bool {
    if st.is_on {
        true
    } else if st.check_sensor_1 && st.index == 1 {
        false
    } else if st.check_sensor_3 && st.index == 3 {
        false
    } else {
        st.path.len() > 3 || st.index + 1 != st.path.len() - 1
    }
}

/// One round: try the current area, then (if allowed and nothing happened) the next one.
pub open spec fn spec_step(st: SlideState, states: TouchSensorStates) -> (SlideState, bool) {
    let (s1, c1) = spec_check_sensor(st, states, st.index, st.is_on);
    if !c1 && spec_is_next_sensor_check(s1) {
        spec_check_sensor(s1, states, s1.index + 1, false)
    } else {
        (s1, c1)
    }
}

/// The consistency of a slide state: the path is non-empty, the index is within it,
/// and a sensor is recorded exactly when one is held.
pub open spec fn state_wf(st: SlideState) -> bool {
    &&& st.path.len() > 0
    &&& st.index <= st.path.len()
    &&& st.is_on <==> st.sub_sensor is Some
}

/// A measure of the work left: two steps per remaining area, one less while holding.
pub open spec fn progress_measure(st: SlideState) -> nat {
    (2 * (st.path.len() - st.index) + if st.is_on {
        0int
    } else {
        1int
    }) as nat
}

/// One check keeps the slide state consistent and, when it changes something, makes progress.
pub proof fn lemma_check_sensor(st: SlideState, states: TouchSensorStates, index: nat, is_on: bool)
    requires
        state_wf(st),
        is_on ==> index == st.index && st.is_on,
        !is_on ==> (index == st.index && !st.is_on) || index == st.index + 1,
    ensures
        ({
            let (s1, c) = spec_check_sensor(st, states, index, is_on);
            &&& state_wf(s1)
            &&& s1.path == st.path
            &&& s1.check_sensor_1 == st.check_sensor_1
            &&& s1.check_sensor_3 == st.check_sensor_3
            &&& s1.index >= st.index
            &&& c ==> progress_measure(s1) < progress_measure(st)
            &&& !c ==> s1 == st
        }),
{
    if index < st.path.len() && !is_on {
        lemma_first_on(st.path[index as int], states);
    }
}

/// The first pressed sensor of an area is one of its sensors and pressed; without one, none is.
pub proof fn lemma_first_on(area: Seq<TouchSensor>, states: TouchSensorStates)
    ensures
        first_on(area, states) matches Some(s) ==> area.contains(s) && states.spec_is_on(s),
        first_on(area, states) is None ==> forall|i: int|
            0 <= i < area.len() ==> !states.spec_is_on(#[trigger] area[i]),
    decreases area.len(),
{
    if area.len() > 0 {
        lemma_first_on(area.drop_first(), states);
        if !states.spec_is_on(area[0]) {
            if let Some(s) = first_on(area.drop_first(), states) {
                let j = choose|j: int| 0 <= j < area.drop_first().len() && area.drop_first()[j] == s;
                assert(area[j + 1] == s);
            } else {
                assert forall|i: int| 0 <= i < area.len() implies !states.spec_is_on(
                    #[trigger] area[i],
                ) by {
                    if i > 0 {
                        assert(area[i] == area.drop_first()[i - 1]);
                    }
                }
            }
        } else {
            assert(area[0] == area[0]);
        }
    }
}

/// One round keeps the slide state consistent and, when it changes something, makes progress.
pub proof fn lemma_step(st: SlideState, states: TouchSensorStates)
    requires
        state_wf(st),
        st.index < st.path.len(),
    ensures
        ({
            let (s1, c) = spec_step(st, states);
            &&& state_wf(s1)
            &&& s1.path == st.path
            &&& s1.check_sensor_1 == st.check_sensor_1
            &&& s1.check_sensor_3 == st.check_sensor_3
            &&& s1.index >= st.index
            &&& c ==> progress_measure(s1) < progress_measure(st)
            &&& !c ==> s1 == st
        }),
{
    lemma_check_sensor(st, states, st.index, st.is_on);
    let (s1, c1) = spec_check_sensor(st, states, st.index, st.is_on);
    if !c1 && spec_is_next_sensor_check(s1) {
        lemma_check_sensor(s1, states, s1.index + 1, false);
    }
}

/// The state after following the sensors as far as they allow: rounds are repeated
/// while they change something and the slide is not complete.
pub open spec fn spec_advance(st: SlideState, states: TouchSensorStates) -> SlideState
    decreases progress_measure(st),
{
    if state_wf(st) && st.index < st.path.len() {
        let (s1, c) = spec_step(st, states);
        proof {
            lemma_step(st, states);
        }
        if !c || s1.index == s1.path.len() {
            s1
        } else {
            spec_advance(s1, states)
        }
    } else {
        st
    }
}

/// How a slide ends when time runs out before it is complete.
#[derive(Clone, Copy, Debug, PartialEq, Eq, Structural)]
pub enum LateResult {
    /// Only the last area was missing.
    LateGood,
    /// More than the last area was missing.
    TooLate,
}

/// The sensor-tracking state of a slide being judged.
pub struct SlideJudge {
    path: Vec<Vec<TouchSensor>>,
    judge_check_sensor_1: bool,
    judge_check_sensor_3: bool,
    judge_index: usize,
    judge_sub_sensor: Option<TouchSensor>,
}

impl View for SlideJudge {
    type V = SlideState;

    closed spec fn view(&self) -> SlideState {
        SlideState {
            path: self.path@.map_values(|a: Vec<TouchSensor>| a@),
            check_sensor_1: self.judge_check_sensor_1,
            check_sensor_3: self.judge_check_sensor_3,
            index: self.judge_index as nat,
            is_on: self.judge_sub_sensor is Some,
            sub_sensor: self.judge_sub_sensor,
        }
    }
}

impl SlideJudge {
    #[verifier::type_invariant]
    spec fn inv(self) -> bool {
        state_wf(self@)
    }

    /// A slide at the start of `path`, holding nothing; `judge_check_sensor_1` and
    /// `judge_check_sensor_3` forbid skipping areas 1 and 3.
    pub fn new(path: Vec<Vec<TouchSensor>>, judge_check_sensor_1: bool, judge_check_sensor_3: bool) -> (r: SlideJudge)
        requires
            path@.len() > 0,
        ensures
            r@ == (SlideState {
                path: path@.map_values(|a: Vec<TouchSensor>| a@),
                check_sensor_1: judge_check_sensor_1,
                check_sensor_3: judge_check_sensor_3,
                index: 0,
                is_on: false,
                sub_sensor: None,
            }),
    {
        SlideJudge {
            path,
            judge_check_sensor_1,
            judge_check_sensor_3,
            judge_index: 0,
            judge_sub_sensor: None,
        }
    }

    /// A slide that may skip any area.
    pub fn from_path(path: Vec<Vec<TouchSensor>>) -> (r: SlideJudge)
        requires
            path@.len() > 0,
        ensures
            r@ == (SlideState {
                path: path@.map_values(|a: Vec<TouchSensor>| a@),
                check_sensor_1: false,
                check_sensor_3: false,
                index: 0,
                is_on: false,
                sub_sensor: None,
            }),
    {
        Self::new(path, false, false)
    }

    /// The area reached so far (the path length once complete).
    pub fn judge_index(&self) -> (r: usize)
        ensures
            r == self@.index,
    {
        self.judge_index
    }

    /// Whether a sensor of the current area is being held.
    pub fn judge_is_on(&self) -> (r: bool)
        ensures
            r == self@.is_on,
    {
        self.judge_sub_sensor.is_some()
    }

    /// The held sensor.
    pub fn judge_sub_sensor(&self) -> (r: Option<TouchSensor>)
        ensures
            r == self@.sub_sensor,
    {
        self.judge_sub_sensor
    }

    /// The number of judgement areas.
    pub fn path_len(&self) -> (r: usize)
        ensures
            r == self@.path.len(),
    {
        self.path.len()
    }

    /// Whether every area has been passed.
    pub fn is_complete(&self) -> (r: bool)
        ensures
            r == (self@.index == self@.path.len()),
    {
        self.judge_index == self.path.len()
    }

    fn first_on_exec(&self, states: &TouchSensorStates, index: usize) -> (r: Option<TouchSensor>)
        requires
            index < self@.path.len(),
        ensures
            r == first_on(self@.path[index as int], *states),
    {
        let area = &self.path[index];
        let ghost a = area@;
        assert(self@.path[index as int] == a);
        let mut i: usize = 0;
        assert(a.skip(0) == a);
        while i < area.len()
            invariant
                i <= a.len(),
                a == area@,
                index < self@.path.len(),
                self@.path[index as int] == a,
                first_on(a, *states) == first_on(a.skip(i as int), *states),
            decreases a.len() - i,
        {
            assert(a.skip(i as int)[0] == a[i as int]);
            if states.sensor_is_on(area[i]) {
                assert(first_on(a.skip(i as int), *states) == Some(a[i as int]));
                return Some(area[i]);
            }
            assert(a.skip(i as int).drop_first() == a.skip(i + 1));
            i = i + 1;
        }
        assert(a.skip(i as int).len() == 0);
        None
    }

    /// One attempt to progress at area `index` (see `spec_check_sensor`).
    fn check_sensor(&mut self, states: &TouchSensorStates, index: usize, is_on: bool) -> (r: bool)
        requires
            is_on ==> index == old(self)@.index && old(self)@.is_on,
            !is_on ==> (index == old(self)@.index && !old(self)@.is_on) || index == old(self)@.index
                + 1,
        ensures
            (final(self)@, r) == spec_check_sensor(old(self)@, *states, index as nat, is_on),
    {
        proof {
            use_type_invariant(&*self);
            lemma_check_sensor(self@, *states, index as nat, is_on);
        }
        if index >= self.path.len() {
            return false;
        }
        if !is_on {
            match self.first_on_exec(states, index) {
                Some(sensor) => {
                    let last = index == self.path.len() - 1;
                    self.judge_index = if last {
                        self.path.len()
                    } else {
                        index
                    };
                    self.judge_sub_sensor = Some(sensor);
                    true
                },
                None => false,
            }
        } else {
            let held = match self.judge_sub_sensor {
                Some(s) => s,
                None => {
                    return false;
                },
            };
            if !states.sensor_is_on(held) {
                self.judge_index = self.judge_index + 1;
                self.judge_sub_sensor = None;
                true
            } else {
                false
            }
        }
    }

    /// Whether the area after the current one may be tried directly (see
    /// `spec_is_next_sensor_check`).
    pub fn is_next_sensor_check(&self) -> (r: bool)
        ensures
            r == spec_is_next_sensor_check(self@),
    {
        proof {
            use_type_invariant(self);
        }
        if self.judge_sub_sensor.is_some() {
            return true;
        }
        if self.judge_check_sensor_1 && self.judge_index == 1 {
            return false;
        }
        if self.judge_check_sensor_3 && self.judge_index == 3 {
            return false;
        }
        self.path.len() > 3 || self.judge_index + 1 != self.path.len() - 1
    }

    /// Follows the pressed sensors as far as they allow (see `spec_advance`).
    pub fn advance(&mut self, states: &TouchSensorStates)
        ensures
            final(self)@ == spec_advance(old(self)@, *states),
    {
        proof {
            use_type_invariant(&*self);
        }
        if self.judge_index >= self.path.len() {
            return;
        }
        loop
            invariant
                state_wf(self@),
                self@.index < self@.path.len(),
                spec_advance(old(self)@, *states) == spec_advance(self@, *states),
            decreases progress_measure(self@),
        {
            proof {
                use_type_invariant(&*self);
                lemma_step(self@, *states);
            }
            let ghost before = self@;
            let idx = self.judge_index;
            let on = self.judge_sub_sensor.is_some();
            let mut changed = self.check_sensor(states, idx, on);
            if !changed && self.is_next_sensor_check() {
                assert(self@ == before);
                let len = self.path.len();
                assert(self@.path.len() == len);
                let next = self.judge_index + 1;
                changed = self.check_sensor(states, next, false);
            }
            assert((self@, changed) == spec_step(before, *states));
            if !changed || self.judge_index == self.path.len() {
                return;
            }
        }
    }

    /// The result when time runs out before completion: `LateGood` if only the last
    /// area is missing, `TooLate` otherwise.
    pub fn late_result(&self) -> (r: LateResult)
        requires
            self@.index < self@.path.len(),
        ensures
            r == (if self@.index + 1 == self@.path.len() {
                LateResult::LateGood
            } else {
                LateResult::TooLate
            }),
    {
        proof {
            use_type_invariant(self);
            assert(self@.path.len() == self.path@.len());
        }
        let len = self.path.len();
        if self.judge_index + 1 == len {
            LateResult::LateGood
        } else {
            LateResult::TooLate
        }
    }
}

/// A fan slide: one slide per arm of the fan, judged side by side.
pub struct FanSlide {
    pub sub_slides: Vec<SlideJudge>,
}

impl FanSlide {
    /// A fan slide made of the given arms.
    pub fn new(sub_slides: Vec<SlideJudge>) -> (r: FanSlide)
        ensures
            r.sub_slides@ == sub_slides@,
    {
        FanSlide { sub_slides }
    }

    /// Advances every arm on the same sensor states (see `SlideJudge::advance`).
    pub fn advance(&mut self, states: &TouchSensorStates)
        ensures
            final(self).sub_slides@.len() == old(self).sub_slides@.len(),
            forall|i: int|
                0 <= i < old(self).sub_slides@.len() ==> (#[trigger] final(self).sub_slides@[i])@
                    == spec_advance(old(self).sub_slides@[i]@, *states),
    {
        let mut rest: Vec<SlideJudge> = Vec::new();
        std::mem::swap(&mut rest, &mut self.sub_slides);
        let ghost orig = rest@;
        let n = rest.len();
        let mut done: Vec<SlideJudge> = Vec::new();
        let mut i: usize = 0;
        while i < n
            invariant
                n == orig.len(),
                i <= n,
                rest@ == orig.skip(i as int),
                done@.len() == i,
                forall|j: int| 0 <= j < i ==> (#[trigger] done@[j])@ == spec_advance(orig[j]@, *states),
            decreases n - i,
        {
            let mut arm = rest.remove(0);
            assert(arm == orig[i as int]);
            arm.advance(states);
            done.push(arm);
            assert(rest@ =~= orig.skip(i + 1));
            i = i + 1;
        }
        self.sub_slides = done;
    }

    /// Whether every arm has been passed to its end.
    pub fn is_complete(&self) -> (r: bool)
        ensures
            r == forall|i: int|
                0 <= i < self.sub_slides@.len() ==> (#[trigger] self.sub_slides@[i])@.index
                    == self.sub_slides@[i]@.path.len(),
    {
        let mut i: usize = 0;
        while i < self.sub_slides.len()
            invariant
                i <= self.sub_slides@.len(),
                forall|j: int|
                    0 <= j < i ==> (#[trigger] self.sub_slides@[j])@.index
                        == self.sub_slides@[j]@.path.len(),
            decreases self.sub_slides@.len() - i,
        {
            if !self.sub_slides[i].is_complete() {
                return false;
            }
            i = i + 1;
        }
        true
    }
}

/// Advancing never moves a slide backwards and keeps its state consistent: the area
/// index only grows, and the path and skip rules stay as they were.
pub proof fn lemma_advance_monotone(st: SlideState, states: TouchSensorStates)
    requires
        state_wf(st),
    ensures
        state_wf(spec_advance(st, states)),
        spec_advance(st, states).index >= st.index,
        spec_advance(st, states).path == st.path,
        spec_advance(st, states).check_sensor_1 == st.check_sensor_1,
        spec_advance(st, states).check_sensor_3 == st.check_sensor_3,
    decreases progress_measure(st),
{
    if st.index < st.path.len() {
        lemma_step(st, states);
        let (s1, c) = spec_step(st, states);
        if c && s1.index != s1.path.len() {
            lemma_advance_monotone(s1, states);
        }
    }
}

/// Advancing stops only when it can go no further: either the slide is complete, or one
/// more round changes nothing.
pub proof fn lemma_advance_stable(st: SlideState, states: TouchSensorStates)
    requires
        state_wf(st),
    ensures
        ({
            let r = spec_advance(st, states);
            r.index == r.path.len() || !spec_step(r, states).1
        }),
    decreases progress_measure(st),
{
    if st.index < st.path.len() {
        lemma_step(st, states);
        let (s1, c) = spec_step(st, states);
        if c && s1.index != s1.path.len() {
            lemma_advance_stable(s1, states);
        } else if !c {
            assert(s1 == st);
        }
    }
}

/// With no sensor pressed, a slide that holds nothing does not move.
pub proof fn lemma_advance_idle(st: SlideState, states: TouchSensorStates)
    requires
        state_wf(st),
        !st.is_on,
        forall|s: TouchSensor| !states.spec_is_on(s),
    ensures
        spec_advance(st, states) == st,
{
    if st.index < st.path.len() {
        lemma_first_on(st.path[st.index as int], states);
        if st.index + 1 < st.path.len() {
            lemma_first_on(st.path[st.index + 1int], states);
        }
        lemma_step(st, states);
    }
}


/// Areas 1 and 3 can be made compulsory: with `check_sensor_1` (`check_sensor_3`) set, a
/// slide waiting at area 1 (area 3) and holding nothing does not move on while no sensor
/// of that area is pressed, whatever is pressed in the areas after it.
pub proof fn lemma_checked_area_not_skipped(st: SlideState, states: TouchSensorStates)
    requires
        state_wf(st),
        !st.is_on,
        st.index < st.path.len(),
        (st.check_sensor_1 && st.index == 1) || (st.check_sensor_3 && st.index == 3),
        forall|i: int| 0 <= i < st.path[st.index as int].len() ==> !states.spec_is_on(
            #[trigger] st.path[st.index as int][i],
        ),
    ensures
        spec_advance(st, states) == st,
{
    lemma_first_on(st.path[st.index as int], states);
    if let Some(s) = first_on(st.path[st.index as int], states) {
        let j = choose|j: int| 0 <= j < st.path[st.index as int].len() && st.path[st.index as int][j] == s;
        assert(!states.spec_is_on(st.path[st.index as int][j]));
    }
    lemma_step(st, states);
}


/// Letting go moves a slide on: a slide holding a sensor of area `i` that is no longer
/// pressed, with nothing else pressed, ends at area `i + 1` holding nothing (complete when
/// `i` was the last area).
pub proof fn lemma_release_moves_on(st: SlideState, states: TouchSensorStates)
    requires
        state_wf(st),
        st.is_on,
        st.index < st.path.len(),
        forall|s: TouchSensor| !states.spec_is_on(s),
    ensures
        spec_advance(st, states) == (SlideState { index: st.index + 1, is_on: false, sub_sensor: None, ..st }),
{
    lemma_step(st, states);
    let s1 = SlideState { index: st.index + 1, is_on: false, sub_sensor: None, ..st };
    assert(spec_step(st, states) == (s1, true));
    if s1.index < s1.path.len() {
        lemma_advance_idle(s1, states);
    }
}

/// From a held sensor, advancing either changes nothing or moves to a later area.
proof fn lemma_advance_from_holding(st: SlideState, states: TouchSensorStates)
    requires
        state_wf(st),
        st.is_on,
    ensures
        spec_advance(st, states) == st || spec_advance(st, states).index > st.index,
    decreases progress_measure(st),
{
    if st.index < st.path.len() {
        lemma_step(st, states);
        let (s1, c) = spec_step(st, states);
        if c {
            lemma_advance_monotone(s1, states);
        }
    }
}

/// A pressed sensor of the area a slide waits at is taken: the slide then holds a sensor
/// of that area or has moved past it.
pub proof fn lemma_press_is_taken(st: SlideState, states: TouchSensorStates, k: int)
    requires
        state_wf(st),
        !st.is_on,
        st.index < st.path.len(),
        0 <= k < st.path[st.index as int].len(),
        states.spec_is_on(st.path[st.index as int][k]),
    ensures
        spec_advance(st, states).index > st.index || (spec_advance(st, states).index == st.index
            && spec_advance(st, states).is_on),
{
    if first_on(st.path[st.index as int], states) is None {
        lemma_first_on(st.path[st.index as int], states);
        assert(!states.spec_is_on(st.path[st.index as int][k]));
    }
    lemma_step(st, states);
    let (s1, c) = spec_step(st, states);
    assert(c);
    if s1.index != s1.path.len() {
        assert(s1.is_on && s1.index == st.index);
        lemma_advance_from_holding(s1, states);
    }
}

} // verus!
