//! Normalized slide segments: a shape drawn from a start button to a destination button.
use vstd::prelude::*;
use crate::insn::Key;

verus! {

/// The shape of one normalized slide segment.
#[derive(Clone, Copy, Debug, PartialEq, Eq, Structural)]
pub enum NormalizedSlideSegmentShape {
    Straight,
    CircleL,
    CircleR,
    CurveL,
    CurveR,
    ThunderL,
    ThunderR,
    Corner,
    BendL,
    BendR,
    SkipL,
    SkipR,
    Fan,
}

/// One slide segment: a shape from `start` to `destination`.
#[derive(Clone, Copy, Debug, PartialEq, Eq, Structural)]
pub struct NormalizedSlideSegment {
    pub shape: NormalizedSlideSegmentShape,
    pub start: Key,
    pub destination: Key,
}

impl NormalizedSlideSegment {
    pub fn new(shape: NormalizedSlideSegmentShape, start: Key, destination: Key) -> (r: Self)
        ensures
            r.shape == shape,
            r.start == start,
            r.destination == destination,
    {
        NormalizedSlideSegment { shape, start, destination }
    }
}

/// Whether some segment of the track is a fan.
pub open spec fn spec_has_fan(segments: Seq<NormalizedSlideSegment>) -> bool {
    exists|i: int|
        0 <= i < segments.len() && (#[trigger] segments[i]).shape
            == NormalizedSlideSegmentShape::Fan
}

/// Whether some segment of the track is a fan.
pub fn has_fan(segments: &[NormalizedSlideSegment]) -> (r: bool)
    ensures
        r == spec_has_fan(segments@),
{
    let mut i: usize = 0;
    while i < segments.len()
        invariant
            i <= segments@.len(),
            forall|j: int|
                0 <= j < i ==> (#[trigger] segments@[j]).shape != NormalizedSlideSegmentShape::Fan,
        decreases segments@.len() - i,
    {
        if segments[i].shape == NormalizedSlideSegmentShape::Fan {
            assert(segments@[i as int].shape == NormalizedSlideSegmentShape::Fan);
            return true;
        }
        i = i + 1;
    }
    false
}

} // verus!
