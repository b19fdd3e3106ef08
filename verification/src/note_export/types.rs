//! Slide descriptions written by the note exporter.
use vstd::prelude::*;
use crate::note_export::sensor::{left_neighbor, right_neighbor};
use crate::transform::{NormalizedSlideSegment, NormalizedSlideSegmentShape, has_fan, spec_has_fan};

verus! {

/// `true` exactly for `false`; lets an exporter leave out flags that are not set.
pub fn is_false(b: &bool) -> (r: bool)
    ensures
        r == !*b,
{
    !*b
}

/// One segment of an exported slide: the shape name and the start and destination
/// button indices.
#[derive(Clone, Debug, PartialEq, Eq)]
pub struct SlideSegment {
    pub shape: String,
    pub start: u8,
    pub destination: u8,
}

/// The exported name of a segment shape.
pub open spec fn spec_shape_name(shape: NormalizedSlideSegmentShape) -> Seq<char> {
    match shape {
        NormalizedSlideSegmentShape::Straight => "straight"@,
        NormalizedSlideSegmentShape::CircleL => "circle_l"@,
        NormalizedSlideSegmentShape::CircleR => "circle_r"@,
        NormalizedSlideSegmentShape::CurveL => "curve_l"@,
        NormalizedSlideSegmentShape::CurveR => "curve_r"@,
        NormalizedSlideSegmentShape::ThunderL => "thunder_l"@,
        NormalizedSlideSegmentShape::ThunderR => "thunder_r"@,
        NormalizedSlideSegmentShape::Corner => "corner"@,
        NormalizedSlideSegmentShape::BendL => "bend_l"@,
        NormalizedSlideSegmentShape::BendR => "bend_r"@,
        NormalizedSlideSegmentShape::SkipL => "skip_l"@,
        NormalizedSlideSegmentShape::SkipR => "skip_r"@,
        NormalizedSlideSegmentShape::Fan => "fan"@,
    }
}

/// The exported name of a segment shape.
pub fn shape_name(shape: NormalizedSlideSegmentShape) -> (r: &'static str)
    ensures
        r@ == spec_shape_name(shape),
{
    match shape {
        NormalizedSlideSegmentShape::Straight => "straight",
        NormalizedSlideSegmentShape::CircleL => "circle_l",
        NormalizedSlideSegmentShape::CircleR => "circle_r",
        NormalizedSlideSegmentShape::CurveL => "curve_l",
        NormalizedSlideSegmentShape::CurveR => "curve_r",
        NormalizedSlideSegmentShape::ThunderL => "thunder_l",
        NormalizedSlideSegmentShape::ThunderR => "thunder_r",
        NormalizedSlideSegmentShape::Corner => "corner",
        NormalizedSlideSegmentShape::BendL => "bend_l",
        NormalizedSlideSegmentShape::BendR => "bend_r",
        NormalizedSlideSegmentShape::SkipL => "skip_l",
        NormalizedSlideSegmentShape::SkipR => "skip_r",
        NormalizedSlideSegmentShape::Fan => "fan",
    }
}

/// The exported description of each segment of a slide track as written (before fans
/// are expanded), in order.
pub fn original_slide_segments(segments: &[NormalizedSlideSegment]) -> (r: Vec<SlideSegment>)
    ensures
        r@.len() == segments@.len(),
        forall|i: int|
            0 <= i < r@.len() ==> (#[trigger] r@[i]).shape@ == spec_shape_name(segments@[i].shape)
                && r@[i].start == segments@[i].start.spec_index() && r@[i].destination
                == segments@[i].destination.spec_index(),
{
    let mut r: Vec<SlideSegment> = Vec::new();
    let mut i: usize = 0;
    while i < segments.len()
        invariant
            i <= segments@.len(),
            r@.len() == i,
            forall|j: int|
                0 <= j < i ==> (#[trigger] r@[j]).shape@ == spec_shape_name(segments@[j].shape)
                    && r@[j].start == segments@[j].start.spec_index() && r@[j].destination
                    == segments@[j].destination.spec_index(),
        decreases segments@.len() - i,
    {
        let seg = segments[i];
        r.push(
            SlideSegment {
                shape: String::from_str(shape_name(seg.shape)),
                start: seg.start.index(),
                destination: seg.destination.index(),
            },
        );
        i = i + 1;
    }
    r
}

/// How the judgement areas of an exported slide are looked up: for a track without fans
/// the whole track at once; with fans, segment by segment, where each fan stands for two
/// straight segments from its start to the buttons beside its destination.
pub enum SlideLookup {
    Track(Vec<NormalizedSlideSegment>),
    Segments(Vec<NormalizedSlideSegment>),
}

/// The segments looked up for one segment of a track that has fans.
pub open spec fn spec_fan_expansion(seg: NormalizedSlideSegment) -> Seq<NormalizedSlideSegment> {
    if seg.shape == NormalizedSlideSegmentShape::Fan {
        seq![
            NormalizedSlideSegment {
                shape: NormalizedSlideSegmentShape::Straight,
                start: seg.start,
                destination: crate::insn::Key::spec_from_index(
                    ((seg.destination.spec_index() + 7) % 8) as int,
                )->0,
            },
            NormalizedSlideSegment {
                shape: NormalizedSlideSegmentShape::Straight,
                start: seg.start,
                destination: crate::insn::Key::spec_from_index(
                    ((seg.destination.spec_index() + 1) % 8) as int,
                )->0,
            },
        ]
    } else {
        seq![seg]
    }
}

/// The segments looked up for a track with fans, in order.
pub open spec fn spec_fan_track_expansion(segments: Seq<NormalizedSlideSegment>) -> Seq<NormalizedSlideSegment>
    decreases segments.len(),
{
    if segments.len() == 0 {
        Seq::empty()
    } else {
        spec_fan_track_expansion(segments.drop_last()) + spec_fan_expansion(segments.last())
    }
}

/// Decides how the judgement areas of a slide track are looked up (see `SlideLookup`).
pub fn slide_lookup_plan(segments: &[NormalizedSlideSegment]) -> (r: SlideLookup)
    ensures
        !spec_has_fan(segments@) ==> (r matches SlideLookup::Track(v) && v@ == segments@),
        spec_has_fan(segments@) ==> (r matches SlideLookup::Segments(v) && v@
            == spec_fan_track_expansion(segments@)),
{
    if !has_fan(segments) {
        let mut v: Vec<NormalizedSlideSegment> = Vec::new();
        let mut i: usize = 0;
        while i < segments.len()
            invariant
                i <= segments@.len(),
                v@ == segments@.take(i as int),
            decreases segments@.len() - i,
        {
            v.push(segments[i]);
            assert(segments@.take(i + 1) == segments@.take(i as int).push(segments@[i as int]));
            i = i + 1;
        }
        assert(segments@.take(segments@.len() as int) == segments@);
        return SlideLookup::Track(v);
    }
    let mut v: Vec<NormalizedSlideSegment> = Vec::new();
    let mut i: usize = 0;
    while i < segments.len()
        invariant
            i <= segments@.len(),
            v@ == spec_fan_track_expansion(segments@.take(i as int)),
        decreases segments@.len() - i,
    {
        let seg = segments[i];
        let ghost before = v@;
        if seg.shape == NormalizedSlideSegmentShape::Fan {
            let left = left_neighbor(seg.destination);
            let right = right_neighbor(seg.destination);
            proof {
                crate::insn::lemma_key_index_roundtrip(left, 0);
                crate::insn::lemma_key_index_roundtrip(right, 0);
            }
            v.push(NormalizedSlideSegment::new(NormalizedSlideSegmentShape::Straight, seg.start, left));
            v.push(NormalizedSlideSegment::new(NormalizedSlideSegmentShape::Straight, seg.start, right));
        } else {
            v.push(seg);
        }
        assert(segments@.take(i + 1).drop_last() == segments@.take(i as int));
        assert(v@ =~= before + spec_fan_expansion(seg));
        i = i + 1;
    }
    assert(segments@.take(segments@.len() as int) == segments@);
    SlideLookup::Segments(v)
}

} // verus!
