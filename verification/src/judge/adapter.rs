//! The rules that turn a chart's slide segments into judged slides: which slides need
//! their first areas checked one by one, and how a fan slide splits into three.
use vstd::prelude::*;
use crate::insn::Key;
use crate::transform::{
    NormalizedSlideSegment, NormalizedSlideSegmentShape, has_fan, spec_has_fan,
};

verus! {

/// Why a slide cannot be judged.
#[derive(Clone, Copy, Debug, PartialEq, Eq, Structural)]
pub enum AdapterError {
    /// A track with a fan segment was given where an ordinary slide was expected.
    FanNotSupported,
    /// A fan slide must consist of exactly one segment.
    FanSegmentCount,
    /// The single segment of a fan slide is not a fan.
    NotFanSegment,
}

impl AdapterError {
    /// The human-readable text of the error.
    pub fn message(&self) -> (r: &'static str)
        ensures
            r@ == (match self {
                AdapterError::FanNotSupported => "Fan Slide is not supported"@,
                AdapterError::FanSegmentCount => "Fan Slide must have only one group and one segment"@,
                AdapterError::NotFanSegment => "Fan Slide must have a fan segment"@,
            }),
    {
        match self {
            AdapterError::FanNotSupported => "Fan Slide is not supported",
            AdapterError::FanSegmentCount => "Fan Slide must have only one group and one segment",
            AdapterError::NotFanSegment => "Fan Slide must have a fan segment",
        }
    }
}

/// The distance, counted clockwise (counter-clockwise for a right thunder), from the
/// start of the first segment to the destination of the last one.
pub open spec fn spec_thunder_distance(segments: Seq<NormalizedSlideSegment>) -> nat {
    let head = segments[0];
    let tail = segments.last();
    let d = ((tail.destination.spec_index() + 8 - head.start.spec_index()) % 8) as nat;
    if head.shape == NormalizedSlideSegmentShape::ThunderR {
        ((8 - d) % 8) as nat
    } else {
        d
    }
}

/// Whether the first segment is a thunder (zigzag) shape.
pub open spec fn spec_head_is_thunder(segments: Seq<NormalizedSlideSegment>) -> bool {
    segments[0].shape == NormalizedSlideSegmentShape::ThunderL || segments[0].shape
        == NormalizedSlideSegmentShape::ThunderR
}

/// The two skip rules of an ordinary slide: area 1 must be checked when the track starts
/// with a thunder and spans 1 to 4 buttons; area 3 as well when it spans exactly 4.
pub fn slide_judge_checks(segments: &[NormalizedSlideSegment]) -> (r: Result<(bool, bool), AdapterError>)
    requires
        segments@.len() > 0,
    ensures
        spec_has_fan(segments@) ==> r == Err::<(bool, bool), AdapterError>(AdapterError::FanNotSupported),
        !spec_has_fan(segments@) ==> r == Ok::<(bool, bool), AdapterError>((
            spec_head_is_thunder(segments@) && 1 <= spec_thunder_distance(segments@) <= 4,
            spec_head_is_thunder(segments@) && spec_thunder_distance(segments@) == 4,
        )),
{
    if has_fan(segments) {
        return Err(AdapterError::FanNotSupported);
    }
    let head = segments[0];
    let tail = segments[segments.len() - 1];
    let head_is_thunder = head.shape == NormalizedSlideSegmentShape::ThunderL || head.shape
        == NormalizedSlideSegmentShape::ThunderR;
    let mut distance = (tail.destination.index() + 8 - head.start.index()) % 8;
    if head.shape == NormalizedSlideSegmentShape::ThunderR {
        distance = (8 - distance) % 8;
    }
    Ok((head_is_thunder && 1 <= distance && distance <= 4, head_is_thunder && distance == 4))
}

/// The three straight-ahead parts of a fan: fans starting one button to the left, at,
/// and one button to the right of the start, all towards the same destination.
pub open spec fn spec_fan_parts(seg: NormalizedSlideSegment) -> Seq<NormalizedSlideSegment> {
    seq![
        NormalizedSlideSegment {
            shape: NormalizedSlideSegmentShape::Fan,
            start: Key::spec_from_index(((seg.start.spec_index() + 7) % 8) as int)->0,
            destination: seg.destination,
        },
        NormalizedSlideSegment {
            shape: NormalizedSlideSegmentShape::Fan,
            start: seg.start,
            destination: seg.destination,
        },
        NormalizedSlideSegment {
            shape: NormalizedSlideSegmentShape::Fan,
            start: Key::spec_from_index(((seg.start.spec_index() + 1) % 8) as int)->0,
            destination: seg.destination,
        },
    ]
}

fn key_at(i: u8) -> (k: Key)
    requires
        i < 8,
    ensures
        Key::spec_from_index(i as int) == Some(k),
{
    match Key::new(i) {
        Some(k) => k,
        None => Key::K1,
    }
}

/// Splits a fan slide into its three parts; the track must be a single fan segment.
pub fn fan_sub_segments(segments: &[NormalizedSlideSegment]) -> (r: Result<Vec<NormalizedSlideSegment>, AdapterError>)
    ensures
        segments@.len() != 1 ==> (r matches Err(e) && e == AdapterError::FanSegmentCount),
        segments@.len() == 1 && segments@[0].shape != NormalizedSlideSegmentShape::Fan ==> (
        r matches Err(e) && e == AdapterError::NotFanSegment),
        segments@.len() == 1 && segments@[0].shape == NormalizedSlideSegmentShape::Fan ==> (
        r matches Ok(v) && v@ == spec_fan_parts(segments@[0])),
{
    if segments.len() != 1 {
        return Err(AdapterError::FanSegmentCount);
    }
    let seg = segments[0];
    if seg.shape != NormalizedSlideSegmentShape::Fan {
        return Err(AdapterError::NotFanSegment);
    }
    let s = seg.start.index();
    let mut v: Vec<NormalizedSlideSegment> = Vec::new();
    v.push(NormalizedSlideSegment::new(NormalizedSlideSegmentShape::Fan, key_at((s + 7) % 8), seg.destination));
    v.push(NormalizedSlideSegment::new(NormalizedSlideSegmentShape::Fan, seg.start, seg.destination));
    v.push(NormalizedSlideSegment::new(NormalizedSlideSegmentShape::Fan, key_at((s + 1) % 8), seg.destination));
    assert(v@ =~= spec_fan_parts(seg));
    Ok(v)
}

/// A track is judged as a fan slide exactly when it has a fan segment.
pub fn is_fan_slide(segments: &[NormalizedSlideSegment]) -> (r: bool)
    ensures
        r == spec_has_fan(segments@),
{
    has_fan(segments)
}

/// The thunder distance is a button count in `0..8`, and the two checks are nested:
/// checking area 3 implies checking area 1.
pub proof fn lemma_judge_checks_nested(segments: Seq<NormalizedSlideSegment>)
    requires
        segments.len() > 0,
    ensures
        spec_thunder_distance(segments) < 8,
        (spec_head_is_thunder(segments) && spec_thunder_distance(segments) == 4) ==> (
        spec_head_is_thunder(segments) && 1 <= spec_thunder_distance(segments) <= 4),
{
}

} // verus!
