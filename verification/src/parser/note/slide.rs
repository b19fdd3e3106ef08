//! Slide notes: head modifiers, track modifiers and the segment shapes.
use vstd::prelude::*;
use crate::container::{lemma_skip_ws, skip_ws};
use crate::diag::{PError, PWarning, Sp, Span, State};
use crate::insn::{Key, NoteType};
use crate::parser::utils::{
    contains_char, contains_char_before, modifier_chars, spec_key_char, spec_modifier_chars,
    spec_repeat_warnings, t_key, warn_repeated_modifiers, ws,
};

verus! {

// ---------------------------------------------------------------------------
// Track modifiers
// ---------------------------------------------------------------------------

/// The modifiers of one slide track.
#[derive(Clone, Copy, Debug, PartialEq, Eq, Structural, Default)]
pub struct SlideTrackModifier {
    pub is_break: bool,
    pub is_sudden: bool,
}

/// Reads track modifier letters (`b`, each possibly after whitespace) at `pos` and adds
/// them to `modifier`; a `b` on a track that is already a break gives a
/// `DuplicateModifier` warning spanning the letters read.
pub fn t_slide_track_modifier(
    state: &mut State,
    v: &[char],
    pos: usize,
    modifier: SlideTrackModifier,
) -> (r: (SlideTrackModifier, usize))
    requires
        pos <= v.len(),
    ensures
        ({
            let (letters, end) = spec_modifier_chars(v@, pos as int, "b"@);
            &&& r.1 == end
            &&& r.0.is_break == (modifier.is_break || letters.len() > 0)
            &&& r.0.is_sudden == modifier.is_sudden
            &&& final(state).errors@ == old(state).errors@
            &&& final(state).warnings@ == old(state).warnings@ + spec_repeat_warnings(
                letters,
                seq!['b'],
                if modifier.is_break {
                    seq!['b']
                } else {
                    Seq::empty()
                },
                NoteType::Slide,
                Span { start: pos, end: r.1 },
            )
        }),
{
    let (letters, end) = modifier_chars(v, pos, "b");
    proof {
        lemma_modifier_letters(v@, pos as int, "b"@);
    }
    let span = Span { start: pos, end };
    let flags: Vec<char> = vec!['b'];
    let preset: Vec<char> = if modifier.is_break {
        vec!['b']
    } else {
        Vec::new()
    };
    assert(flags@ =~= seq!['b']);
    assert(preset@ =~= if modifier.is_break {
        seq!['b']
    } else {
        Seq::<char>::empty()
    });
    warn_repeated_modifiers(state, &letters, &flags, &preset, NoteType::Slide, span);
    let is_break = modifier.is_break || letters.len() > 0;
    (SlideTrackModifier { is_break, is_sudden: modifier.is_sudden }, end)
}

/// The letters read by `spec_modifier_chars` all come from `allowed`, and reading stops
/// inside the text.
pub proof fn lemma_modifier_letters(s: Seq<char>, pos: int, allowed: Seq<char>)
    requires
        0 <= pos <= s.len(),
    ensures
        ({
            let (letters, end) = spec_modifier_chars(s, pos, allowed);
            &&& forall|i: int| 0 <= i < letters.len() ==> allowed.contains(#[trigger] letters[i])
            &&& pos <= end <= s.len()
        }),
    decreases s.len() - pos,
{
    lemma_skip_ws(s, pos);
    let p = skip_ws(s, pos);
    if p < s.len() && allowed.contains(s[p]) {
        lemma_modifier_letters(s, p + 1, allowed);
        let (rest, end) = spec_modifier_chars(s, p + 1, allowed);
        let letters = seq![s[p]] + rest;
        assert forall|i: int| 0 <= i < letters.len() implies allowed.contains(#[trigger] letters[i]) by {
            if i > 0 {
                assert(letters[i] == rest[i - 1]);
            }
        }
    }
}

// ---------------------------------------------------------------------------
// Head modifiers
// ---------------------------------------------------------------------------

/// The shape a slide's star head is drawn with.
#[derive(Clone, Copy, Debug, PartialEq, Eq, Structural)]
pub enum TapShape {
    Ring,
    Invalid,
}

/// The modifiers of a tap (here, of a slide's head).
#[derive(Clone, Copy, Debug, PartialEq, Eq, Structural, Default)]
pub struct TapModifier {
    pub is_break: bool,
    pub is_ex: bool,
    pub shape: Option<TapShape>,
}

/// The head modifiers of a slide, and whether its tracks appear without the star's delay.
#[derive(Clone, Copy, Debug, PartialEq, Eq, Structural)]
pub struct SlideHeadModifier {
    pub tap_modifier: TapModifier,
    pub is_sudden: bool,
}

/// Reads slide head modifier letters (`b`, `x`, `@`, `?`, `!`, each possibly after
/// whitespace) from `pos`.
pub fn t_slide_head_modifier_str(v: &[char], pos: usize) -> (r: (Vec<char>, usize))
    requires
        pos <= v.len(),
    ensures
        (r.0@, r.1 as int) == spec_modifier_chars(v@, pos as int, "bx@?!"@),
        pos <= r.1 <= v.len(),
{
    modifier_chars(v, pos, "bx@?!")
}

/// The head shape a letter asks for: `@` a ring, `?` and `!` no star.
pub open spec fn spec_shape_of(c: char) -> Option<TapShape> {
    if c == '@' {
        Some(TapShape::Ring)
    } else if c == '?' || c == '!' {
        Some(TapShape::Invalid)
    } else {
        None
    }
}

/// The shape set by the first shape letter of `mods`.
pub open spec fn spec_first_shape(mods: Seq<char>) -> Option<TapShape>
    decreases mods.len(),
{
    if mods.len() == 0 {
        None
    } else if spec_shape_of(mods[0]) is Some {
        spec_shape_of(mods[0])
    } else {
        spec_first_shape(mods.drop_first())
    }
}

/// Whether some letter of `mods` sets a shape.
pub open spec fn has_shape_letter(mods: Seq<char>) -> bool {
    exists|i: int| 0 <= i < mods.len() && (#[trigger] spec_shape_of(mods[i])) is Some
}

/// One `DuplicateShapeModifier` error at `span` for each shape letter after the first.
pub open spec fn spec_shape_errors(mods: Seq<char>, span: Span) -> Seq<Sp<PError>>
    decreases mods.len(),
{
    if mods.len() == 0 {
        Seq::empty()
    } else {
        let prev = spec_shape_errors(mods.drop_last(), span);
        if spec_shape_of(mods.last()) is Some && has_shape_letter(mods.drop_last()) {
            prev.push(Sp { inner: PError::DuplicateShapeModifier(NoteType::Slide), span: span })
        } else {
            prev
        }
    }
}

/// Interprets the head modifier letters of a slide: `b`, `x` and `!` set the break, EX and
/// sudden flags (a repeated one gives a `DuplicateModifier` warning); `@`, `?` and `!` set
/// the head shape, and any shape letter after the first gives a `DuplicateShapeModifier`
/// error. All diagnostics are at `span`.
pub fn parse_slide_head_modifier(state: &mut State, mods: &[char], span: Span) -> (r: SlideHeadModifier)
    ensures
        r.tap_modifier.is_break == mods@.contains('b'),
        r.tap_modifier.is_ex == mods@.contains('x'),
        r.is_sudden == mods@.contains('!'),
        r.tap_modifier.shape == spec_first_shape(mods@),
        final(state).warnings@ == old(state).warnings@ + spec_repeat_warnings(
            mods@,
            seq!['b', 'x', '!'],
            Seq::empty(),
            NoteType::Slide,
            span,
        ),
        final(state).errors@ == old(state).errors@ + spec_shape_errors(mods@, span),
{
    let flags: Vec<char> = vec!['b', 'x', '!'];
    let preset: Vec<char> = Vec::new();
    assert(flags@ =~= seq!['b', 'x', '!']);
    assert(preset@ =~= Seq::<char>::empty());
    warn_repeated_modifiers(state, mods, &flags, &preset, NoteType::Slide, span);
    let ghost w1 = state.warnings@;
    let ghost e0 = state.errors@;
    let mut shape: Option<TapShape> = None;
    let mut i: usize = 0;
    assert(mods@.take(0) =~= Seq::<char>::empty());
    while i < mods.len()
        invariant
            i <= mods@.len(),
            state.warnings@ == w1,
            state.errors@ == e0 + spec_shape_errors(mods@.take(i as int), span),
            shape == spec_first_shape(mods@.take(i as int)),
            (shape is Some) == has_shape_letter(mods@.take(i as int)),
        decreases mods@.len() - i,
    {
        let c = mods[i];
        proof {
            lemma_shape_step(mods@, i as int, span);
        }
        let s = if c == '@' {
            Some(TapShape::Ring)
        } else if c == '?' || c == '!' {
            Some(TapShape::Invalid)
        } else {
            None
        };
        match s {
            Some(sh) => {
                if shape.is_some() {
                    let ghost prev = spec_shape_errors(mods@.take(i as int), span);
                    state.add_error(PError::DuplicateShapeModifier(NoteType::Slide), span);
                    proof {
                        let e = Sp { inner: PError::DuplicateShapeModifier(NoteType::Slide), span: span };
                        assert(e0 + prev.push(e) =~= (e0 + prev).push(e));
                    }
                } else {
                    shape = Some(sh);
                }
            },
            None => {},
        }
        i = i + 1;
    }
    assert(mods@.take(mods@.len() as int) == mods@);
    SlideHeadModifier {
        tap_modifier: TapModifier {
            is_break: contains_char(mods, 'b'),
            is_ex: contains_char(mods, 'x'),
            shape,
        },
        is_sudden: contains_char(mods, '!'),
    }
}

proof fn lemma_first_shape_push(m: Seq<char>, c: char)
    ensures
        spec_first_shape(m.push(c)) == if spec_first_shape(m) is Some {
            spec_first_shape(m)
        } else {
            spec_shape_of(c)
        },
        (spec_first_shape(m) is Some) == has_shape_letter(m),
    decreases m.len(),
{
    if m.len() > 0 {
        lemma_first_shape_push(m.drop_first(), c);
        assert(m.push(c).drop_first() == m.drop_first().push(c));
        assert(m.push(c)[0] == m[0]);
        if spec_shape_of(m[0]) is None {
            if has_shape_letter(m) {
                let j = choose|j: int| 0 <= j < m.len() && (#[trigger] spec_shape_of(m[j])) is Some;
                assert(m.drop_first()[j - 1] == m[j]);
            }
            if has_shape_letter(m.drop_first()) {
                let j = choose|j: int|
                    0 <= j < m.drop_first().len() && (#[trigger] spec_shape_of(m.drop_first()[j])) is Some;
                assert(m[j + 1] == m.drop_first()[j]);
            }
        } else {
            assert(spec_shape_of(m[0]) is Some);
        }
    } else {
        assert(m.push(c) =~= seq![c]);
        assert(seq![c].drop_first() =~= Seq::<char>::empty());
        assert(spec_first_shape(Seq::<char>::empty()) == None::<TapShape>);
        assert(seq![c][0] == c);
        assert(spec_first_shape(seq![c]) == spec_shape_of(c));
    }
}

proof fn lemma_shape_step(mods: Seq<char>, i: int, span: Span)
    requires
        0 <= i < mods.len(),
    ensures
        spec_first_shape(mods.take(i + 1)) == if spec_first_shape(mods.take(i)) is Some {
            spec_first_shape(mods.take(i))
        } else {
            spec_shape_of(mods[i])
        },
        has_shape_letter(mods.take(i + 1)) == (has_shape_letter(mods.take(i)) || spec_shape_of(mods[i]) is Some),
        (spec_first_shape(mods.take(i)) is Some) == has_shape_letter(mods.take(i)),
        spec_shape_errors(mods.take(i + 1), span) == if spec_shape_of(mods[i]) is Some
            && has_shape_letter(mods.take(i)) {
            spec_shape_errors(mods.take(i), span).push(
                Sp { inner: PError::DuplicateShapeModifier(NoteType::Slide), span: span },
            )
        } else {
            spec_shape_errors(mods.take(i), span)
        },
{
    let t = mods.take(i + 1);
    assert(t == mods.take(i).push(mods[i]));
    assert(t.drop_last() == mods.take(i));
    lemma_first_shape_push(mods.take(i), mods[i]);
    lemma_first_shape_push(t, mods[i]);
    if has_shape_letter(t) {
        let j = choose|j: int| 0 <= j < t.len() && (#[trigger] spec_shape_of(t[j])) is Some;
        if j < i {
            assert(mods.take(i)[j] == t[j]);
        }
    }
    if has_shape_letter(mods.take(i)) {
        let j = choose|j: int| 0 <= j < mods.take(i).len() && (#[trigger] spec_shape_of(mods.take(i)[j])) is Some;
        assert(t[j] == mods.take(i)[j]);
    }
    if spec_shape_of(mods[i]) is Some {
        assert(t[i] == mods[i]);
    }
}

// ---------------------------------------------------------------------------
// Segments
// ---------------------------------------------------------------------------

/// The buttons of a slide segment: its destination and, for a V-shaped (angle) segment,
/// the button it turns at.
#[derive(Clone, Copy, Debug, PartialEq, Eq, Structural)]
pub struct SlideSegmentParams {
    pub destination: Key,
    pub interim: Option<Key>,
}

/// One segment of a slide track as written.
#[derive(Clone, Copy, Debug, PartialEq, Eq, Structural)]
pub enum SlideSegment {
    Line(SlideSegmentParams),
    Arc(SlideSegmentParams),
    CircumferenceLeft(SlideSegmentParams),
    CircumferenceRight(SlideSegmentParams),
    V(SlideSegmentParams),
    P(SlideSegmentParams),
    Q(SlideSegmentParams),
    S(SlideSegmentParams),
    Z(SlideSegmentParams),
    Pp(SlideSegmentParams),
    Qq(SlideSegmentParams),
    Angle(SlideSegmentParams),
    Spread(SlideSegmentParams),
}

/// The kind of a segment, named by its shape mark.
#[derive(Clone, Copy, Debug, PartialEq, Eq, Structural)]
pub enum SegmentKind {
    Line,
    Arc,
    CircumferenceLeft,
    CircumferenceRight,
    V,
    P,
    Q,
    S,
    Z,
    Pp,
    Qq,
    Angle,
    Spread,
}

/// The shape mark at `pos` and its length, tried in this order: `-`, `^`, `<`, `>`, `v`,
/// `pp`, `qq`, `p`, `q`, `s`, `z`, `V`, `w` (so `pp` and `qq` win over `p` and `q`).
pub open spec fn spec_shape_mark(s: Seq<char>, pos: int) -> Option<(SegmentKind, int)> {
    if !(0 <= pos < s.len()) {
        None
    } else {
        let c = s[pos];
        let two = pos + 1 < s.len() && s[pos + 1] == c;
        if c == '-' {
            Some((SegmentKind::Line, 1))
        } else if c == '^' {
            Some((SegmentKind::Arc, 1))
        } else if c == '<' {
            Some((SegmentKind::CircumferenceLeft, 1))
        } else if c == '>' {
            Some((SegmentKind::CircumferenceRight, 1))
        } else if c == 'v' {
            Some((SegmentKind::V, 1))
        } else if c == 'p' && two {
            Some((SegmentKind::Pp, 2))
        } else if c == 'q' && two {
            Some((SegmentKind::Qq, 2))
        } else if c == 'p' {
            Some((SegmentKind::P, 1))
        } else if c == 'q' {
            Some((SegmentKind::Q, 1))
        } else if c == 's' {
            Some((SegmentKind::S, 1))
        } else if c == 'z' {
            Some((SegmentKind::Z, 1))
        } else if c == 'V' {
            Some((SegmentKind::Angle, 1))
        } else if c == 'w' {
            Some((SegmentKind::Spread, 1))
        } else {
            None
        }
    }
}

/// A button expected after optional whitespace at `pos`: the key and the position after
/// it; or, when there is none, no key, the unchanged position and the span `pos..` up to
/// where the button was expected.
pub open spec fn spec_expect_key(s: Seq<char>, pos: int) -> (Option<Key>, int, Span) {
    let q = skip_ws(s, pos);
    let k = if 0 <= q < s.len() {
        spec_key_char(s[q])
    } else {
        None
    };
    match k {
        Some(key) => (Some(key), q + 1, Span { start: pos as usize, end: q as usize }),
        None => (None, pos, Span { start: pos as usize, end: q as usize }),
    }
}

/// The segment of kind `kind` with the given buttons.
pub open spec fn make_segment(kind: SegmentKind, p: SlideSegmentParams) -> SlideSegment {
    match kind {
        SegmentKind::Line => SlideSegment::Line(p),
        SegmentKind::Arc => SlideSegment::Arc(p),
        SegmentKind::CircumferenceLeft => SlideSegment::CircumferenceLeft(p),
        SegmentKind::CircumferenceRight => SlideSegment::CircumferenceRight(p),
        SegmentKind::V => SlideSegment::V(p),
        SegmentKind::P => SlideSegment::P(p),
        SegmentKind::Q => SlideSegment::Q(p),
        SegmentKind::S => SlideSegment::S(p),
        SegmentKind::Z => SlideSegment::Z(p),
        SegmentKind::Pp => SlideSegment::Pp(p),
        SegmentKind::Qq => SlideSegment::Qq(p),
        SegmentKind::Angle => SlideSegment::Angle(p),
        SegmentKind::Spread => SlideSegment::Spread(p),
    }
}

/// The missing-destination error.
pub open spec fn missing_destination(span: Span) -> Sp<PError> {
    Sp { inner: PError::MissingSlideDestinationKey, span: span }
}

/// Reading a segment at `pos`: `None` when no shape mark is there (nothing is consumed);
/// otherwise the segment (when its buttons are present), the position after it, and the
/// errors: a missing button gives `MissingSlideDestinationKey`, and an angle segment with
/// its turning button but no destination also gives `MissingSlideAngleDestinationKey` at
/// the point where the destination was expected.
pub open spec fn spec_t_slide_segment(s: Seq<char>, pos: int) -> Option<(Option<SlideSegment>, int, Seq<Sp<PError>>)> {
    match spec_shape_mark(s, pos) {
        None => None,
        Some((kind, len)) => if kind == SegmentKind::Angle {
            let (interim, p1, sp1) = spec_expect_key(s, pos + len);
            let (dest, p2, sp2) = spec_expect_key(s, p1);
            let e1: Seq<Sp<PError>> = if interim is None {
                seq![missing_destination(sp1)]
            } else {
                Seq::empty()
            };
            let e2: Seq<Sp<PError>> = if dest is None {
                seq![missing_destination(sp2)]
            } else {
                Seq::empty()
            };
            let e3: Seq<Sp<PError>> = if interim is Some && dest is None {
                seq![
                    Sp {
                        inner: PError::MissingSlideAngleDestinationKey,
                        span: Span { start: p2 as usize, end: p2 as usize },
                    },
                ]
            } else {
                Seq::empty()
            };
            let seg = match (interim, dest) {
                (Some(i), Some(d)) => Some(
                    SlideSegment::Angle(SlideSegmentParams { destination: d, interim: Some(i) }),
                ),
                _ => None,
            };
            Some((seg, p2, e1 + e2 + e3))
        } else {
            let (dest, p1, sp1) = spec_expect_key(s, pos + len);
            match dest {
                Some(d) => Some(
                    (
                        Some(make_segment(kind, SlideSegmentParams { destination: d, interim: None })),
                        p1,
                        Seq::empty(),
                    ),
                ),
                None => Some((None, p1, seq![missing_destination(sp1)])),
            }
        },
    }
}

fn shape_mark(v: &[char], pos: usize) -> (r: Option<(SegmentKind, usize)>)
    requires
        pos <= v.len(),
    ensures
        match r {
            Some((k, l)) => spec_shape_mark(v@, pos as int) == Some((k, l as int)) && pos + l <= v@.len(),
            None => spec_shape_mark(v@, pos as int) is None,
        },
{
    if pos >= v.len() {
        return None;
    }
    let c = v[pos];
    let two = pos + 1 < v.len() && v[pos + 1] == c;
    if c == '-' {
        Some((SegmentKind::Line, 1))
    } else if c == '^' {
        Some((SegmentKind::Arc, 1))
    } else if c == '<' {
        Some((SegmentKind::CircumferenceLeft, 1))
    } else if c == '>' {
        Some((SegmentKind::CircumferenceRight, 1))
    } else if c == 'v' {
        Some((SegmentKind::V, 1))
    } else if c == 'p' && two {
        Some((SegmentKind::Pp, 2))
    } else if c == 'q' && two {
        Some((SegmentKind::Qq, 2))
    } else if c == 'p' {
        Some((SegmentKind::P, 1))
    } else if c == 'q' {
        Some((SegmentKind::Q, 1))
    } else if c == 's' {
        Some((SegmentKind::S, 1))
    } else if c == 'z' {
        Some((SegmentKind::Z, 1))
    } else if c == 'V' {
        Some((SegmentKind::Angle, 1))
    } else if c == 'w' {
        Some((SegmentKind::Spread, 1))
    } else {
        None
    }
}

/// Expects a button after optional whitespace at `pos` (see `spec_expect_key`).
fn expect_key(v: &[char], pos: usize) -> (r: (Option<Key>, usize, Span))
    requires
        pos <= v.len(),
    ensures
        (r.0, r.1 as int, r.2) == spec_expect_key(v@, pos as int),
        pos <= r.1 <= v.len(),
{
    let q = ws(v, pos);
    match t_key(v, q) {
        Some((k, after)) => (Some(k), after, Span { start: pos, end: q }),
        None => (None, pos, Span { start: pos, end: q }),
    }
}

fn build_segment(kind: SegmentKind, p: SlideSegmentParams) -> (r: SlideSegment)
    ensures
        r == make_segment(kind, p),
{
    match kind {
        SegmentKind::Line => SlideSegment::Line(p),
        SegmentKind::Arc => SlideSegment::Arc(p),
        SegmentKind::CircumferenceLeft => SlideSegment::CircumferenceLeft(p),
        SegmentKind::CircumferenceRight => SlideSegment::CircumferenceRight(p),
        SegmentKind::V => SlideSegment::V(p),
        SegmentKind::P => SlideSegment::P(p),
        SegmentKind::Q => SlideSegment::Q(p),
        SegmentKind::S => SlideSegment::S(p),
        SegmentKind::Z => SlideSegment::Z(p),
        SegmentKind::Pp => SlideSegment::Pp(p),
        SegmentKind::Qq => SlideSegment::Qq(p),
        SegmentKind::Angle => SlideSegment::Angle(p),
        SegmentKind::Spread => SlideSegment::Spread(p),
    }
}

/// Reads one slide segment at `pos` (see `spec_t_slide_segment`); errors go to `state`.
pub fn t_slide_segment(state: &mut State, v: &[char], pos: usize) -> (r: Option<(Option<SlideSegment>, usize)>)
    requires
        pos <= v.len(),
    ensures
        final(state).warnings@ == old(state).warnings@,
        match spec_t_slide_segment(v@, pos as int) {
            None => r is None && final(state).errors@ == old(state).errors@,
            Some((seg, end, errs)) => r == Some((seg, end as usize)) && final(state).errors@
                == old(state).errors@ + errs && end <= v@.len(),
        },
{
    let ghost e0 = state.errors@;
    let (kind, len) = match shape_mark(v, pos) {
        Some(m) => m,
        None => {
            return None;
        },
    };
    if kind == SegmentKind::Angle {
        let (interim, p1, sp1) = expect_key(v, pos + len);
        if interim.is_none() {
            state.add_error(PError::MissingSlideDestinationKey, sp1);
        }
        let (dest, p2, sp2) = expect_key(v, p1);
        if dest.is_none() {
            state.add_error(PError::MissingSlideDestinationKey, sp2);
        }
        if interim.is_some() && dest.is_none() {
            state.add_error(PError::MissingSlideAngleDestinationKey, Span { start: p2, end: p2 });
        }
        proof {
            let e1: Seq<Sp<PError>> = if interim is None {
                seq![missing_destination(sp1)]
            } else {
                Seq::empty()
            };
            let e2: Seq<Sp<PError>> = if dest is None {
                seq![missing_destination(sp2)]
            } else {
                Seq::empty()
            };
            let e3: Seq<Sp<PError>> = if interim is Some && dest is None {
                seq![
                    Sp {
                        inner: PError::MissingSlideAngleDestinationKey,
                        span: Span { start: p2, end: p2 },
                    },
                ]
            } else {
                Seq::empty()
            };
            assert(state.errors@ =~= e0 + (e1 + e2 + e3));
        }
        let seg = match (interim, dest) {
            (Some(i), Some(d)) => Some(
                SlideSegment::Angle(SlideSegmentParams { destination: d, interim: Some(i) }),
            ),
            _ => None,
        };
        Some((seg, p2))
    } else {
        let (dest, p1, sp1) = expect_key(v, pos + len);
        match dest {
            Some(d) => {
                assert(state.errors@ =~= e0 + Seq::<Sp<PError>>::empty());
                Some((Some(build_segment(kind, SlideSegmentParams { destination: d, interim: None })), p1))
            },
            None => {
                state.add_error(PError::MissingSlideDestinationKey, sp1);
                assert(state.errors@ =~= e0 + seq![missing_destination(sp1)]);
                Some((None, p1))
            },
        }
    }
}


// ---------------------------------------------------------------------------
// Track groups
// ---------------------------------------------------------------------------

/// Whether one of the groups of a slide track is a break.
pub open spec fn any_break_group(groups: Seq<SlideTrackModifier>) -> bool
    decreases groups.len(),
{
    groups.len() > 0 && (any_break_group(groups.drop_last()) || groups.last().is_break)
}

/// The warnings of a track's groups, in group order: a `DuplicateModifier('b')` for every
/// break group after an earlier break group.
pub open spec fn group_break_warnings(groups: Seq<SlideTrackModifier>, span: Span) -> Seq<
    Sp<PWarning>,
>
    decreases groups.len(),
{
    if groups.len() == 0 {
        Seq::empty()
    } else {
        let earlier = group_break_warnings(groups.drop_last(), span);
        if any_break_group(groups.drop_last()) && groups.last().is_break {
            earlier.push(Sp { inner: PWarning::DuplicateModifier('b', NoteType::Slide), span })
        } else {
            earlier
        }
    }
}

/// All warnings of a track made of these groups: the repeated breaks, then
/// `MultipleSlideTrackGroups` when there is more than one group.
pub open spec fn track_group_warnings(groups: Seq<SlideTrackModifier>, span: Span) -> Seq<
    Sp<PWarning>,
> {
    group_break_warnings(groups, span) + if groups.len() > 1 {
        seq![Sp { inner: PWarning::MultipleSlideTrackGroups, span }]
    } else {
        Seq::empty()
    }
}

/// The modifier of a slide track read as several groups: a break when any group is one
/// (nothing else carries over). Every break group after the first break, and a track of
/// more than one group, are warned about at `span`, the whole track.
pub fn combine_track_groups(state: &mut State, groups: &[SlideTrackModifier], span: Span) -> (r:
    SlideTrackModifier)
    ensures
        r.is_break == any_break_group(groups@),
        !r.is_sudden,
        final(state).errors@ == old(state).errors@,
        final(state).warnings@ == old(state).warnings@ + track_group_warnings(groups@, span),
{
    let mut acc = SlideTrackModifier { is_break: false, is_sudden: false };
    let mut i: usize = 0;
    while i < groups.len()
        invariant
            i <= groups@.len(),
            acc.is_break == any_break_group(groups@.take(i as int)),
            !acc.is_sudden,
            state.errors@ == old(state).errors@,
            state.warnings@ == old(state).warnings@ + group_break_warnings(
                groups@.take(i as int),
                span,
            ),
        decreases groups@.len() - i,
    {
        let g = groups[i];
        assert(groups@.take(i + 1).drop_last() == groups@.take(i as int));
        assert(groups@.take(i + 1).last() == g);
        if acc.is_break && g.is_break {
            state.add_warning(PWarning::DuplicateModifier('b', NoteType::Slide), span);
        }
        acc.is_break = acc.is_break || g.is_break;
        i = i + 1;
    }
    assert(groups@.take(groups@.len() as int) == groups@);
    if groups.len() > 1 {
        state.add_warning(PWarning::MultipleSlideTrackGroups, span);
    }
    acc
}


/// The buttons of a segment towards the button written as digit `d`.
pub open spec fn towards(d: char) -> SlideSegmentParams {
    SlideSegmentParams { destination: spec_key_char(d)->0, interim: None }
}

/// Each shape mark names its segment: a mark directly followed by a button digit reads as
/// the segment of that shape towards that button, with no error, ending after the digit:
/// `-` a line, `^` an arc, `<` and `>` the circumference segments, `v` the V shape, `p`
/// and `q` the P and Q shapes, `s` the S (thunder) shape and `z` the mirrored Z shape,
/// `w` the spread (fan) shape.
pub proof fn lemma_shape_marks(s: Seq<char>, pos: int)
    requires
        0 <= pos,
        pos + 1 < s.len(),
        '1' <= s[pos + 1] <= '8',
    ensures
        ({
            let p = towards(s[pos + 1]);
            let read = |seg: SlideSegment| Some((Some(seg), pos + 2, Seq::<Sp<PError>>::empty()));
            &&& s[pos] == '-' ==> spec_t_slide_segment(s, pos) == read(SlideSegment::Line(p))
            &&& s[pos] == '^' ==> spec_t_slide_segment(s, pos) == read(SlideSegment::Arc(p))
            &&& s[pos] == '<' ==> spec_t_slide_segment(s, pos) == read(SlideSegment::CircumferenceLeft(p))
            &&& s[pos] == '>' ==> spec_t_slide_segment(s, pos) == read(SlideSegment::CircumferenceRight(p))
            &&& s[pos] == 'v' ==> spec_t_slide_segment(s, pos) == read(SlideSegment::V(p))
            &&& s[pos] == 'p' ==> spec_t_slide_segment(s, pos) == read(SlideSegment::P(p))
            &&& s[pos] == 'q' ==> spec_t_slide_segment(s, pos) == read(SlideSegment::Q(p))
            &&& s[pos] == 's' ==> spec_t_slide_segment(s, pos) == read(SlideSegment::S(p))
            &&& s[pos] == 'z' ==> spec_t_slide_segment(s, pos) == read(SlideSegment::Z(p))
            &&& s[pos] == 'w' ==> spec_t_slide_segment(s, pos) == read(SlideSegment::Spread(p))
        }),
{
    assert(skip_ws(s, pos + 1) == pos + 1);
}

/// The doubled marks `pp` and `qq` name the PP and QQ shapes: followed by a button digit
/// they read as that segment, ending after the digit.
pub proof fn lemma_double_shape_marks(s: Seq<char>, pos: int)
    requires
        0 <= pos,
        pos + 2 < s.len(),
        '1' <= s[pos + 2] <= '8',
    ensures
        s[pos] == 'p' && s[pos + 1] == 'p' ==> spec_t_slide_segment(s, pos) == Some(
            (Some(SlideSegment::Pp(towards(s[pos + 2]))), pos + 3, Seq::<Sp<PError>>::empty()),
        ),
        s[pos] == 'q' && s[pos + 1] == 'q' ==> spec_t_slide_segment(s, pos) == Some(
            (Some(SlideSegment::Qq(towards(s[pos + 2]))), pos + 3, Seq::<Sp<PError>>::empty()),
        ),
{
    assert(skip_ws(s, pos + 2) == pos + 2);
}

/// The angle mark `V` takes two buttons: the turning button, then the destination.
pub proof fn lemma_angle_mark(s: Seq<char>, pos: int)
    requires
        0 <= pos,
        pos + 2 < s.len(),
        s[pos] == 'V',
        '1' <= s[pos + 1] <= '8',
        '1' <= s[pos + 2] <= '8',
    ensures
        spec_t_slide_segment(s, pos) == Some(
            (
                Some(
                    SlideSegment::Angle(
                        SlideSegmentParams {
                            destination: spec_key_char(s[pos + 2])->0,
                            interim: Some(spec_key_char(s[pos + 1])->0),
                        },
                    ),
                ),
                pos + 3,
                Seq::<Sp<PError>>::empty(),
            ),
        ),
{
    assert(skip_ws(s, pos + 1) == pos + 1);
    assert(skip_ws(s, pos + 2) == pos + 2);
}

/// A character that is no shape mark starts no segment, and nothing is read.
pub proof fn lemma_no_shape_mark(s: Seq<char>, pos: int)
    requires
        0 <= pos < s.len(),
        !(s[pos] == '-' || s[pos] == '^' || s[pos] == '<' || s[pos] == '>' || s[pos] == 'v'
            || s[pos] == 'p' || s[pos] == 'q' || s[pos] == 's' || s[pos] == 'z' || s[pos] == 'V'
            || s[pos] == 'w'),
    ensures
        spec_t_slide_segment(s, pos) is None,
{
}

} // verus!
