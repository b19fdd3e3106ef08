//! Diagnostics collected while reading a chart: warnings, errors and the state
//! that gathers them.
use vstd::prelude::*;
use crate::insn::NoteType;
use crate::text::{push_char, push_chars};

verus! {

/// A region of the input, as character offsets `start..end`.
#[derive(Clone, Copy, Debug, PartialEq, Eq, Structural)]
pub struct Span {
    pub start: usize,
    pub end: usize,
}

/// A value together with the region of the input it comes from.
#[derive(Clone, Debug)]
pub struct Sp<T> {
    pub inner: T,
    pub span: Span,
}

impl<T> Sp<T> {
    /// Attaches a span to a value.
    pub fn new(inner: T, span: Span) -> (r: Sp<T>)
        ensures
            r.inner == inner,
            r.span == span,
    {
        Sp { inner, span }
    }
}

/// Problems that do not stop a note from being read.
#[derive(Clone, Copy, Debug, PartialEq, Eq, Structural)]
pub enum PWarning {
    DuplicateModifier(char, NoteType),
    MultipleSlideTrackGroups,
    MissingSlideStartKey,
}

/// Problems that make a note unreadable.
#[derive(Clone, Debug)]
pub enum PError {
    UnknownChar(char),
    MissingBefore { token: String, context: String },
    MissingAfter { token: String, context: String },
    MissingBetween { token: String, open: String, close: String },
    MissingBeatCount,
    MissingDuration(NoteType),
    MissingNote,
    MissingSlideStartKey,
    MissingSlideTrack,
    MissingSlideDestinationKey,
    MissingSlideAngleDestinationKey,
    InvalidBpm(String),
    InvalidBeatDivisor(String),
    InvalidDuration(String),
    InvalidSlideStopTime(String),
    InvalidSlideTrack(String),
    DuplicateShapeModifier(NoteType),
    IncompatibleDurations(NoteType),
}

impl NoteType {
    /// The word used for the note type in messages.
    pub open spec fn spec_word(self) -> Seq<char> {
        match self {
            NoteType::Tap => "tap"@,
            NoteType::Touch => "touch"@,
            NoteType::Slide => "slide"@,
            NoteType::Hold => "hold"@,
            NoteType::TouchHold => "touch hold"@,
        }
    }

    /// The word used for the note type in messages.
    pub fn word(&self) -> (r: &'static str)
        ensures
            r@ == self.spec_word(),
    {
        match self {
            NoteType::Tap => "tap",
            NoteType::Touch => "touch",
            NoteType::Slide => "slide",
            NoteType::Hold => "hold",
            NoteType::TouchHold => "touch hold",
        }
    }
}

impl PWarning {
    /// The human-readable text of the warning.
    pub open spec fn spec_message(self) -> Seq<char> {
        match self {
            PWarning::DuplicateModifier(c, t) => "duplicate `"@ + seq![c] + "` modifier in "@
                + t.spec_word() + " instruction"@,
            PWarning::MultipleSlideTrackGroups => "multiple slide track groups in slide instruction"@,
            PWarning::MissingSlideStartKey => "missing start key in slide instruction"@,
        }
    }

    /// The human-readable text of the warning.
    pub fn message(&self) -> (r: String)
        ensures
            r@ == self.spec_message(),
    {
        match self {
            PWarning::DuplicateModifier(c, t) => {
                let mut s = String::from_str("duplicate `");
                push_char(&mut s, *c);
                s.append("` modifier in ");
                s.append(t.word());
                s.append(" instruction");
                assert(s@ =~= self.spec_message());
                s
            },
            PWarning::MultipleSlideTrackGroups => String::from_str(
                "multiple slide track groups in slide instruction",
            ),
            PWarning::MissingSlideStartKey => String::from_str(
                "missing start key in slide instruction",
            ),
        }
    }
}

impl PError {
    /// The human-readable text of the error.
    pub open spec fn spec_message(self) -> Seq<char> {
        match self {
            PError::UnknownChar(c) => "unknown character `"@ + seq![c] + "`"@,
            PError::MissingBefore { token, context } => "missing "@ + token@ + " before "@
                + context@,
            PError::MissingAfter { token, context } => "missing "@ + token@ + " after "@
                + context@,
            PError::MissingBetween { token, open, close } => "missing "@ + token@ + " between "@
                + open@ + " and "@ + close@,
            PError::MissingBeatCount => "missing beat count"@,
            PError::MissingDuration(t) => "missing "@ + t.spec_word() + " duration"@,
            PError::MissingNote => "missing note"@,
            PError::MissingSlideStartKey => "missing slide start key"@,
            PError::MissingSlideTrack => "missing slide track"@,
            PError::MissingSlideDestinationKey => "missing slide destination key"@,
            PError::MissingSlideAngleDestinationKey => "missing destination key in V-shaped slide"@,
            PError::InvalidBpm(s) => "invalid bpm "@ + s@,
            PError::InvalidBeatDivisor(s) => "invalid beat divisor `"@ + s@ + "`"@,
            PError::InvalidDuration(s) => "invalid duration `"@ + s@ + "`"@,
            PError::InvalidSlideStopTime(s) => "invalid slide stop time "@ + s@,
            PError::InvalidSlideTrack(s) => "invalid slide track `"@ + s@ + "`"@,
            PError::DuplicateShapeModifier(t) => "duplicate "@ + t.spec_word() + " shape modifier"@,
            PError::IncompatibleDurations(t) => "incompatible "@ + t.spec_word() + " durations"@,
        }
    }

    /// The human-readable text of the error.
    pub fn message(&self) -> (r: String)
        ensures
            r@ == self.spec_message(),
    {
        let mut s = String::new();
        match self {
            PError::UnknownChar(c) => {
                s.append("unknown character `");
                push_char(&mut s, *c);
                s.append("`");
            },
            PError::MissingBefore { token, context } => {
                s.append("missing ");
                s.append(token.as_str());
                s.append(" before ");
                s.append(context.as_str());
            },
            PError::MissingAfter { token, context } => {
                s.append("missing ");
                s.append(token.as_str());
                s.append(" after ");
                s.append(context.as_str());
            },
            PError::MissingBetween { token, open, close } => {
                s.append("missing ");
                s.append(token.as_str());
                s.append(" between ");
                s.append(open.as_str());
                s.append(" and ");
                s.append(close.as_str());
            },
            PError::MissingBeatCount => s.append("missing beat count"),
            PError::MissingDuration(t) => {
                s.append("missing ");
                s.append(t.word());
                s.append(" duration");
            },
            PError::MissingNote => s.append("missing note"),
            PError::MissingSlideStartKey => s.append("missing slide start key"),
            PError::MissingSlideTrack => s.append("missing slide track"),
            PError::MissingSlideDestinationKey => s.append("missing slide destination key"),
            PError::MissingSlideAngleDestinationKey => s.append(
                "missing destination key in V-shaped slide",
            ),
            PError::InvalidBpm(v) => {
                s.append("invalid bpm ");
                s.append(v.as_str());
            },
            PError::InvalidBeatDivisor(v) => {
                s.append("invalid beat divisor `");
                s.append(v.as_str());
                s.append("`");
            },
            PError::InvalidDuration(v) => {
                s.append("invalid duration `");
                s.append(v.as_str());
                s.append("`");
            },
            PError::InvalidSlideStopTime(v) => {
                s.append("invalid slide stop time ");
                s.append(v.as_str());
            },
            PError::InvalidSlideTrack(v) => {
                s.append("invalid slide track `");
                s.append(v.as_str());
                s.append("`");
            },
            PError::DuplicateShapeModifier(t) => {
                s.append("duplicate ");
                s.append(t.word());
                s.append(" shape modifier");
            },
            PError::IncompatibleDurations(t) => {
                s.append("incompatible ");
                s.append(t.word());
                s.append(" durations");
            },
        }
        assert(s@ =~= self.spec_message());
        s
    }
}

/// The diagnostics gathered so far, in the order they were reported.
#[derive(Clone, Debug)]
pub struct State {
    pub warnings: Vec<Sp<PWarning>>,
    pub errors: Vec<Sp<PError>>,
}

impl State {
    /// A state with no diagnostics.
    pub fn new() -> (r: State)
        ensures
            r.warnings@.len() == 0,
            r.errors@.len() == 0,
    {
        State { warnings: Vec::new(), errors: Vec::new() }
    }

    /// Records a warning at the given span, after the earlier ones.
    pub fn add_warning(&mut self, warning: PWarning, span: Span)
        ensures
            final(self).warnings@ == old(self).warnings@.push(Sp { inner: warning, span }),
            final(self).errors@ == old(self).errors@,
    {
        self.warnings.push(Sp::new(warning, span));
    }

    /// Records an error at the given span, after the earlier ones.
    pub fn add_error(&mut self, error: PError, span: Span)
        ensures
            final(self).errors@ == old(self).errors@.push(Sp { inner: error, span }),
            final(self).warnings@ == old(self).warnings@,
    {
        self.errors.push(Sp::new(error, span));
    }

    /// Whether any warning was recorded.
    pub fn has_warnings(&self) -> (r: bool)
        ensures
            r == (self.warnings@.len() > 0),
    {
        self.warnings.len() > 0
    }

    /// Whether any error was recorded.
    pub fn has_errors(&self) -> (r: bool)
        ensures
            r == (self.errors@.len() > 0),
    {
        self.errors.len() > 0
    }

    /// Whether any warning or error was recorded.
    pub fn has_messages(&self) -> (r: bool)
        ensures
            r == (self.warnings@.len() > 0 || self.errors@.len() > 0),
    {
        self.has_warnings() || self.has_errors()
    }
}

impl Default for State {
    fn default() -> (r: State)
        ensures
            r.warnings@.len() == 0,
            r.errors@.len() == 0,
    {
        State::new()
    }
}

/// After a warning or an error is recorded, the state reports messages; the other kind
/// is left as it was.
pub proof fn lemma_recorded_message_is_reported(before: State, after: State, w: PWarning, span: Span)
    requires
        after.warnings@ == before.warnings@.push(Sp { inner: w, span }),
        after.errors@ == before.errors@,
    ensures
        after.warnings@.len() > 0,
        after.warnings@.last() == (Sp { inner: w, span }),
        after.warnings@.len() > 0 || after.errors@.len() > 0,
        after.errors@.len() == before.errors@.len(),
{
}

} // verus!
