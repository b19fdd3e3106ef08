//! Touch-hold modifiers: `f` (firework), written before or after the `h`.
use vstd::prelude::*;
use crate::diag::{Span, State};
use crate::insn::NoteType;
use crate::parser::utils::{
    contains_char, modifier_chars, spec_modifier_chars, spec_repeat_warnings,
    warn_repeated_modifiers,
};

verus! {

/// The modifiers of a touch hold.
#[derive(Clone, Copy, Debug, PartialEq, Eq, Structural, Default)]
pub struct TouchHoldModifier {
    pub is_firework: bool,
}

/// Reads touch-hold modifier letters (`f`, each possibly after whitespace) from `pos`.
pub fn t_touch_hold_modifier_str(v: &[char], pos: usize) -> (r: (Vec<char>, usize))
    requires
        pos <= v.len(),
    ensures
        (r.0@, r.1 as int) == spec_modifier_chars(v@, pos as int, "f"@),
        pos <= r.1 <= v.len(),
{
    modifier_chars(v, pos, "f")
}

/// Combines the touch-hold modifier letters written before and after the `h`; a repeated
/// `f` gives a `DuplicateModifier` warning at `span`.
pub fn touch_hold_modifier(state: &mut State, mods: &[char], span: Span) -> (r: TouchHoldModifier)
    requires
        forall|i: int| 0 <= i < mods@.len() ==> mods@[i] == 'f',
    ensures
        r.is_firework == mods@.contains('f'),
        final(state).errors@ == old(state).errors@,
        final(state).warnings@ == old(state).warnings@ + spec_repeat_warnings(
            mods@,
            seq!['f'],
            Seq::empty(),
            NoteType::TouchHold,
            span,
        ),
{
    let flags: Vec<char> = vec!['f'];
    let preset: Vec<char> = Vec::new();
    assert(flags@ =~= seq!['f']);
    assert(preset@ =~= Seq::<char>::empty());
    warn_repeated_modifiers(state, mods, &flags, &preset, NoteType::TouchHold, span);
    TouchHoldModifier { is_firework: contains_char(mods, 'f') }
}

} // verus!
