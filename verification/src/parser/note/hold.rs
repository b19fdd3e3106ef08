//! Hold modifiers: `b` (break) and `x` (EX), written before or after the `h`.
use vstd::prelude::*;
use crate::container::skip_ws;
use crate::diag::{Span, State};
use crate::insn::NoteType;
use crate::parser::utils::{
    contains_char, modifier_chars, spec_modifier_chars, spec_repeat_warnings,
    warn_repeated_modifiers,
};

verus! {

/// The modifiers of a hold.
#[derive(Clone, Copy, Debug, PartialEq, Eq, Structural, Default)]
pub struct HoldModifier {
    pub is_break: bool,
    pub is_ex: bool,
}

/// Reads hold modifier letters (`b`, `x`, each possibly after whitespace) from `pos`.
pub fn t_hold_modifier_str(v: &[char], pos: usize) -> (r: (Vec<char>, usize))
    requires
        pos <= v.len(),
    ensures
        (r.0@, r.1 as int) == spec_modifier_chars(v@, pos as int, "bx"@),
        pos <= r.1 <= v.len(),
{
    modifier_chars(v, pos, "bx")
}

/// Combines the hold modifier letters written before and after the `h`: each letter sets
/// its flag, and a letter that is already set gives a `DuplicateModifier` warning at `span`.
pub fn hold_modifier(state: &mut State, mods: &[char], span: Span) -> (r: HoldModifier)
    requires
        forall|i: int| 0 <= i < mods@.len() ==> mods@[i] == 'b' || mods@[i] == 'x',
    ensures
        r.is_break == mods@.contains('b'),
        r.is_ex == mods@.contains('x'),
        final(state).errors@ == old(state).errors@,
        final(state).warnings@ == old(state).warnings@ + spec_repeat_warnings(
            mods@,
            seq!['b', 'x'],
            Seq::empty(),
            NoteType::Hold,
            span,
        ),
{
    let flags: Vec<char> = vec!['b', 'x'];
    let preset: Vec<char> = Vec::new();
    assert(flags@ =~= seq!['b', 'x']);
    assert(preset@ =~= Seq::<char>::empty());
    warn_repeated_modifiers(state, mods, &flags, &preset, NoteType::Hold, span);
    HoldModifier { is_break: contains_char(mods, 'b'), is_ex: contains_char(mods, 'x') }
}

} // verus!
