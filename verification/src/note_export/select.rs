//! Which charts the exporters take: songs of the utage (banquet) range are skipped, the
//! note exporter takes difficulties of level 11 and above (the dataset exporter level 10
//! and above), and an overlap of notes is reported unless a centre-sensor touch takes
//! part in it.
use vstd::prelude::*;
use crate::dataset::{find_underscore, numeric_part};
use crate::insn::Level;
use crate::text::{chars_of, parse_unsigned, spec_parse_unsigned};

verus! {

/// The first song number of the utage range.
pub const UTAGE_FIRST_ID: u64 = 100000;

/// A song id whose numeric part is a number of the utage range (100000 and above).
pub open spec fn spec_is_utage_song(song_id: Seq<char>) -> bool {
    spec_parse_unsigned(numeric_part(song_id), u64::MAX as nat) matches Some(n) && n >= UTAGE_FIRST_ID
}

/// Whether a song is an utage song (see `spec_is_utage_song`); such songs are skipped.
pub fn is_utage_song(song_id: &str) -> (r: bool)
    ensures
        r == spec_is_utage_song(song_id@),
{
    let v = chars_of(song_id);
    let n = find_underscore(&v);
    assert(v@.subrange(0, n as int) == v@.take(n as int));
    match parse_unsigned(&v, 0, n, u64::MAX) {
        Some(id) => id >= UTAGE_FIRST_ID,
        None => false,
    }
}

/// The numeric level of a chart: the number of a normal or `+` level, 0 otherwise.
pub open spec fn spec_min_level(level: Option<Level>) -> u8 {
    match level {
        Some(Level::Normal(lv)) => lv,
        Some(Level::Plus(lv)) => lv,
        _ => 0,
    }
}

/// The numeric level of a chart (see `spec_min_level`).
pub fn min_level(level: Option<Level>) -> (r: u8)
    ensures
        r == spec_min_level(level),
{
    match level {
        Some(Level::Normal(lv)) => lv,
        Some(Level::Plus(lv)) => lv,
        _ => 0,
    }
}

/// Whether the note exporter takes a chart of this level: level 11 and above.
pub fn is_exported_level(level: Option<Level>) -> (r: bool)
    ensures
        r == (spec_min_level(level) >= 11),
{
    min_level(level) >= 11
}

/// Whether the dataset exporter takes a chart of this level: level 10 and above.
pub fn is_dataset_level(level: Option<Level>) -> (r: bool)
    ensures
        r == (spec_min_level(level) >= 10),
{
    min_level(level) >= 10
}

/// Whether an overlap of more than two notes is reported: unless one of the notes active
/// then is a touch on the centre sensor (`is_centre_touch` tells them apart).
pub fn reports_overlap(is_centre_touch: &[bool]) -> (r: bool)
    ensures
        r == forall|i: int| 0 <= i < is_centre_touch@.len() ==> !#[trigger] is_centre_touch@[i],
{
    let mut i: usize = 0;
    while i < is_centre_touch.len()
        invariant
            i <= is_centre_touch@.len(),
            forall|j: int| 0 <= j < i ==> !#[trigger] is_centre_touch@[j],
        decreases is_centre_touch@.len() - i,
    {
        if is_centre_touch[i] {
            return false;
        }
        i = i + 1;
    }
    true
}


/// A chart's numeric level is the number of its `N` or `N+` level, and 0 for a level
/// written as a character or no level; so a chart the note exporter takes (level 11 and
/// above) is also taken by the dataset exporter (level 10 and above).
pub proof fn lemma_level_numbers(n: u8, c: char, level: Option<Level>)
    ensures
        spec_min_level(Some(Level::Normal(n))) == n,
        spec_min_level(Some(Level::Plus(n))) == n,
        spec_min_level(Some(Level::Char(c))) == 0,
        spec_min_level(None) == 0,
        spec_min_level(level) >= 11 ==> spec_min_level(level) >= 10,
{
}

/// An id whose number is below the utage range is no utage song, and one whose number is
/// in it is, whatever follows the first `_`.
pub proof fn lemma_utage_by_number(song_id: Seq<char>, n: nat)
    requires
        spec_parse_unsigned(numeric_part(song_id), u64::MAX as nat) == Some(n),
    ensures
        spec_is_utage_song(song_id) <==> n >= 100000,
{
}

} // verus!
