//! The maidata file model: song metadata and per-difficulty chart data.
//!
//! Offsets are kept as the text of the decimal number they denote; the text is
//! always a valid floating-point literal (see `container::spec_is_float_literal`).
use vstd::prelude::*;
use crate::insn::{Difficulty, Level};

verus! {

/// The abstract content of one difficulty of a maidata file.
pub struct BeatmapView {
    pub difficulty: Difficulty,
    pub designer: Option<Seq<char>>,
    pub offset: Option<Seq<char>>,
    pub level: Option<Level>,
    pub inote: Seq<char>,
    pub single_message: Option<Seq<char>>,
}

/// The abstract content of a maidata file.
pub struct MaidataView {
    pub title: Seq<char>,
    pub artist: Seq<char>,
    pub fallback_designer: Option<Seq<char>>,
    pub fallback_offset: Option<Seq<char>>,
    pub fallback_single_message: Option<Seq<char>>,
    pub difficulties: Seq<BeatmapView>,
}

/// The characters of an optional string.
pub open spec fn opt_view(o: Option<String>) -> Option<Seq<char>> {
    match o {
        Some(s) => Some(s@),
        None => None,
    }
}

/// Per-difficulty chart data within a maidata file.
#[derive(Clone, Debug)]
pub struct BeatmapData {
    difficulty: Difficulty,
    designer: Option<String>,
    offset: Option<String>,
    level: Option<Level>,
    inote: String,
    single_message: Option<String>,
}

impl View for BeatmapData {
    type V = BeatmapView;

    closed spec fn view(&self) -> BeatmapView {
        BeatmapView {
            difficulty: self.difficulty,
            designer: opt_view(self.designer),
            offset: opt_view(self.offset),
            level: self.level,
            inote: self.inote@,
            single_message: opt_view(self.single_message),
        }
    }
}

/// The data of a difficulty that no key has mentioned yet.
pub open spec fn default_beatmap(difficulty: Difficulty) -> BeatmapView {
    BeatmapView {
        difficulty,
        designer: None,
        offset: None,
        level: None,
        inote: Seq::empty(),
        single_message: None,
    }
}

impl BeatmapData {
    pub fn difficulty(&self) -> (r: Difficulty)
        ensures
            r == self@.difficulty,
    {
        self.difficulty
    }

    pub fn default_with_difficulty(difficulty: Difficulty) -> (r: Self)
        ensures
            r@ == default_beatmap(difficulty),
    {
        BeatmapData {
            difficulty,
            designer: None,
            offset: None,
            level: None,
            inote: String::new(),
            single_message: None,
        }
    }

    pub fn set_designer(&mut self, designer: String)
        ensures
            final(self)@ == (BeatmapView { designer: Some(designer@), ..old(self)@ }),
    {
        self.designer = Some(designer);
    }

    pub fn set_offset(&mut self, offset: String)
        ensures
            final(self)@ == (BeatmapView { offset: Some(offset@), ..old(self)@ }),
    {
        self.offset = Some(offset);
    }

    pub fn set_inote(&mut self, inote: String)
        ensures
            final(self)@ == (BeatmapView { inote: inote@, ..old(self)@ }),
    {
        self.inote = inote;
    }

    pub fn set_level(&mut self, level: Level)
        ensures
            final(self)@ == (BeatmapView { level: Some(level), ..old(self)@ }),
    {
        self.level = Some(level);
    }

    pub fn set_single_message(&mut self, message: String)
        ensures
            final(self)@ == (BeatmapView { single_message: Some(message@), ..old(self)@ }),
    {
        self.single_message = Some(message);
    }
}

/// The difficulties are listed in increasing order, each at most once.
pub open spec fn sorted_difficulties(ds: Seq<BeatmapView>) -> bool {
    forall|i: int, j: int|
        0 <= i < j < ds.len() ==> #[trigger] ds[i].difficulty.spec_number()
            < #[trigger] ds[j].difficulty.spec_number()
}

/// Top-level maidata file model containing metadata and per-difficulty chart data.
#[derive(Clone, Debug)]
pub struct Maidata {
    title: String,
    artist: String,
    fallback_designer: Option<String>,
    fallback_offset: Option<String>,
    fallback_single_message: Option<String>,
    difficulties: Vec<BeatmapData>,
}

impl View for Maidata {
    type V = MaidataView;

    closed spec fn view(&self) -> MaidataView {
        MaidataView {
            title: self.title@,
            artist: self.artist@,
            fallback_designer: opt_view(self.fallback_designer),
            fallback_offset: opt_view(self.fallback_offset),
            fallback_single_message: opt_view(self.fallback_single_message),
            difficulties: self.difficulties@.map_values(|b: BeatmapData| b@),
        }
    }
}

/// A file in which no key has been read yet.
pub open spec fn empty_maidata() -> MaidataView {
    MaidataView {
        title: Seq::empty(),
        artist: Seq::empty(),
        fallback_designer: None,
        fallback_offset: None,
        fallback_single_message: None,
        difficulties: Seq::empty(),
    }
}

impl Maidata {
    /// A file in which no key has been read yet.
    pub fn new() -> (r: Maidata)
        ensures
            r@ == empty_maidata(),
    {
        let r = Maidata {
            title: String::new(),
            artist: String::new(),
            fallback_designer: None,
            fallback_offset: None,
            fallback_single_message: None,
            difficulties: Vec::new(),
        };
        assert(r@.difficulties =~= Seq::<BeatmapView>::empty());
        r
    }

    pub fn title(&self) -> (r: &str)
        ensures
            r@ == self@.title,
    {
        self.title.as_str()
    }

    pub fn artist(&self) -> (r: &str)
        ensures
            r@ == self@.artist,
    {
        self.artist.as_str()
    }

    /// A view of each difficulty together with the file's fallbacks, in difficulty order.
    pub fn iter_difficulties(&self) -> (r: Vec<AssociatedBeatmapData<'_>>)
        ensures
            r@.len() == self@.difficulties.len(),
            forall|i: int|
                0 <= i < r@.len() ==> (#[trigger] r@[i]).global@ == self@ && r@[i].map@
                    == self@.difficulties[i],
    {
        let mut r: Vec<AssociatedBeatmapData<'_>> = Vec::new();
        let mut i: usize = 0;
        while i < self.difficulties.len()
            invariant
                i <= self.difficulties@.len(),
                r@.len() == i,
                forall|j: int|
                    0 <= j < i ==> (#[trigger] r@[j]).global@ == self@ && r@[j].map@
                        == self@.difficulties[j],
            decreases self.difficulties@.len() - i,
        {
            r.push(AssociatedBeatmapData { global: self, map: &self.difficulties[i] });
            i = i + 1;
        }
        r
    }

    pub fn set_title(&mut self, title: String)
        ensures
            final(self)@ == (MaidataView { title: title@, ..old(self)@ }),
    {
        self.title = title;
    }

    pub fn set_artist(&mut self, artist: String)
        ensures
            final(self)@ == (MaidataView { artist: artist@, ..old(self)@ }),
    {
        self.artist = artist;
    }

    pub fn set_fallback_designer(&mut self, designer: String)
        ensures
            final(self)@ == (MaidataView { fallback_designer: Some(designer@), ..old(self)@ }),
    {
        self.fallback_designer = Some(designer);
    }

    pub fn set_fallback_offset(&mut self, offset: String)
        ensures
            final(self)@ == (MaidataView { fallback_offset: Some(offset@), ..old(self)@ }),
    {
        self.fallback_offset = Some(offset);
    }

    pub fn set_fallback_single_message(&mut self, message: String)
        ensures
            final(self)@ == (MaidataView {
                fallback_single_message: Some(message@),
                ..old(self)@
            }),
    {
        self.fallback_single_message = Some(message);
    }

    /// Position of the first difficulty that does not come before `n`.
    pub(crate) fn difficulty_position(&self, n: u8) -> (r: usize)
        ensures
            r == first_not_below(self@.difficulties, n),
            r <= self@.difficulties.len(),
    {
        let mut i: usize = 0;
        assert(self@.difficulties.skip(0) == self@.difficulties);
        while i < self.difficulties.len() && self.difficulties[i].difficulty.number() < n
            invariant
                i <= self.difficulties@.len(),
                first_not_below(self@.difficulties, n) == i + first_not_below(
                    self@.difficulties.skip(i as int),
                    n,
                ),
            decreases self.difficulties@.len() - i,
        {
            assert(self@.difficulties.skip(i as int).drop_first() == self@.difficulties.skip(
                i + 1,
            ));
            assert(self@.difficulties.skip(i as int)[0] == self@.difficulties[i as int]);
            i = i + 1;
        }
        if i < self.difficulties.len() {
            assert(self@.difficulties.skip(i as int)[0] == self@.difficulties[i as int]);
        } else {
            assert(self@.difficulties.skip(i as int).len() == 0);
        }
        i
    }

    /// Applies `update` to the data of `difficulty`, creating that data first (in its
    /// sorted place) if the file has none yet.
    pub fn update_difficulty(&mut self, difficulty: Difficulty, update: BeatmapUpdate, val: &[char])
        ensures
            final(self)@ == (MaidataView {
                difficulties: upsert(old(self)@.difficulties, difficulty, update, val@),
                ..old(self)@
            }),
    {
        let p = self.difficulty_position(difficulty.number());
        let ghost ds = self@.difficulties;
        let ghost bs = self.difficulties@;
        if p < self.difficulties.len() && self.difficulties[p].difficulty == difficulty {
            let mut b = self.difficulties.remove(p);
            assert(b@ == ds[p as int]);
            b.apply(update, val);
            self.difficulties.insert(p, b);
            assert(self.difficulties@ =~= bs.update(p as int, b));
            assert(self@.difficulties =~= ds.update(
                p as int,
                apply_beatmap_update(ds[p as int], update, val@),
            ));
        } else {
            let mut b = BeatmapData::default_with_difficulty(difficulty);
            b.apply(update, val);
            self.difficulties.insert(p, b);
            assert(self.difficulties@ =~= bs.insert(p as int, b));
            assert(self@.difficulties =~= ds.insert(
                p as int,
                apply_beatmap_update(default_beatmap(difficulty), update, val@),
            ));
        }
    }
}

/// What a per-difficulty key sets.
#[derive(Clone, Copy, Debug, PartialEq, Eq, Structural)]
pub enum BeatmapUpdate {
    /// `des_N`: the designer.
    Designer,
    /// `first_N`: the offset.
    Offset,
    /// `inote_N`: the chart text.
    Inote,
    /// `lv_N`: the level, if the value reads as one (otherwise nothing changes).
    Level(Option<Level>),
    /// `smsg_N` / `freemsg_N`: the single message.
    Message,
}

/// The data of a difficulty after one key of it has been read with value `val`.
pub open spec fn apply_beatmap_update(b: BeatmapView, u: BeatmapUpdate, val: Seq<char>) -> BeatmapView {
    match u {
        BeatmapUpdate::Designer => BeatmapView { designer: Some(val), ..b },
        BeatmapUpdate::Offset => BeatmapView { offset: Some(val), ..b },
        BeatmapUpdate::Inote => BeatmapView { inote: val, ..b },
        BeatmapUpdate::Level(lv) => match lv {
            Some(l) => BeatmapView { level: Some(l), ..b },
            None => b,
        },
        BeatmapUpdate::Message => BeatmapView { single_message: Some(val), ..b },
    }
}

/// The number of leading entries whose difficulty comes before number `n`.
pub open spec fn first_not_below(ds: Seq<BeatmapView>, n: u8) -> nat
    decreases ds.len(),
{
    if ds.len() == 0 {
        0
    } else if ds[0].difficulty.spec_number() < n {
        1 + first_not_below(ds.drop_first(), n)
    } else {
        0
    }
}

/// The difficulty list after a key of difficulty `d` has been read: the entry of `d` is
/// updated, or a fresh one is inserted before the first later difficulty.
pub open spec fn upsert(ds: Seq<BeatmapView>, d: Difficulty, u: BeatmapUpdate, val: Seq<char>) -> Seq<
    BeatmapView,
> {
    let p = first_not_below(ds, d.spec_number()) as int;
    if p < ds.len() && ds[p].difficulty == d {
        ds.update(p, apply_beatmap_update(ds[p], u, val))
    } else {
        ds.insert(p, apply_beatmap_update(default_beatmap(d), u, val))
    }
}

proof fn lemma_first_not_below(ds: Seq<BeatmapView>, n: u8)
    requires
        sorted_difficulties(ds),
    ensures
        first_not_below(ds, n) <= ds.len(),
        forall|i: int|
            0 <= i < first_not_below(ds, n) ==> (#[trigger] ds[i]).difficulty.spec_number() < n,
        forall|i: int|
            first_not_below(ds, n) <= i < ds.len() ==> (#[trigger] ds[i]).difficulty.spec_number()
                >= n,
    decreases ds.len(),
{
    if ds.len() > 0 {
        let t = ds.drop_first();
        assert(sorted_difficulties(t)) by {
            assert forall|i: int, j: int| 0 <= i < j < t.len() implies #[trigger] t[i].difficulty.spec_number()
                < #[trigger] t[j].difficulty.spec_number() by {
                assert(t[i] == ds[i + 1]);
                assert(t[j] == ds[j + 1]);
            }
        }
        lemma_first_not_below(t, n);
        if ds[0].difficulty.spec_number() < n {
            assert forall|i: int| 0 <= i < first_not_below(ds, n) implies (
            #[trigger] ds[i]).difficulty.spec_number() < n by {
                if i > 0 {
                    assert(ds[i] == t[i - 1]);
                }
            }
            assert forall|i: int| first_not_below(ds, n) <= i < ds.len() implies (
            #[trigger] ds[i]).difficulty.spec_number() >= n by {
                assert(ds[i] == t[i - 1]);
            }
        } else {
            assert forall|i: int| 0 <= i < ds.len() implies (
            #[trigger] ds[i]).difficulty.spec_number() >= n by {
                if i > 0 {
                    assert(ds[0].difficulty.spec_number() < ds[i].difficulty.spec_number());
                }
            }
        }
    }
}

/// Reading a per-difficulty key keeps the difficulties sorted and free of repeats.
pub proof fn lemma_upsert_sorted(ds: Seq<BeatmapView>, d: Difficulty, u: BeatmapUpdate, val: Seq<char>)
    requires
        sorted_difficulties(ds),
    ensures
        sorted_difficulties(upsert(ds, d, u, val)),
        exists|i: int|
            0 <= i < upsert(ds, d, u, val).len() && (#[trigger] upsert(ds, d, u, val)[i]).difficulty
                == d,
{
    lemma_first_not_below(ds, d.spec_number());
    let p = first_not_below(ds, d.spec_number()) as int;
    let r = upsert(ds, d, u, val);
    if p < ds.len() && ds[p].difficulty == d {
        assert(r[p].difficulty == d);
        assert forall|i: int, j: int| 0 <= i < j < r.len() implies #[trigger] r[i].difficulty.spec_number()
            < #[trigger] r[j].difficulty.spec_number() by {
            assert(r[i].difficulty == ds[i].difficulty);
            assert(r[j].difficulty == ds[j].difficulty);
        }
    } else {
        assert(r[p].difficulty == d);
        if p < ds.len() {
            assert(ds[p].difficulty.spec_number() != d.spec_number()) by {
                crate::insn::lemma_difficulty_number_roundtrip(ds[p].difficulty, d);
            }
        }
        assert forall|i: int, j: int| 0 <= i < j < r.len() implies #[trigger] r[i].difficulty.spec_number()
            < #[trigger] r[j].difficulty.spec_number() by {
            if j < p {
                assert(r[i] == ds[i] && r[j] == ds[j]);
            } else if j == p {
                assert(r[i] == ds[i]);
            } else if i < p {
                assert(r[i] == ds[i] && r[j] == ds[j - 1]);
            } else if i == p {
                assert(r[j] == ds[j - 1]);
            } else {
                assert(r[i] == ds[i - 1] && r[j] == ds[j - 1]);
            }
        }
    }
}

impl BeatmapData {
    /// Applies what one per-difficulty key sets.
    pub fn apply(&mut self, update: BeatmapUpdate, val: &[char])
        ensures
            final(self)@ == apply_beatmap_update(old(self)@, update, val@),
    {
        match update {
            BeatmapUpdate::Designer => self.set_designer(crate::text::string_of(val)),
            BeatmapUpdate::Offset => self.set_offset(crate::text::string_of(val)),
            BeatmapUpdate::Inote => self.set_inote(crate::text::string_of(val)),
            BeatmapUpdate::Level(lv) => match lv {
                Some(l) => self.set_level(l),
                None => {},
            },
            BeatmapUpdate::Message => self.set_single_message(crate::text::string_of(val)),
        }
    }
}

/// A borrowed view combining global maidata metadata with a specific difficulty's data.
pub struct AssociatedBeatmapData<'a> {
    pub global: &'a Maidata,
    pub map: &'a BeatmapData,
}

/// The value of a per-difficulty text field, or the file-wide fallback when it is unset.
pub open spec fn with_fallback(own: Option<Seq<char>>, fallback: Option<Seq<char>>) -> Option<Seq<char>> {
    match own {
        Some(v) => Some(v),
        None => fallback,
    }
}

impl<'a> AssociatedBeatmapData<'a> {
    pub fn difficulty(&self) -> (r: Difficulty)
        ensures
            r == self.map@.difficulty,
    {
        self.map.difficulty
    }

    /// The designer of this difficulty, or the file's designer when it has none.
    pub fn designer(&self) -> (r: Option<&str>)
        ensures
            opt_str_view(r) == with_fallback(self.map@.designer, self.global@.fallback_designer),
    {
        match &self.map.designer {
            Some(d) => Some(d.as_str()),
            None => match &self.global.fallback_designer {
                Some(d) => Some(d.as_str()),
                None => None,
            },
        }
    }

    /// The offset text of this difficulty, or the file's offset text when it has none.
    pub fn offset_text(&self) -> (r: Option<&str>)
        ensures
            opt_str_view(r) == with_fallback(self.map@.offset, self.global@.fallback_offset),
    {
        match &self.map.offset {
            Some(d) => Some(d.as_str()),
            None => match &self.global.fallback_offset {
                Some(d) => Some(d.as_str()),
                None => None,
            },
        }
    }

    pub fn level(&self) -> (r: Option<Level>)
        ensures
            r == self.map@.level,
    {
        self.map.level
    }

    /// The chart text (`inote_N`) of this difficulty.
    pub fn inote(&self) -> (r: &str)
        ensures
            r@ == self.map@.inote,
    {
        self.map.inote.as_str()
    }

    /// The single message of this difficulty, or the file's message when it has none.
    pub fn single_message(&self) -> (r: Option<&str>)
        ensures
            opt_str_view(r) == with_fallback(
                self.map@.single_message,
                self.global@.fallback_single_message,
            ),
    {
        match &self.map.single_message {
            Some(d) => Some(d.as_str()),
            None => match &self.global.fallback_single_message {
                Some(d) => Some(d.as_str()),
                None => None,
            },
        }
    }
}

/// The characters of an optional string slice.
pub open spec fn opt_str_view(o: Option<&str>) -> Option<Seq<char>> {
    match o {
        Some(s) => Some(s@),
        None => None,
    }
}

/// Difficulty `d` has an entry in `ds`.
pub open spec fn has_difficulty(ds: Seq<BeatmapView>, d: Difficulty) -> bool {
    exists|i: int| 0 <= i < ds.len() && (#[trigger] ds[i]).difficulty == d
}

/// Reading a key of difficulty `d` gives `d` an entry and no other difficulty one.
pub proof fn lemma_upsert_members(ds: Seq<BeatmapView>, d: Difficulty, u: BeatmapUpdate, val: Seq<char>, e: Difficulty)
    ensures
        has_difficulty(upsert(ds, d, u, val), e) <==> (has_difficulty(ds, e) || e == d),
{
    let p = first_not_below(ds, d.spec_number()) as int;
    let r = upsert(ds, d, u, val);
    lemma_first_not_below_le(ds, d.spec_number());
    if p < ds.len() && ds[p].difficulty == d {
        assert forall|i: int| 0 <= i < ds.len() implies r[i].difficulty == ds[i].difficulty by {}
        if has_difficulty(r, e) {
            let i = choose|i: int| 0 <= i < r.len() && (#[trigger] r[i]).difficulty == e;
            assert(ds[i].difficulty == e);
        }
        if has_difficulty(ds, e) {
            let i = choose|i: int| 0 <= i < ds.len() && (#[trigger] ds[i]).difficulty == e;
            assert(r[i].difficulty == e);
        }
        if e == d {
            assert(r[p].difficulty == e);
        }
    } else {
        assert(r[p].difficulty == d);
        if has_difficulty(r, e) {
            let i = choose|i: int| 0 <= i < r.len() && (#[trigger] r[i]).difficulty == e;
            if i < p {
                assert(ds[i] == r[i]);
            } else if i > p {
                assert(ds[i - 1] == r[i]);
            }
        }
        if has_difficulty(ds, e) {
            let i = choose|i: int| 0 <= i < ds.len() && (#[trigger] ds[i]).difficulty == e;
            if i < p {
                assert(r[i] == ds[i]);
            } else {
                assert(r[i + 1] == ds[i]);
            }
        }
    }
}

proof fn lemma_first_not_below_le(ds: Seq<BeatmapView>, n: u8)
    ensures
        first_not_below(ds, n) <= ds.len(),
    decreases ds.len(),
{
    if ds.len() > 0 {
        lemma_first_not_below_le(ds.drop_first(), n);
    }
}


/// Reading a key of difficulty `d` with value `val` leaves an entry of `d` whose field of
/// that key holds `val`.
pub proof fn lemma_upsert_sets_field(ds: Seq<BeatmapView>, d: Difficulty, u: BeatmapUpdate, val: Seq<char>)
    ensures
        exists|i: int|
            0 <= i < upsert(ds, d, u, val).len() && (#[trigger] upsert(ds, d, u, val)[i]).difficulty == d && (
            u is Designer ==> upsert(ds, d, u, val)[i].designer == Some(val)) && (u is Offset
                ==> upsert(ds, d, u, val)[i].offset == Some(val)) && (u is Inote ==> upsert(ds, d, u, val)[i].inote
                == val) && (u is Message ==> upsert(ds, d, u, val)[i].single_message == Some(val)),
{
    lemma_first_not_below_le(ds, d.spec_number());
    let p = first_not_below(ds, d.spec_number()) as int;
    let r = upsert(ds, d, u, val);
    assert(r[p].difficulty == d);
}


/// Reading a level key of difficulty `d` whose value reads as level `l` leaves an entry of
/// `d` at level `l`.
pub proof fn lemma_upsert_level(ds: Seq<BeatmapView>, d: Difficulty, l: Level, val: Seq<char>)
    ensures
        exists|i: int|
            0 <= i < upsert(ds, d, BeatmapUpdate::Level(Some(l)), val).len() && (#[trigger] upsert(
                ds,
                d,
                BeatmapUpdate::Level(Some(l)),
                val,
            )[i]).difficulty == d && upsert(ds, d, BeatmapUpdate::Level(Some(l)), val)[i].level
                == Some(l),
{
    lemma_first_not_below_le(ds, d.spec_number());
    let p = first_not_below(ds, d.spec_number()) as int;
    assert(upsert(ds, d, BeatmapUpdate::Level(Some(l)), val)[p].difficulty == d);
}

} // verus!
