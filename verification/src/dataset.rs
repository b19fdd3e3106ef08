//! Helpers of the heatmap dataset exporter: command-line handling, song ids of
//! augmented charts, file names of difficulties and the difficulties that carry chart
//! constants.
use vstd::prelude::*;
use crate::container::find_char;
use crate::insn::Difficulty;
use crate::text::{
    all_digits, is_digit, lemma_decimal_digits, chars_of, parse_unsigned, push_chars, push_decimal, spec_decimal, spec_parse_unsigned,
    string_of,
};

verus! {

/// The numeric part of a song id: the text before the first `_` (all of it if there is none).
pub open spec fn numeric_part(song_id: Seq<char>) -> Seq<char> {
    song_id.take(find_char(song_id, 0, '_'))
}

/// The song id of an augmented copy: the numeric part raised by `offset` followed by the
/// rest of the id, or `<offset>_<id>` when the id does not start with a number.
pub open spec fn spec_offset_song_id(song_id: Seq<char>, offset: u64) -> Seq<char> {
    let n = find_char(song_id, 0, '_');
    match spec_parse_unsigned(song_id.take(n), u64::MAX as nat) {
        Some(id) => spec_decimal((id + offset) as nat) + song_id.skip(n),
        None => spec_decimal(offset as nat) + "_"@ + song_id,
    }
}

/// The numeric part plus `offset` fits in a `u64` (the addition would overflow otherwise).
pub open spec fn offset_fits(song_id: Seq<char>, offset: u64) -> bool {
    spec_parse_unsigned(numeric_part(song_id), u64::MAX as nat) matches Some(id) ==> id + offset
        <= u64::MAX
}

/// The song id of an augmented copy of a chart (see `spec_offset_song_id`).
pub fn offset_song_id(song_id: &str, offset: u64) -> (r: String)
    requires
        offset_fits(song_id@, offset),
    ensures
        r@ == spec_offset_song_id(song_id@, offset),
{
    let v = chars_of(song_id);
    let n = find_underscore(&v);
    assert(v@.subrange(0, n as int) == v@.take(n as int));
    let mut r = String::new();
    match parse_unsigned(&v, 0, n, u64::MAX as u64) {
        Some(id) => {
            push_decimal(&mut r, id + offset);
            let rest = crate::container::copy_range(&v, n, v.len());
            assert(rest@ == v@.skip(n as int));
            push_chars(&mut r, &rest);
        },
        None => {
            push_decimal(&mut r, offset);
            r.append("_");
            push_chars(&mut r, &v);
        },
    }
    r
}

pub fn find_underscore(v: &[char]) -> (r: usize)
    ensures
        r == find_char(v@, 0, '_'),
        r <= v@.len(),
{
    let mut j: usize = 0;
    while j < v.len() && v[j] != '_'
        invariant
            j <= v@.len(),
            find_char(v@, 0, '_') == find_char(v@, j as int, '_'),
        decreases v@.len() - j,
    {
        j = j + 1;
    }
    j
}

/// The offset given after an option, if the next argument is a `u64`: `(offset, 1)`;
/// otherwise `(default, 0)`. The second value is the number of arguments used.
pub fn parse_optional_offset(args: &[String], flag_index: usize, default: u64) -> (r: (u64, usize))
    requires
        flag_index < usize::MAX,
    ensures
        ({
            let i = flag_index + 1;
            if i < args@.len() && spec_parse_unsigned(args@[i]@, u64::MAX as nat) is Some {
                r == (spec_parse_unsigned(args@[i]@, u64::MAX as nat)->0 as u64, 1usize)
            } else {
                r == (default, 0usize)
            }
        }),
{
    let i = flag_index + 1;
    if i < args.len() {
        let v = chars_of(args[i].as_str());
        assert(v@.subrange(0, v@.len() as int) == v@);
        match parse_unsigned(&v, 0, v.len(), u64::MAX as u64) {
            Some(n) => (n, 1),
            None => (default, 0),
        }
    } else {
        (default, 0)
    }
}

/// The song id of a chart in the dataset exporter: the name of the directory holding its
/// maidata file, or `unknown` (see `spec_song_id`); the chart root is not used.
pub fn extract_song_id(maidata_path: &str, _chart_root: &str) -> (r: String)
    ensures
        r@ == crate::note_export::cli::spec_song_id(maidata_path@),
        r@ == "unknown"@ || exists|i: int| #[trigger] crate::text::occurs_at(maidata_path@, r@, i),
{
    crate::note_export::cli::extract_song_id(maidata_path)
}

/// The name of a difficulty, as used in file names.
pub open spec fn spec_diff_discriminant(d: Difficulty) -> Seq<char> {
    match d {
        Difficulty::Easy => "Easy"@,
        Difficulty::Basic => "Basic"@,
        Difficulty::Advanced => "Advanced"@,
        Difficulty::Expert => "Expert"@,
        Difficulty::Master => "Master"@,
        Difficulty::ReMaster => "ReMaster"@,
        Difficulty::Original => "Original"@,
    }
}

/// The name of a difficulty, as used in file names.
pub fn diff_discriminant(d: Difficulty) -> (r: &'static str)
    ensures
        r@ == spec_diff_discriminant(d),
{
    match d {
        Difficulty::Easy => "Easy",
        Difficulty::Basic => "Basic",
        Difficulty::Advanced => "Advanced",
        Difficulty::Expert => "Expert",
        Difficulty::Master => "Master",
        Difficulty::ReMaster => "ReMaster",
        Difficulty::Original => "Original",
    }
}

/// The difficulty numbers of a song's list of chart constants: five constants are
/// Basic to Re:Master (2..=6), four are Basic to Master (2..=5); other lengths are skipped.
pub fn chart_constant_difficulties(ds_len: usize) -> (r: Option<Vec<u8>>)
    ensures
        ds_len == 5 ==> (r matches Some(v) && v@ == seq![2u8, 3, 4, 5, 6]),
        ds_len == 4 ==> (r matches Some(v) && v@ == seq![2u8, 3, 4, 5]),
        ds_len != 4 && ds_len != 5 ==> r is None,
{
    if ds_len == 5 {
        let v: Vec<u8> = vec![2, 3, 4, 5, 6];
        assert(v@ =~= seq![2u8, 3, 4, 5, 6]);
        Some(v)
    } else if ds_len == 4 {
        let v: Vec<u8> = vec![2, 3, 4, 5];
        assert(v@ =~= seq![2u8, 3, 4, 5]);
        Some(v)
    } else {
        None
    }
}

/// The geometric transformation of an augmented copy.
#[derive(Clone, Copy, Debug, PartialEq, Eq, Structural)]
pub enum Augmentation {
    Mirror,
    VerticalFlip,
    MirrorVerticalFlip,
}

/// The augmented copies to write, with their song-id offsets: a mirrored copy for a
/// positive mirror offset, a flipped copy for a positive flip offset, and with both a copy
/// that is mirrored and flipped, offset by their sum.
pub open spec fn spec_augmentations(mirror: Option<u64>, flip: Option<u64>) -> Seq<(Augmentation, u64)> {
    let a = match mirror {
        Some(o) => if o > 0 {
            seq![(Augmentation::Mirror, o)]
        } else {
            Seq::empty()
        },
        None => Seq::empty(),
    };
    let b = match flip {
        Some(o) => if o > 0 {
            seq![(Augmentation::VerticalFlip, o)]
        } else {
            Seq::empty()
        },
        None => Seq::empty(),
    };
    let c = match (mirror, flip) {
        (Some(m), Some(f)) => if m > 0 && f > 0 {
            seq![(Augmentation::MirrorVerticalFlip, (m + f) as u64)]
        } else {
            Seq::empty()
        },
        _ => Seq::empty(),
    };
    a + b + c
}

/// The augmented copies to write (see `spec_augmentations`).
pub fn augmentation_variants(mirror: Option<u64>, flip: Option<u64>) -> (r: Vec<(Augmentation, u64)>)
    requires
        (mirror, flip) matches (Some(m), Some(f)) ==> m + f <= u64::MAX,
    ensures
        r@ == spec_augmentations(mirror, flip),
{
    let mut r: Vec<(Augmentation, u64)> = Vec::new();
    match mirror {
        Some(o) => if o > 0 {
            r.push((Augmentation::Mirror, o));
        },
        None => {},
    }
    match flip {
        Some(o) => if o > 0 {
            r.push((Augmentation::VerticalFlip, o));
        },
        None => {},
    }
    match (mirror, flip) {
        (Some(m), Some(f)) => if m > 0 && f > 0 {
            r.push((Augmentation::MirrorVerticalFlip, m + f));
        },
        _ => {},
    }
    assert(r@ =~= spec_augmentations(mirror, flip));
    r
}

/// The options of the dataset exporter.
#[derive(Clone, Debug)]
pub struct DatasetArgs {
    pub chart_root: String,
    pub output_dir: String,
    pub limit: Option<usize>,
    pub mirror_offset: Option<u64>,
    pub vertical_flip_offset: Option<u64>,
}

/// Why the dataset exporter's arguments were refused.
#[derive(Clone, Debug)]
pub enum DatasetArgsError {
    /// The chart root or the output directory is missing.
    Usage,
    /// An argument after the two paths is not a chart count.
    InvalidLimit(String),
}

/// The argument scan of the dataset exporter from position `i` on; state is
/// (chart root, output dir, limit, mirror offset, flip offset). `None` for a bad limit.
pub open spec fn spec_scan_dataset_args(
    args: Seq<Seq<char>>,
    i: int,
    st: (Seq<char>, Seq<char>, Option<usize>, Option<u64>, Option<u64>),
) -> Result<(Seq<char>, Seq<char>, Option<usize>, Option<u64>, Option<u64>), Seq<char>>
    decreases args.len() - i,
{
    if i < 1 || i >= args.len() {
        Ok(st)
    } else {
        let a = args[i];
        let (root, out, limit, mirror, flip) = st;
        if a == "--mirror"@ {
            let (o, used) = spec_optional_offset(args, i, 10_000_000);
            spec_scan_dataset_args(args, i + 1 + used, (root, out, limit, Some(o), flip))
        } else if a == "--vertical-flip"@ || a == "--flip-vertical"@ || a == "--flip-y"@ {
            let (o, used) = spec_optional_offset(args, i, 20_000_000);
            spec_scan_dataset_args(args, i + 1 + used, (root, out, limit, mirror, Some(o)))
        } else if root.len() == 0 {
            spec_scan_dataset_args(args, i + 1, (a, out, limit, mirror, flip))
        } else if out.len() == 0 {
            spec_scan_dataset_args(args, i + 1, (root, a, limit, mirror, flip))
        } else {
            match spec_parse_unsigned(a, usize::MAX as nat) {
                Some(n) => spec_scan_dataset_args(args, i + 1, (root, out, Some(n as usize), mirror, flip)),
                None => Err(a),
            }
        }
    }
}

/// The offset after the option at `i` (see `parse_optional_offset`).
pub open spec fn spec_optional_offset(args: Seq<Seq<char>>, i: int, default: u64) -> (u64, int) {
    if i + 1 < args.len() && spec_parse_unsigned(args[i + 1], u64::MAX as nat) is Some {
        (spec_parse_unsigned(args[i + 1], u64::MAX as nat)->0 as u64, 1)
    } else {
        (default, 0)
    }
}

/// Reads the dataset exporter's arguments (`args[0]` is the program name):
/// `--mirror [offset]`, `--vertical-flip [offset]` (also `--flip-vertical`, `--flip-y`),
/// then the chart root, the output directory and an optional chart limit.
pub fn parse_dataset_args(args: &[String]) -> (r: Result<DatasetArgs, DatasetArgsError>)
    ensures
        ({
            let av = args@.map_values(|s: String| s@);
            let scan = spec_scan_dataset_args(av, 1, (Seq::empty(), Seq::empty(), None, None, None));
            match r {
                Ok(d) => scan matches Ok(st) && st.0.len() > 0 && st.1.len() > 0 && d.chart_root@
                    == st.0 && d.output_dir@ == st.1 && d.limit == st.2 && d.mirror_offset == st.3
                    && d.vertical_flip_offset == st.4,
                Err(DatasetArgsError::Usage) => scan matches Ok(st) && (st.0.len() == 0 || st.1.len()
                    == 0),
                Err(DatasetArgsError::InvalidLimit(a)) => scan == Err::<
                    (Seq<char>, Seq<char>, Option<usize>, Option<u64>, Option<u64>),
                    Seq<char>,
                >(a@),
            }
        }),
{
    let ghost av = args@.map_values(|s: String| s@);
    let mut root: Vec<char> = Vec::new();
    let mut out: Vec<char> = Vec::new();
    let mut limit: Option<usize> = None;
    let mut mirror: Option<u64> = None;
    let mut flip: Option<u64> = None;
    let mut i: usize = 1;
    while i < args.len()
        invariant
            av == args@.map_values(|s: String| s@),
            1 <= i,
            spec_scan_dataset_args(av, 1, (Seq::empty(), Seq::empty(), None, None, None))
                == spec_scan_dataset_args(av, i as int, (root@, out@, limit, mirror, flip)),
        decreases args@.len() - i,
    {
        let a = args[i].as_str();
        assert(av[i as int] == a@);
        if crate::text::str_eq(a, "--mirror") {
            let (o, used) = parse_optional_offset(args, i, 10_000_000);
            proof {
                if i + 1 < args@.len() {
                    assert(av[i + 1] == args@[i + 1]@);
                }
            }
            mirror = Some(o);
            i = i + used;
        } else if crate::text::str_eq(a, "--vertical-flip") || crate::text::str_eq(
            a,
            "--flip-vertical",
        ) || crate::text::str_eq(a, "--flip-y") {
            let (o, used) = parse_optional_offset(args, i, 20_000_000);
            proof {
                if i + 1 < args@.len() {
                    assert(av[i + 1] == args@[i + 1]@);
                }
            }
            flip = Some(o);
            i = i + used;
        } else if root.len() == 0 {
            root = chars_of(a);
        } else if out.len() == 0 {
            out = chars_of(a);
        } else {
            let v = chars_of(a);
            assert(v@.subrange(0, v@.len() as int) == v@);
            match parse_unsigned(&v, 0, v.len(), usize::MAX as u64) {
                Some(n) => {
                    limit = Some(n as usize);
                },
                None => {
                    return Err(DatasetArgsError::InvalidLimit(string_of(&v)));
                },
            }
        }
        i = i + 1;
    }
    if root.len() == 0 || out.len() == 0 {
        return Err(DatasetArgsError::Usage);
    }
    Ok(
        DatasetArgs {
            chart_root: string_of(&root),
            output_dir: string_of(&out),
            limit,
            mirror_offset: mirror,
            vertical_flip_offset: flip,
        },
    )
}


/// The options of the dataset exporter: `--mirror` and the three spellings of the
/// vertical flip, `--vertical-flip`, `--flip-vertical` and `--flip-y`.
pub open spec fn is_flip_option(a: Seq<char>) -> bool {
    a == "--vertical-flip"@ || a == "--flip-vertical"@ || a == "--flip-y"@
}

/// An option of the dataset exporter (see `is_flip_option`).
pub open spec fn is_dataset_option(a: Seq<char>) -> bool {
    a == "--mirror"@ || is_flip_option(a)
}

/// An option is never read as an offset: it is not a number.
proof fn lemma_option_not_number(a: Seq<char>)
    requires
        is_dataset_option(a),
    ensures
        spec_parse_unsigned(a, u64::MAX as nat) is None,
        spec_parse_unsigned(a, usize::MAX as nat) is None,
{
    reveal_strlit("--mirror");
    reveal_strlit("--vertical-flip");
    reveal_strlit("--flip-vertical");
    reveal_strlit("--flip-y");
    assert(a.len() > 0 && a[0] == '-');
    assert(!crate::text::is_digit(a[0]));
}

/// Options are never taken as paths: the chart root and output directory that the scan
/// gives are never `--mirror` or a flip option.
pub proof fn lemma_options_never_paths(
    args: Seq<Seq<char>>,
    i: int,
    st: (Seq<char>, Seq<char>, Option<usize>, Option<u64>, Option<u64>),
)
    requires
        1 <= i,
        !is_dataset_option(st.0),
        !is_dataset_option(st.1),
    ensures
        spec_scan_dataset_args(args, i, st) matches Ok(r) ==> !is_dataset_option(r.0)
            && !is_dataset_option(r.1),
    decreases args.len() - i,
{
    if i < args.len() {
        let a = args[i];
        let (root, out, limit, mirror, flip) = st;
        if a == "--mirror"@ {
            let (o, used) = spec_optional_offset(args, i, 10_000_000);
            lemma_options_never_paths(args, i + 1 + used, (root, out, limit, Some(o), flip));
        } else if is_flip_option(a) {
            let (o, used) = spec_optional_offset(args, i, 20_000_000);
            lemma_options_never_paths(args, i + 1 + used, (root, out, limit, mirror, Some(o)));
        } else if root.len() == 0 {
            lemma_options_never_paths(args, i + 1, (a, out, limit, mirror, flip));
        } else if out.len() == 0 {
            lemma_options_never_paths(args, i + 1, (root, a, limit, mirror, flip));
        } else {
            match spec_parse_unsigned(a, usize::MAX as nat) {
                Some(n) => lemma_options_never_paths(
                    args,
                    i + 1,
                    (root, out, Some(n as usize), mirror, flip),
                ),
                None => {},
            }
        }
    }
}

/// Once an offset is set, later arguments never unset it.
proof fn lemma_offsets_stay_set(
    args: Seq<Seq<char>>,
    i: int,
    st: (Seq<char>, Seq<char>, Option<usize>, Option<u64>, Option<u64>),
)
    requires
        1 <= i,
    ensures
        spec_scan_dataset_args(args, i, st) matches Ok(r) ==> (st.3 is Some ==> r.3 is Some) && (
        st.4 is Some ==> r.4 is Some),
    decreases args.len() - i,
{
    if i < args.len() {
        let a = args[i];
        let (root, out, limit, mirror, flip) = st;
        if a == "--mirror"@ {
            let (o, used) = spec_optional_offset(args, i, 10_000_000);
            lemma_offsets_stay_set(args, i + 1 + used, (root, out, limit, Some(o), flip));
        } else if is_flip_option(a) {
            let (o, used) = spec_optional_offset(args, i, 20_000_000);
            lemma_offsets_stay_set(args, i + 1 + used, (root, out, limit, mirror, Some(o)));
        } else if root.len() == 0 {
            lemma_offsets_stay_set(args, i + 1, (a, out, limit, mirror, flip));
        } else if out.len() == 0 {
            lemma_offsets_stay_set(args, i + 1, (root, a, limit, mirror, flip));
        } else {
            match spec_parse_unsigned(a, usize::MAX as nat) {
                Some(n) => lemma_offsets_stay_set(args, i + 1, (root, out, Some(n as usize), mirror, flip)),
                None => {},
            }
        }
    }
}

/// Every option given is read as that option: a `--mirror` argument sets the mirror
/// offset, and an argument spelled `--vertical-flip`, `--flip-vertical` or `--flip-y`
/// sets the vertical flip offset.
pub proof fn lemma_options_set_offsets(
    args: Seq<Seq<char>>,
    i: int,
    st: (Seq<char>, Seq<char>, Option<usize>, Option<u64>, Option<u64>),
    j: int,
)
    requires
        1 <= i <= j < args.len(),
    ensures
        spec_scan_dataset_args(args, i, st) matches Ok(r) ==> (args[j] == "--mirror"@ ==> r.3 is Some)
            && (is_flip_option(args[j]) ==> r.4 is Some),
    decreases args.len() - i,
{
    let a = args[i];
    let (root, out, limit, mirror, flip) = st;
    if is_dataset_option(args[j]) {
        lemma_option_not_number(args[j]);
    }
    lemma_mirror_is_no_flip(args[j]);
    if a == "--mirror"@ {
        let (o, used) = spec_optional_offset(args, i, 10_000_000);
        let next = (root, out, limit, Some(o), flip);
        lemma_offsets_stay_set(args, i + 1 + used, next);
        if i < j && i + 1 + used <= j {
            lemma_options_set_offsets(args, i + 1 + used, next, j);
        }
    } else if is_flip_option(a) {
        let (o, used) = spec_optional_offset(args, i, 20_000_000);
        let next = (root, out, limit, mirror, Some(o));
        lemma_offsets_stay_set(args, i + 1 + used, next);
        if i < j && i + 1 + used <= j {
            lemma_options_set_offsets(args, i + 1 + used, next, j);
        }
    } else if i < j {
        if root.len() == 0 {
            lemma_options_set_offsets(args, i + 1, (a, out, limit, mirror, flip), j);
        } else if out.len() == 0 {
            lemma_options_set_offsets(args, i + 1, (root, a, limit, mirror, flip), j);
        } else {
            match spec_parse_unsigned(a, usize::MAX as nat) {
                Some(n) => lemma_options_set_offsets(
                    args,
                    i + 1,
                    (root, out, Some(n as usize), mirror, flip),
                    j,
                ),
                None => {},
            }
        }
    }
}

/// An option not followed by a number takes its default offset, 10000000 for the mirror
/// and 20000000 for the flip, and the next argument is read afresh.
pub proof fn lemma_option_default_offset(
    args: Seq<Seq<char>>,
    i: int,
    st: (Seq<char>, Seq<char>, Option<usize>, Option<u64>, Option<u64>),
)
    requires
        1 <= i < args.len(),
        i + 1 < args.len() ==> spec_parse_unsigned(args[i + 1], u64::MAX as nat) is None,
    ensures
        args[i] == "--mirror"@ ==> spec_scan_dataset_args(args, i, st) == spec_scan_dataset_args(
            args,
            i + 1,
            (st.0, st.1, st.2, Some(10_000_000u64), st.4),
        ),
        is_flip_option(args[i]) ==> spec_scan_dataset_args(args, i, st) == spec_scan_dataset_args(
            args,
            i + 1,
            (st.0, st.1, st.2, st.3, Some(20_000_000u64)),
        ),
{
    lemma_mirror_is_no_flip(args[i]);
}

/// `--mirror` is not a spelling of the flip.
proof fn lemma_mirror_is_no_flip(a: Seq<char>)
    ensures
        is_flip_option(a) ==> a != "--mirror"@,
{
    reveal_strlit("--mirror");
    reveal_strlit("--vertical-flip");
    reveal_strlit("--flip-vertical");
    reveal_strlit("--flip-y");
    if is_flip_option(a) && a == "--mirror"@ {
        assert(a[2] == 'm');
    }
}


/// The first `c` at or after `i` is at `j` when there is none from `i` up to `j` and `j`
/// holds one (or is the end).
proof fn lemma_find_char_at(s: Seq<char>, i: int, j: int, c: char)
    requires
        0 <= i <= j <= s.len(),
        forall|k: int| i <= k < j ==> #[trigger] s[k] != c,
        j < s.len() ==> s[j] == c,
    ensures
        find_char(s, i, c) == j,
    decreases j - i,
{
    if i < j {
        lemma_find_char_at(s, i + 1, j, c);
    }
}

/// The text from the first `_` of an id on (empty when there is none).
pub open spec fn id_suffix(song_id: Seq<char>) -> Seq<char> {
    song_id.skip(find_char(song_id, 0, '_'))
}

/// An augmented copy's id keeps the original's suffix and raises its number: when the id
/// starts with a number, the new id's numeric part is that number plus `offset` and the
/// rest of the id is unchanged; otherwise the new id is `offset` followed by `_` and the
/// whole original id.
pub proof fn lemma_offset_song_id(song_id: Seq<char>, offset: u64)
    requires
        offset_fits(song_id, offset),
    ensures
        ({
            let r = spec_offset_song_id(song_id, offset);
            match spec_parse_unsigned(numeric_part(song_id), u64::MAX as nat) {
                Some(id) => spec_parse_unsigned(numeric_part(r), u64::MAX as nat) == Some(
                    (id + offset) as nat,
                ) && id_suffix(r) == id_suffix(song_id),
                None => spec_parse_unsigned(numeric_part(r), u64::MAX as nat) == Some(
                    offset as nat,
                ) && id_suffix(r) == "_"@ + song_id,
            }
        }),
{
    reveal_strlit("_");
    let n = find_char(song_id, 0, '_');
    lemma_find_char_bounds(song_id, 0);
    let r = spec_offset_song_id(song_id, offset);
    match spec_parse_unsigned(numeric_part(song_id), u64::MAX as nat) {
        Some(id) => {
            let dec = spec_decimal((id + offset) as nat);
            lemma_decimal_digits((id + offset) as nat);
            let rest = song_id.skip(n);
            assert(r == dec + rest);
            assert forall|k: int| 0 <= k < dec.len() implies #[trigger] r[k] != '_' by {
                assert(r[k] == dec[k]);
                assert(is_digit(dec[k]));
            }
            if n < song_id.len() {
                assert(r[dec.len() as int] == song_id[n]);
            }
            lemma_find_char_at(r, 0, dec.len() as int, '_');
            assert(numeric_part(r) == dec);
            assert(id_suffix(r) =~= rest);
        },
        None => {
            let dec = spec_decimal(offset as nat);
            lemma_decimal_digits(offset as nat);
            assert(r == dec + "_"@ + song_id);
            assert forall|k: int| 0 <= k < dec.len() implies #[trigger] r[k] != '_' by {
                assert(r[k] == dec[k]);
                assert(is_digit(dec[k]));
            }
            assert(r[dec.len() as int] == '_');
            lemma_find_char_at(r, 0, dec.len() as int, '_');
            assert(numeric_part(r) == dec);
            assert(id_suffix(r) =~= "_"@ + song_id);
        },
    }
}

/// The first `_` is found within the text, or at its end.
proof fn lemma_find_char_bounds(s: Seq<char>, i: int)
    requires
        0 <= i <= s.len(),
    ensures
        i <= find_char(s, i, '_') <= s.len(),
        find_char(s, i, '_') < s.len() ==> s[find_char(s, i, '_')] == '_',
    decreases s.len() - i,
{
    if i < s.len() && s[i] != '_' {
        lemma_find_char_bounds(s, i + 1);
    }
}

} // verus!
