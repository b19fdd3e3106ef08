//! Command-line handling of the note exporter, and where a chart's song id comes from.
use vstd::prelude::*;
use crate::text::{
    occurs_at, chars_of, has_prefix, parse_unsigned, push_chars, spec_parse_unsigned, starts_with, str_eq,
    string_of,
};

verus! {

/// The options of the note exporter.
#[derive(Clone, Debug)]
pub struct Args {
    pub chart_root: String,
    pub output_path: String,
    pub raw: bool,
    pub limit: Option<usize>,
}

/// The options, as text.
pub struct ArgsView {
    pub chart_root: Seq<char>,
    pub output_path: Seq<char>,
    pub raw: bool,
    pub limit: Option<usize>,
}

impl View for Args {
    type V = ArgsView;

    open spec fn view(&self) -> ArgsView {
        ArgsView {
            chart_root: self.chart_root@,
            output_path: self.output_path@,
            raw: self.raw,
            limit: self.limit,
        }
    }
}

/// The help text.
pub open spec fn spec_usage() -> Seq<char> {
    "usage: maidata-note-export [--raw] [--limit <count>] <chart_root> <output_path>"@
}

/// A chart count given to `--limit`: a `usize` in Rust's syntax, or an error naming the value.
pub open spec fn spec_parse_limit(v: Seq<char>) -> Result<usize, Seq<char>> {
    match spec_parse_unsigned(v, usize::MAX as nat) {
        Some(n) => Ok(n as usize),
        None => Err("invalid --limit value: "@ + v),
    }
}

/// Reads the chart count given to `--limit`.
pub fn parse_limit(value: &str) -> (r: Result<usize, String>)
    ensures
        match r {
            Ok(n) => spec_parse_limit(value@) == Ok::<usize, Seq<char>>(n),
            Err(e) => spec_parse_limit(value@) == Err::<usize, Seq<char>>(e@),
        },
{
    let v = chars_of(value);
    assert(v@.subrange(0, v@.len() as int) == v@);
    match parse_unsigned(&v, 0, v.len(), usize::MAX as u64) {
        Some(n) => Ok(n as usize),
        None => {
            let mut e = String::from_str("invalid --limit value: ");
            push_chars(&mut e, &v);
            Err(e)
        },
    }
}

/// `s` with every leading copy of `p` removed (as `str::trim_start_matches` does).
pub open spec fn strip_prefix_all(s: Seq<char>, p: Seq<char>) -> Seq<char>
    decreases s.len(),
{
    if p.len() > 0 && has_prefix(s, p) {
        strip_prefix_all(s.skip(p.len() as int), p)
    } else {
        s
    }
}

fn strip_prefix_all_exec(s: &[char], p: &[char]) -> (r: Vec<char>)
    ensures
        r@ == strip_prefix_all(s@, p@),
{
    let sl = s.len();
    let mut i: usize = 0;
    assert(s@.skip(0) == s@);
    if p.len() > 0 {
        let mut more = true;
        while more
            invariant
                sl == s@.len(),
                i <= s@.len(),
                p@.len() > 0,
                strip_prefix_all(s@, p@) == strip_prefix_all(s@.skip(i as int), p@),
                !more ==> !has_prefix(s@.skip(i as int), p@),
            decreases s@.len() - i, if more {
                1int
            } else {
                0int
            },
        {
            if p.len() <= sl - i && range_has_prefix(s, i, p) {
                assert(s@.skip(i as int).skip(p@.len() as int) == s@.skip(i + p@.len()));
                i = i + p.len();
            } else {
                more = false;
            }
        }
    }
    let mut r: Vec<char> = Vec::new();
    let mut j = i;
    while j < s.len()
        invariant
            i <= j <= s@.len(),
            r@ == s@.subrange(i as int, j as int),
        decreases s@.len() - j,
    {
        r.push(s[j]);
        assert(s@.subrange(i as int, j + 1) == s@.subrange(i as int, j as int).push(s@[j as int]));
        j = j + 1;
    }
    assert(s@.skip(i as int) == s@.subrange(i as int, s@.len() as int));
    r
}

fn range_has_prefix(s: &[char], i: usize, p: &[char]) -> (r: bool)
    requires
        i + p@.len() <= s@.len(),
    ensures
        r == has_prefix(s@.skip(i as int), p@),
{
    let sl = s.len();
    let mut k: usize = 0;
    while k < p.len()
        invariant
            sl == s@.len(),
            i + p@.len() <= s@.len(),
            k <= p@.len(),
            forall|j: int| 0 <= j < k ==> s@[i + j] == p@[j],
        decreases p@.len() - k,
    {
        if s[i + k] != p[k] {
            assert(s@.skip(i as int).take(p@.len() as int)[k as int] != p@[k as int]);
            return false;
        }
        k = k + 1;
    }
    assert(s@.skip(i as int).take(p@.len() as int) =~= p@);
    true
}

/// The argument scan: flags, `--limit` values and positional arguments from position `i` on.
pub open spec fn spec_scan_args(
    args: Seq<Seq<char>>,
    i: int,
    positional: Seq<Seq<char>>,
    raw: bool,
    limit: Option<usize>,
) -> Result<(Seq<Seq<char>>, bool, Option<usize>), Seq<char>>
    decreases args.len() - i,
{
    if i < 0 || i >= args.len() {
        Ok((positional, raw, limit))
    } else {
        let a = args[i];
        if a == "--raw"@ {
            spec_scan_args(args, i + 1, positional, true, limit)
        } else if a == "--limit"@ {
            if i + 1 < args.len() {
                match spec_parse_limit(args[i + 1]) {
                    Ok(n) => spec_scan_args(args, i + 2, positional, raw, Some(n)),
                    Err(e) => Err(e),
                }
            } else {
                Err("--limit requires a chart count"@)
            }
        } else if a == "-h"@ || a == "--help"@ {
            Err(spec_usage())
        } else if has_prefix(a, "--limit="@) {
            match spec_parse_limit(strip_prefix_all(a, "--limit="@)) {
                Ok(n) => spec_scan_args(args, i + 1, positional, raw, Some(n)),
                Err(e) => Err(e),
            }
        } else if a.len() > 0 && a[0] == '-' {
            Err("unknown option: "@ + a)
        } else {
            spec_scan_args(args, i + 1, positional.push(a), raw, limit)
        }
    }
}

/// The options given by the arguments (program name excluded): `--raw`, `--limit <n>` or
/// `--limit=<n>`, then the chart root (default `.`) and the output path (default
/// `notes.jsonl`); errors for help, unknown options and bad counts.
pub open spec fn spec_parse_args(args: Seq<Seq<char>>) -> Result<ArgsView, Seq<char>> {
    match spec_scan_args(args, 0, Seq::empty(), false, None) {
        Ok((pos, raw, limit)) => Ok(
            ArgsView {
                chart_root: if pos.len() > 0 {
                    pos[0]
                } else {
                    "."@
                },
                output_path: if pos.len() > 1 {
                    pos[1]
                } else {
                    "notes.jsonl"@
                },
                raw,
                limit,
            },
        ),
        Err(e) => Err(e),
    }
}

/// The text of each argument.
pub open spec fn args_view(args: Seq<String>) -> Seq<Seq<char>> {
    args.map_values(|s: String| s@)
}

/// Reads the options of the note exporter from its arguments (program name excluded).
pub fn parse_args(args: &[String]) -> (r: Result<Args, String>)
    ensures
        match r {
            Ok(a) => spec_parse_args(args_view(args@)) == Ok::<ArgsView, Seq<char>>(a@),
            Err(e) => spec_parse_args(args_view(args@)) == Err::<ArgsView, Seq<char>>(e@),
        },
{
    let ghost av = args_view(args@);
    let mut positional: Vec<String> = Vec::new();
    let mut raw = false;
    let mut limit: Option<usize> = None;
    let mut i: usize = 0;
    let prefix = chars_of("--limit=");
    assert(args_view(positional@) =~= Seq::<Seq<char>>::empty());
    while i < args.len()
        invariant
            av == args_view(args@),
            i <= args@.len(),
            prefix@ == "--limit="@,
            spec_scan_args(av, 0, Seq::empty(), false, None) == spec_scan_args(
                av,
                i as int,
                args_view(positional@),
                raw,
                limit,
            ),
        decreases args@.len() - i,
    {
        let a = args[i].as_str();
        assert(av[i as int] == a@);
        if str_eq(a, "--raw") {
            raw = true;
        } else if str_eq(a, "--limit") {
            if i + 1 < args.len() {
                assert(av[i + 1] == args@[i + 1]@);
                match parse_limit(args[i + 1].as_str()) {
                    Ok(n) => {
                        limit = Some(n);
                    },
                    Err(e) => {
                        return Err(e);
                    },
                }
                i = i + 1;
            } else {
                return Err(String::from_str("--limit requires a chart count"));
            }
        } else if str_eq(a, "-h") || str_eq(a, "--help") {
            return Err(
                String::from_str(
                    "usage: maidata-note-export [--raw] [--limit <count>] <chart_root> <output_path>",
                ),
            );
        } else {
            let ac = chars_of(a);
            if starts_with(&ac, &prefix) {
                let value = strip_prefix_all_exec(&ac, &prefix);
                let vs = string_of(&value);
                match parse_limit(vs.as_str()) {
                    Ok(n) => {
                        limit = Some(n);
                    },
                    Err(e) => {
                        return Err(e);
                    },
                }
            } else if ac.len() > 0 && ac[0] == '-' {
                let mut e = String::from_str("unknown option: ");
                push_chars(&mut e, &ac);
                return Err(e);
            } else {
                let ghost before = args_view(positional@);
                positional.push(string_of(&ac));
                assert(args_view(positional@) =~= before.push(a@));
            }
        }
        i = i + 1;
    }
    let chart_root = if positional.len() > 0 {
        string_of(&chars_of(positional[0].as_str()))
    } else {
        String::from_str(".")
    };
    let output_path = if positional.len() > 1 {
        string_of(&chars_of(positional[1].as_str()))
    } else {
        String::from_str("notes.jsonl")
    };
    Ok(Args { chart_root, output_path, raw, limit })
}

/// What `Path::parent` of std gives for a path written as `p`, as text (the path
/// without its final component). It follows the path syntax of the platform the library
/// is built for.
pub uninterp spec fn path_parent_of(p: Seq<char>) -> Option<Seq<char>>;

/// What `Path::file_name` of std gives for a path written as `p`, as text (its final
/// component, unless that is `..`). It follows the path syntax of the platform the
/// library is built for.
pub uninterp spec fn file_name_of(p: Seq<char>) -> Option<Seq<char>>;

/// The text of an optional string.
pub open spec fn opt_string_view(o: Option<String>) -> Option<Seq<char>> {
    match o {
        Some(s) => Some(s@),
        None => None,
    }
}

/// `Path::parent` of std, as text: the result is `path_parent_of` of the path, and a
/// beginning of it (the parent is a slice of the path).
#[verifier::external_body]
fn path_parent(path: &str) -> (r: Option<String>)
    ensures
        opt_string_view(r) == path_parent_of(path@),
        r matches Some(p) ==> has_prefix(path@, p@),
{
    std::path::Path::new(path).parent().and_then(|p| p.to_str()).map(|s| s.to_string())
}

/// `Path::file_name` of std, as text: the result is `file_name_of` of the path, and a
/// piece of it (the name is a slice of the path).
#[verifier::external_body]
fn path_file_name(path: &str) -> (r: Option<String>)
    ensures
        opt_string_view(r) == file_name_of(path@),
        r matches Some(n) ==> exists|i: int| #[trigger] occurs_at(path@, n@, i),
{
    std::path::Path::new(path).file_name().and_then(|n| n.to_str()).map(|s| s.to_string())
}

/// The song id of a chart path, as std's path functions read it: the name of the
/// directory holding the file, or `unknown` when there is none.
pub open spec fn spec_song_id(path: Seq<char>) -> Seq<char> {
    match path_parent_of(path) {
        Some(parent) => match file_name_of(parent) {
            Some(name) => name,
            None => "unknown"@,
        },
        None => "unknown"@,
    }
}

/// The song id of a chart: the name of the directory holding its maidata file, or
/// `unknown` when the path has none (see `spec_song_id`). The id is a piece of the path.
pub fn extract_song_id(maidata_path: &str) -> (r: String)
    ensures
        r@ == spec_song_id(maidata_path@),
        r@ == "unknown"@ || exists|i: int| #[trigger] occurs_at(maidata_path@, r@, i),
{
    match path_parent(maidata_path) {
        Some(parent) => match path_file_name(parent.as_str()) {
            Some(name) => {
                proof {
                    let i = choose|i: int| #[trigger] occurs_at(parent@, name@, i);
                    assert(maidata_path@.subrange(i, i + name@.len()) =~= parent@.subrange(
                        i,
                        i + name@.len(),
                    ));
                    assert(occurs_at(maidata_path@, name@, i));
                }
                name
            },
            None => String::from_str("unknown"),
        },
        None => String::from_str("unknown"),
    }
}

} // verus!
