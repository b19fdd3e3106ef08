use maidata::container::{lex_keyvals, parse_level, try_lex_maidata};
use maidata::dataset::{
    augmentation_variants, chart_constant_difficulties, diff_discriminant, extract_song_id,
    offset_song_id, parse_dataset_args, parse_optional_offset, Augmentation, DatasetArgsError,
};
use maidata::diag::{PError, PWarning, Span, State};
use maidata::heatmap::encode::{
    is_count_feature, slide_feature, tap_feature, touch_feature, HOLD_FEATURE_OFFSET,
    NUM_CHANNELS, NUM_FEATURES, SLIDE_FEATURE_OFFSET, TOUCH_FEATURE_OFFSET,
};
use maidata::insn::{Difficulty, Key, Level, NoteType, TouchSensor};
use maidata::judge::adapter::{fan_sub_segments, is_fan_slide, slide_judge_checks, AdapterError};
use maidata::judge::slide::{FanSlide, LateResult, SlideJudge, TouchSensorStates};
use maidata::note_export::cli::{parse_args, parse_limit};
use maidata::note_export::filter::first_crowded_moment;
use maidata::note_export::grouping::{
    notes_covered_by_slides, time_buckets, touch_groups,
};
use maidata::note_export::merge::{
    common_prefix_len_by, common_suffix_len_by, is_contiguous_subsequence_by, plan_outcome,
    slide_pair_plan, suffix_prefix_overlap_len_by, PairOutcome, PairScan, SlidePairPlan,
};
use maidata::note_export::select::{
    is_dataset_level, is_exported_level, is_utage_song, min_level, reports_overlap, UTAGE_FIRST_ID,
};
use maidata::note_export::sensor::{
    key_to_sensor_idx, left_neighbor, right_neighbor, touch_sensor_to_idx, try_parse_sensor_idx,
};
use maidata::note_export::types::{original_slide_segments, shape_name, slide_lookup_plan, SlideLookup};
use maidata::parser::note::hold::hold_modifier;
use maidata::parser::note::slide::{
    combine_track_groups, parse_slide_head_modifier, t_slide_segment, t_slide_track_modifier, SlideSegment,
    SlideSegmentParams, SlideTrackModifier, TapShape,
};
use maidata::parser::note::touch_hold::touch_hold_modifier;
use maidata::parser::utils::{
    expect, expect_ws_delimited, t_key, tag_at, ws, ws_list0, ws_list1, Expect,
};
use maidata::transform::{NormalizedSlideSegment, NormalizedSlideSegmentShape};

fn chars(s: &str) -> Vec<char> {
    s.chars().collect()
}

fn key(i: u8) -> Key {
    Key::new(i).unwrap()
}

fn strings(args: &[&str]) -> Vec<String> {
    args.iter().map(|s| s.to_string()).collect()
}

/// A digit reader: the digit's value and the position after it.
fn digit(v: &[char], p: usize) -> Option<(u32, usize)> {
    if p < v.len() && v[p].is_ascii_digit() {
        Some((v[p] as u32 - '0' as u32, p + 1))
    } else {
        None
    }
}

// ----- keys, sensors, difficulties -------------------------------------------------

#[test]
fn key_and_sensor_construction() {
    assert_eq!(Key::new(8), None);
    assert_eq!(key(3).index(), 3);
    assert_eq!(TouchSensor::new('C', Some(0)), None);
    assert_eq!(TouchSensor::new('F', Some(0)), None);
    assert_eq!(TouchSensor::new('A', None), None);
    let e2 = TouchSensor::new('E', Some(1)).unwrap();
    assert_eq!(e2.group(), 'E');
    assert_eq!(e2.index(), Some(1));
    assert_eq!(e2.name(), "E2");
    assert_eq!(TouchSensor::new('C', None).unwrap().name(), "C");
}

#[test]
fn difficulty_numbers_round_trip() {
    for n in 1..=7u8 {
        assert_eq!(Difficulty::from_number(n).unwrap().number(), n);
    }
    assert_eq!(Difficulty::from_number(0), None);
    assert_eq!(Difficulty::from_number(8), None);
    assert_eq!(Difficulty::Master.number(), 5);
}

#[test]
fn sensor_names_parse_to_export_order() {
    for group in ['A', 'B', 'D', 'E'] {
        for i in 0..8u8 {
            let s = TouchSensor::new(group, Some(i)).unwrap();
            assert_eq!(try_parse_sensor_idx(&s.name()), Some(touch_sensor_to_idx(&s)));
        }
    }
    assert_eq!(try_parse_sensor_idx("C"), Some(16));
    assert_eq!(try_parse_sensor_idx("C1"), Some(16));
    // The number is not checked against the ring size: `A9` is the index after `A8`.
    assert_eq!(try_parse_sensor_idx("A9"), Some(8));
    assert_eq!(try_parse_sensor_idx("A0"), None);
    assert_eq!(try_parse_sensor_idx("Ax"), None);
    assert_eq!(try_parse_sensor_idx("Z1"), None);
    assert_eq!(try_parse_sensor_idx(""), None);
}

#[test]
fn keys_are_the_a_ring_and_neighbors_invert() {
    for i in 0..8u8 {
        let k = key(i);
        assert_eq!(key_to_sensor_idx(k), i as usize);
        assert_eq!(touch_sensor_to_idx(&TouchSensor::A(k)), i as usize);
        assert_eq!(right_neighbor(left_neighbor(k)), k);
        assert_eq!(left_neighbor(right_neighbor(k)), k);
    }
    assert_eq!(left_neighbor(key(0)), key(7));
    assert_eq!(right_neighbor(key(7)), key(0));
}

// ----- diagnostics ------------------------------------------------------------------

#[test]
fn state_records_messages_in_order() {
    let mut state = State::new();
    assert!(!state.has_messages());
    state.add_warning(PWarning::MultipleSlideTrackGroups, Span { start: 1, end: 2 });
    assert!(state.has_warnings());
    assert!(!state.has_errors());
    state.add_error(PError::MissingNote, Span { start: 3, end: 4 });
    state.add_error(PError::MissingSlideTrack, Span { start: 5, end: 5 });
    assert!(state.has_errors());
    assert!(state.has_messages());
    assert_eq!(state.errors.len(), 2);
    assert!(matches!(state.errors[1].inner, PError::MissingSlideTrack));
    assert_eq!(state.errors[0].span, Span { start: 3, end: 4 });
}

#[test]
fn messages_read_as_text() {
    assert_eq!(
        PWarning::DuplicateModifier('b', NoteType::Hold).message(),
        "duplicate `b` modifier in hold instruction"
    );
    assert_eq!(PError::UnknownChar('%').message(), "unknown character `%`");
    assert_eq!(
        PError::MissingBetween {
            token: "slide duration".to_string(),
            open: "`[`".to_string(),
            close: "`]`".to_string()
        }
        .message(),
        "missing slide duration between `[` and `]`"
    );
    assert_eq!(PError::MissingDuration(NoteType::Slide).message(), "missing slide duration");
    assert_eq!(
        PError::InvalidSlideTrack("1-9".to_string()).message(),
        "invalid slide track `1-9`"
    );
}

// ----- modifiers --------------------------------------------------------------------

#[test]
fn hold_modifier_sets_flags_and_warns_on_repeats() {
    let mut state = State::new();
    let span = Span { start: 0, end: 3 };
    let m = hold_modifier(&mut state, &['b', 'x', 'b'], span);
    assert!(m.is_break);
    assert!(m.is_ex);
    assert_eq!(state.warnings.len(), 1);
    assert_eq!(state.warnings[0].inner, PWarning::DuplicateModifier('b', NoteType::Hold));
    assert_eq!(state.warnings[0].span, span);

    let mut state = State::new();
    let m = hold_modifier(&mut state, &[], span);
    assert!(!m.is_break && !m.is_ex);
    assert!(!state.has_messages());
}

#[test]
fn touch_hold_firework_repeats_warn() {
    let mut state = State::new();
    let m = touch_hold_modifier(&mut state, &['f', 'f'], Span { start: 2, end: 4 });
    assert!(m.is_firework);
    assert_eq!(state.warnings.len(), 1);
    assert_eq!(
        state.warnings[0].inner,
        PWarning::DuplicateModifier('f', NoteType::TouchHold)
    );
}

#[test]
fn slide_head_shapes_and_duplicates() {
    let mut state = State::new();
    let span = Span { start: 0, end: 5 };
    let m = parse_slide_head_modifier(&mut state, &['b', '@', '?', '!'], span);
    assert!(m.tap_modifier.is_break);
    assert!(!m.tap_modifier.is_ex);
    assert!(m.is_sudden);
    assert_eq!(m.tap_modifier.shape, Some(TapShape::Ring));
    // `?` and `!` come after the first shape letter: two errors.
    assert_eq!(state.errors.len(), 2);
    assert!(state
        .errors
        .iter()
        .all(|e| matches!(e.inner, PError::DuplicateShapeModifier(NoteType::Slide))));
    assert!(!state.has_warnings());
}

#[test]
fn slide_track_break_repeats_warn_across_groups() {
    let mut state = State::new();
    let v = chars(" b rest");
    let (m, end) = t_slide_track_modifier(&mut state, &v, 0, SlideTrackModifier::default());
    assert!(m.is_break);
    assert_eq!(end, 2);
    assert!(!state.has_messages());
    let (m2, end2) = t_slide_track_modifier(&mut state, &v, 0, m);
    assert!(m2.is_break);
    assert_eq!(end2, 2);
    assert_eq!(state.warnings.len(), 1);
    assert_eq!(state.warnings[0].span, Span { start: 0, end: 2 });
}

// ----- combinators ------------------------------------------------------------------

#[test]
fn ws_and_keys() {
    let v = chars(" \t\r\n5x");
    assert_eq!(ws(&v, 0), 4);
    assert_eq!(ws(&v, 5), 5);
    assert_eq!(t_key(&v, 4), Some((key(4), 5)));
    assert_eq!(t_key(&v, 5), None);
    assert_eq!(t_key(&chars("9"), 0), None);
    assert_eq!(t_key(&chars("0"), 0), None);
}

#[test]
fn ws_lists_stop_where_the_reader_fails() {
    let v = chars("1 2  3 x");
    let (items, end) = ws_list0(&v, 0, digit);
    assert_eq!(items, vec![1, 2, 3]);
    assert_eq!(end, 6);
    let (none, at) = ws_list0(&v, 7, digit);
    assert!(none.is_empty());
    assert_eq!(at, 7);
    assert_eq!(ws_list1(&v, 7, digit), None);
    assert_eq!(ws_list1(&v, 2, digit), Some((vec![2, 3], 6)));
}

#[test]
fn expect_records_an_error_where_the_reader_fails() {
    let reader = |v: &[char], p: usize| -> Result<(u32, usize), usize> {
        match digit(v, p) {
            Some(r) => Ok(r),
            None => Err(p + 1),
        }
    };
    let v = chars("7a");
    let mut state = State::new();
    assert_eq!(expect(&mut state, &v, 0, reader, PError::MissingNote), (Some(7), 1));
    assert!(!state.has_messages());
    assert_eq!(expect(&mut state, &v, 1, reader, PError::MissingNote), (None, 1));
    assert_eq!(state.errors.len(), 1);
    assert_eq!(state.errors[0].span, Span { start: 1, end: 2 });
    assert!(matches!(state.errors[0].inner, PError::MissingNote));
    assert_eq!(reader.expect(&mut state, &v, 0, PError::MissingBeatCount), (Some(7), 1));
    assert_eq!(state.errors.len(), 1);
}

#[test]
fn tags_match_at_positions() {
    let v = chars("a[b]");
    assert!(tag_at(&v, 1, &['[']));
    assert!(!tag_at(&v, 0, &['[']));
    assert!(tag_at(&v, 4, &[]));
    assert!(!tag_at(&v, 4, &[']']));
    assert!(!tag_at(&v, 9, &[]));
}

#[test]
fn delimited_reads_and_reports_missing_pieces() {
    let mut state = State::new();
    let v = chars("[ 4 ]z");
    assert_eq!(
        expect_ws_delimited(&mut state, &v, 0, digit, "count", "[", "]"),
        Some((Some(4), 5))
    );
    assert!(!state.has_messages());

    // Nothing delimited at all.
    let v = chars("z");
    assert_eq!(expect_ws_delimited(&mut state, &v, 0, digit, "count", "[", "]"), None);
    assert!(!state.has_messages());

    // Missing opening delimiter.
    let v = chars("4]");
    assert_eq!(
        expect_ws_delimited(&mut state, &v, 0, digit, "count", "[", "]"),
        Some((Some(4), 2))
    );
    assert_eq!(state.errors.len(), 1);
    assert_eq!(state.errors[0].inner.message(), "missing `[` before count");
    assert_eq!(state.errors[0].span, Span { start: 0, end: 0 });

    // Missing element.
    let mut state = State::new();
    let v = chars("[ ]");
    assert_eq!(
        expect_ws_delimited(&mut state, &v, 0, digit, "count", "[", "]"),
        Some((None, 3))
    );
    assert_eq!(state.errors.len(), 1);
    assert_eq!(state.errors[0].inner.message(), "missing count between `[` and `]`");
    assert_eq!(state.errors[0].span, Span { start: 1, end: 1 });

    // Missing closing delimiter.
    let mut state = State::new();
    let v = chars("[4 ,");
    assert_eq!(
        expect_ws_delimited(&mut state, &v, 0, digit, "count", "[", "]"),
        Some((None, 2))
    );
    assert_eq!(state.errors.len(), 1);
    assert_eq!(state.errors[0].inner.message(), "missing `]` after count");
    assert_eq!(state.errors[0].span, Span { start: 2, end: 2 });
}

// ----- maidata files ----------------------------------------------------------------

#[test]
fn keyvals_split_and_trim_values() {
    let v = chars("\u{feff}&title=Song\r\n&lv_5=13+\n");
    let kvs = lex_keyvals(&v).unwrap();
    assert_eq!(kvs.len(), 2);
    let text = |a: usize, b: usize| v[a..b].iter().collect::<String>();
    assert_eq!(text(kvs[0].key_start, kvs[0].key_end), "title");
    assert_eq!(text(kvs[0].val_start, kvs[0].val_end), "Song");
    assert_eq!(text(kvs[1].key_start, kvs[1].key_end), "lv_5");
    assert_eq!(text(kvs[1].val_start, kvs[1].val_end), "13+");
    assert!(lex_keyvals(&chars("title=x")).is_none());
    assert_eq!(lex_keyvals(&chars("")).unwrap().len(), 0);
    // Whitespace that no pair follows is not a maidata text.
    assert!(lex_keyvals(&chars("  ")).is_none());
}

#[test]
fn levels_read_numbers_plus_and_characters() {
    let lv = |s: &str| {
        let v = chars(s);
        parse_level(&v, 0, v.len())
    };
    assert_eq!(lv("13"), Ok(Some(Level::Normal(13))));
    assert_eq!(lv("12 +"), Ok(Some(Level::Plus(12))));
    assert_eq!(lv("※ 宴"), Ok(Some(Level::Char('宴'))));
    assert_eq!(lv("?"), Ok(None));
    assert_eq!(lv("256"), Err(()));
}

#[test]
fn maidata_fields_and_fallbacks() {
    let text = "&title=Song&artist=Someone&des=Everyone&first=1.5\n\
                &lv_6=14&des_6=Solo&inote_6=1,2,E\n\
                &lv_4=11+&first_4=0.25&smsg=hi&inote_4=E";
    let (m, state) = try_lex_maidata(text).unwrap();
    assert!(!state.has_messages());
    assert_eq!(m.title(), "Song");
    assert_eq!(m.artist(), "Someone");
    let diffs = m.iter_difficulties();
    assert_eq!(diffs.len(), 2);
    assert_eq!(diffs[0].difficulty(), Difficulty::Expert);
    assert_eq!(diffs[1].difficulty(), Difficulty::ReMaster);
    assert_eq!(diffs[0].level(), Some(Level::Plus(11)));
    assert_eq!(diffs[0].designer(), Some("Everyone"));
    assert_eq!(diffs[0].offset_text(), Some("0.25"));
    assert_eq!(diffs[0].single_message(), Some("hi"));
    assert_eq!(diffs[1].designer(), Some("Solo"));
    assert_eq!(diffs[1].offset_text(), Some("1.5"));
    assert_eq!(diffs[1].inote(), "1,2,E");
    assert_eq!(diffs[1].level(), Some(Level::Normal(14)));
}

#[test]
fn maidata_refusals() {
    assert!(try_lex_maidata("not a maidata file").is_none());
    assert!(try_lex_maidata("&first_5=abc").is_none());
    assert!(try_lex_maidata("&lv_5=300").is_none());
    // A file-wide offset that is not a number is ignored.
    let (m, _) = try_lex_maidata("&first=abc&inote_5=E").unwrap();
    assert_eq!(m.iter_difficulties()[0].offset_text(), None);
}

// ----- note exporter ----------------------------------------------------------------

#[test]
fn limits_and_arguments() {
    assert_eq!(parse_limit("12"), Ok(12));
    assert_eq!(parse_limit("x"), Err("invalid --limit value: x".to_string()));
    let a = parse_args(&strings(&["--raw", "--limit=3", "charts"])).unwrap();
    assert!(a.raw);
    assert_eq!(a.limit, Some(3));
    assert_eq!(a.chart_root, "charts");
    assert_eq!(a.output_path, "notes.jsonl");
    let d = parse_args(&[]).unwrap();
    assert_eq!(d.chart_root, ".");
    assert!(!d.raw);
    assert_eq!(d.limit, None);
    assert_eq!(
        parse_args(&strings(&["--limit"])).unwrap_err(),
        "--limit requires a chart count"
    );
    assert_eq!(parse_args(&strings(&["-x"])).unwrap_err(), "unknown option: -x");
    assert!(parse_args(&strings(&["--help"])).unwrap_err().starts_with("usage:"));
    assert_eq!(
        parse_args(&strings(&["--limit", "q", "a", "b"])).unwrap_err(),
        "invalid --limit value: q"
    );
}

#[test]
fn song_id_of_a_chart_path() {
    assert_eq!(maidata::note_export::cli::extract_song_id("charts/11234_song/maidata.txt"), "11234_song");
    assert_eq!(maidata::note_export::cli::extract_song_id("maidata.txt"), "unknown");
}

#[test]
fn sequence_searches() {
    let eq = |a: &u8, b: &u8| a == b;
    assert_eq!(is_contiguous_subsequence_by(&[1, 2, 3, 4], &[2, 3], eq), Some(1));
    assert_eq!(is_contiguous_subsequence_by(&[1, 2, 3, 4], &[3, 2], eq), None);
    assert_eq!(is_contiguous_subsequence_by(&[1, 2], &[], eq), None);
    assert_eq!(is_contiguous_subsequence_by(&[1], &[1, 1], eq), None);
    assert_eq!(suffix_prefix_overlap_len_by(&[1, 2, 3], &[2, 3, 4], eq), 2);
    assert_eq!(suffix_prefix_overlap_len_by(&[1, 2, 3], &[3, 4], eq), 0);
    assert_eq!(suffix_prefix_overlap_len_by(&[5, 5, 5], &[5, 5, 5], eq), 3);
}

#[test]
fn exported_segment_names_and_fan_lookup() {
    let fan = NormalizedSlideSegment::new(NormalizedSlideSegmentShape::Fan, key(0), key(4));
    let line = NormalizedSlideSegment::new(NormalizedSlideSegmentShape::Straight, key(0), key(2));
    assert_eq!(shape_name(NormalizedSlideSegmentShape::ThunderL), "thunder_l");
    let segs = original_slide_segments(&[line, fan]);
    assert_eq!(segs[0].shape, "straight");
    assert_eq!((segs[1].shape.as_str(), segs[1].start, segs[1].destination), ("fan", 0, 4));
    match slide_lookup_plan(&[line]) {
        SlideLookup::Track(v) => assert_eq!(v, vec![line]),
        SlideLookup::Segments(_) => panic!("expected a whole-track lookup"),
    }
    match slide_lookup_plan(&[fan]) {
        SlideLookup::Segments(v) => {
            assert_eq!(v.len(), 2);
            assert_eq!(v[0].destination, key(3));
            assert_eq!(v[1].destination, key(5));
            assert!(v.iter().all(|s| s.shape == NormalizedSlideSegmentShape::Straight));
        }
        SlideLookup::Track(_) => panic!("expected a per-segment lookup"),
    }
}

// ----- dataset exporter -------------------------------------------------------------

#[test]
fn augmented_song_ids() {
    assert_eq!(offset_song_id("834_dx", 10_000_000), "10000834_dx");
    assert_eq!(offset_song_id("42", 5), "47");
    assert_eq!(offset_song_id("abc", 7), "7_abc");
    assert_eq!(diff_discriminant(Difficulty::ReMaster), "ReMaster");
    assert_eq!(chart_constant_difficulties(5), Some(vec![2, 3, 4, 5, 6]));
    assert_eq!(chart_constant_difficulties(4), Some(vec![2, 3, 4, 5]));
    assert_eq!(chart_constant_difficulties(3), None);
}

#[test]
fn optional_offsets_and_variants() {
    let args = strings(&["prog", "--mirror", "50", "--flip-y"]);
    assert_eq!(parse_optional_offset(&args, 1, 9), (50, 1));
    assert_eq!(parse_optional_offset(&args, 3, 9), (9, 0));
    assert_eq!(
        augmentation_variants(Some(10), Some(20)),
        vec![
            (Augmentation::Mirror, 10),
            (Augmentation::VerticalFlip, 20),
            (Augmentation::MirrorVerticalFlip, 30)
        ]
    );
    assert_eq!(augmentation_variants(Some(0), Some(20)), vec![(Augmentation::VerticalFlip, 20)]);
    assert_eq!(augmentation_variants(None, None), vec![]);
}

#[test]
fn dataset_arguments() {
    let d = parse_dataset_args(&strings(&["prog", "--mirror", "root", "out", "3"])).unwrap();
    assert_eq!(d.mirror_offset, Some(10_000_000));
    assert_eq!(d.vertical_flip_offset, None);
    assert_eq!(d.chart_root, "root");
    assert_eq!(d.output_dir, "out");
    assert_eq!(d.limit, Some(3));
    let d = parse_dataset_args(&strings(&["prog", "r", "o", "--flip-vertical", "7"])).unwrap();
    assert_eq!(d.vertical_flip_offset, Some(7));
    assert_eq!(d.limit, None);
    assert!(matches!(parse_dataset_args(&strings(&["prog", "r"])), Err(DatasetArgsError::Usage)));
    assert!(matches!(
        parse_dataset_args(&strings(&["prog", "r", "o", "lots"])),
        Err(DatasetArgsError::InvalidLimit(a)) if a == "lots"
    ));
}

// ----- heatmap layout ---------------------------------------------------------------

#[test]
fn feature_columns() {
    assert_eq!(NUM_FEATURES, 76);
    assert_eq!(NUM_CHANNELS, NUM_FEATURES);
    assert_eq!(TOUCH_FEATURE_OFFSET, 8);
    assert_eq!(HOLD_FEATURE_OFFSET, 41);
    assert_eq!(SLIDE_FEATURE_OFFSET, 43);
    assert_eq!(tap_feature(key(7)), 7);
    let e8 = TouchSensor::new('E', Some(7)).unwrap();
    assert_eq!(touch_feature(&e8), 40);
    assert_eq!(slide_feature(&e8), 75);
    assert_eq!(touch_feature(&TouchSensor::C), 24);
    assert!(is_count_feature(40));
    assert!(!is_count_feature(41));
}

// ----- judging ----------------------------------------------------------------------

fn a(i: u8) -> TouchSensor {
    TouchSensor::A(key(i))
}

#[test]
fn slide_follows_pressed_sensors() {
    let mut judge = SlideJudge::from_path(vec![vec![a(0)], vec![a(1)], vec![a(2)]]);
    let mut states = TouchSensorStates::new();
    judge.advance(&states);
    assert_eq!(judge.judge_index(), 0);
    assert!(!judge.judge_is_on());

    states.set(a(0), true);
    assert!(states.sensor_is_on(a(0)));
    judge.advance(&states);
    assert_eq!(judge.judge_index(), 0);
    assert_eq!(judge.judge_sub_sensor(), Some(a(0)));

    states.set(a(0), false);
    states.set(a(1), true);
    judge.advance(&states);
    assert_eq!(judge.judge_index(), 1);
    assert_eq!(judge.judge_sub_sensor(), Some(a(1)));
    assert_eq!(judge.late_result(), LateResult::TooLate);

    states.set(a(1), false);
    states.set(a(2), true);
    judge.advance(&states);
    assert!(judge.is_complete());
    assert_eq!(judge.judge_index(), judge.path_len());
}

#[test]
fn slide_late_result_and_skip_rules() {
    let judge = SlideJudge::new(vec![vec![a(0)], vec![a(1)]], true, false);
    assert_eq!(judge.late_result(), LateResult::TooLate);
    // Holding nothing at area 0 of a two-area path, the last area may not be tried
    // directly.
    assert!(!judge.is_next_sensor_check());
    let mut states = TouchSensorStates::new();
    states.set(a(1), true);
    let mut judge = judge;
    judge.advance(&states);
    assert_eq!(judge.judge_index(), 0);

    let mut judge = SlideJudge::new(vec![vec![a(0)], vec![a(1)], vec![a(2)], vec![a(3)]], true, false);
    assert!(judge.is_next_sensor_check());
    let mut states = TouchSensorStates::new();
    states.set(a(1), true);
    judge.advance(&states);
    assert_eq!(judge.judge_index(), 1);
    assert!(judge.judge_is_on());
}

#[test]
fn thunder_checks_and_fans() {
    let thunder = NormalizedSlideSegment::new(NormalizedSlideSegmentShape::ThunderL, key(0), key(4));
    assert_eq!(slide_judge_checks(&[thunder]), Ok((true, true)));
    let thunder_r = NormalizedSlideSegment::new(NormalizedSlideSegmentShape::ThunderR, key(0), key(2));
    assert_eq!(slide_judge_checks(&[thunder_r]), Ok((false, false)));
    let line = NormalizedSlideSegment::new(NormalizedSlideSegmentShape::Straight, key(0), key(4));
    assert_eq!(slide_judge_checks(&[line]), Ok((false, false)));
    let fan = NormalizedSlideSegment::new(NormalizedSlideSegmentShape::Fan, key(0), key(4));
    assert!(is_fan_slide(&[line, fan]));
    assert_eq!(slide_judge_checks(&[fan]), Err(AdapterError::FanNotSupported));
    assert_eq!(fan_sub_segments(&[fan, fan]), Err(AdapterError::FanSegmentCount));
    assert_eq!(fan_sub_segments(&[line]), Err(AdapterError::NotFanSegment));
    let parts = fan_sub_segments(&[fan]).unwrap();
    assert_eq!(
        parts.iter().map(|s| s.start.index()).collect::<Vec<_>>(),
        vec![7, 0, 1]
    );
    assert!(parts.iter().all(|s| s.destination == key(4)));
    assert_eq!(AdapterError::NotFanSegment.message(), "Fan Slide must have a fan segment");
}

#[test]
fn fan_slide_completes_when_every_arm_does() {
    let arms = vec![
        SlideJudge::from_path(vec![vec![a(0)], vec![a(1)]]),
        SlideJudge::from_path(vec![vec![a(0)], vec![a(2)]]),
    ];
    let mut fan = FanSlide::new(arms);
    let mut states = TouchSensorStates::new();
    states.set(a(0), true);
    fan.advance(&states);
    assert!(!fan.is_complete());
    assert!(fan.sub_slides.iter().all(|s| s.judge_is_on()));
    states.set(a(0), false);
    states.set(a(1), true);
    fan.advance(&states);
    assert!(fan.sub_slides[0].is_complete());
    assert!(!fan.sub_slides[1].is_complete());
    assert!(!fan.is_complete());
    states.set(a(2), true);
    fan.advance(&states);
    assert!(fan.is_complete());
}

#[test]
fn common_ends() {
    let eq = |a: &u8, b: &u8| a == b;
    assert_eq!(common_prefix_len_by(&[1, 2, 3], &[1, 2, 4, 5], &eq), 2);
    assert_eq!(common_suffix_len_by(&[9, 2, 3], &[1, 2, 3], &eq), 2);
    assert_eq!(common_suffix_len_by(&[1], &[], &eq), 0);
}

/// Slides touching at a single area stay apart; a slide strictly inside another is
/// absorbed; two slides overlapping by two areas are joined (the merge rules' examples,
/// with areas written as numbers).
#[test]
fn slide_pair_plans_follow_the_merge_rules() {
    let eq = |a: &u8, b: &u8| a == b;
    assert_eq!(slide_pair_plan(&[1, 2, 3], &[3, 4, 5], eq, false, false), SlidePairPlan::Keep);
    assert_eq!(slide_pair_plan(&[1, 2, 3, 4], &[2, 3], eq, false, false), SlidePairPlan::KeepLeft);
    assert_eq!(slide_pair_plan(&[2, 3], &[1, 2, 3, 4], eq, false, false), SlidePairPlan::KeepRight);
    assert_eq!(
        slide_pair_plan(&[1, 2, 3], &[2, 3, 4], eq, false, false),
        SlidePairPlan::JoinLeftRight(2)
    );
    assert_eq!(
        slide_pair_plan(&[2, 3, 4], &[1, 2, 3], eq, false, false),
        SlidePairPlan::JoinRightLeft(2)
    );
    assert_eq!(
        slide_pair_plan(&[1, 2, 3], &[5, 2, 3], eq, true, false),
        SlidePairPlan::TrimRightSuffix(2)
    );
    // A slide that is the whole shared tail overlaps the other's start: they are joined.
    assert_eq!(
        slide_pair_plan(&[2, 3], &[5, 6, 2, 3], eq, true, false),
        SlidePairPlan::JoinRightLeft(2)
    );
    assert_eq!(slide_pair_plan(&[1, 2, 3], &[5, 2, 3], eq, false, false), SlidePairPlan::Keep);
    assert_eq!(
        slide_pair_plan(&[1, 2, 3], &[1, 2, 5], eq, false, true),
        SlidePairPlan::TrimRightPrefix(2)
    );
    assert_eq!(
        slide_pair_plan(&[1, 2, 6, 7], &[1, 2], eq, false, true),
        SlidePairPlan::JoinRightLeft(2)
    );
    // Slides meeting in the middle (a Y shape) are refused, and the chart is skipped.
    assert_eq!(slide_pair_plan(&[1, 2, 3, 4], &[5, 2, 3, 6], eq, false, false), SlidePairPlan::Refuse);
    assert_eq!(slide_pair_plan(&[1, 2, 3, 4], &[5, 2, 3, 6], eq, true, true), SlidePairPlan::Refuse);
    // A single shared area in the middle is no meeting.
    assert_eq!(slide_pair_plan(&[1, 2, 3, 4], &[5, 2, 7, 6], eq, false, false), SlidePairPlan::Keep);
    // A shared tail too short to drop keeps both slides, and so does a shared head when
    // the tails are shared too.
    assert_eq!(slide_pair_plan(&[1, 2, 3], &[5, 6, 3], eq, true, true), SlidePairPlan::Keep);
}

fn table(n: usize, pairs: &[(usize, usize)]) -> Vec<Vec<bool>> {
    let mut t = vec![vec![false; n]; n];
    for &(i, j) in pairs {
        t[i][j] = true;
    }
    t
}

fn symmetric_table(n: usize, pairs: &[(usize, usize)]) -> Vec<Vec<bool>> {
    let mut t = table(n, pairs);
    for &(i, j) in pairs {
        t[j][i] = true;
    }
    t
}

/// Each note joins the first bucket whose first note it starts with.
#[test]
fn notes_are_bucketed_by_start_time() {
    // 0, 1 and 3 start together; 2 starts with 4; 1 also starts with 2.
    let mut same = symmetric_table(5, &[(0, 1), (0, 3), (1, 3), (2, 4), (1, 2)]);
    for (i, row) in same.iter_mut().enumerate() {
        row[i] = true;
    }
    assert_eq!(time_buckets(&same), vec![vec![0, 1, 3], vec![2, 4]]);
    assert_eq!(time_buckets(&[]), Vec::<Vec<usize>>::new());
}

/// Touches linked through close neighbours form one group; other notes are in none.
#[test]
fn touches_are_grouped_by_links() {
    let is_touch = [true, true, false, true, true, true];
    let close = symmetric_table(6, &[(0, 4), (4, 1), (3, 5)]);
    let mut groups = touch_groups(&is_touch, &close);
    for g in groups.iter_mut() {
        g.sort();
    }
    assert_eq!(groups, vec![vec![0, 1, 4], vec![3, 5]]);
}

/// A tap under a slide head is covered; a touch group is covered only when one slide
/// covers all of it.
#[test]
fn covered_taps_and_touch_groups() {
    // 0: tap on button 1; 1: slide whose first area holds sensor 0 (A1);
    // 2, 3: linked touches; 4: lone touch; 5: tap on button 3.
    let tap_key = [Some(0), None, None, None, None, Some(2)];
    let is_slide = [false, true, false, false, false, false];
    let first_area = vec![vec![], vec![0, 8], vec![], vec![], vec![], vec![]];
    let is_touch = [false, false, true, true, true, false];
    let close = symmetric_table(6, &[(2, 3)]);
    // The slide covers touches 2 and 4, but not 3.
    let covers = table(6, &[(2, 1), (4, 1)]);
    let r = notes_covered_by_slides(&tap_key, &is_slide, &first_area, &is_touch, &close, &covers);
    assert_eq!(r, vec![true, false, false, false, true, false]);
    // Once the slide covers touch 3 too, the whole group goes.
    let covers = table(6, &[(2, 1), (3, 1), (4, 1)]);
    let r = notes_covered_by_slides(&tap_key, &is_slide, &first_area, &is_touch, &close, &covers);
    assert_eq!(r, vec![true, false, true, true, true, false]);
}

/// Two notes at once are fine, a third one at the same moment is not; a note with a
/// length is active up to (not including) its end.
#[test]
fn crowded_moments() {
    assert_eq!(first_crowded_moment(&[], 3), None);
    assert_eq!(first_crowded_moment(&[(0, 0, true), (0, 0, true)], 1), None);
    assert_eq!(first_crowded_moment(&[(0, 0, true), (0, 0, true), (0, 0, true)], 1), Some(0));
    // A hold over moments 0..2 and taps at 1 and 2: crowded at 1 only with two taps there.
    assert_eq!(first_crowded_moment(&[(0, 2, false), (1, 1, true), (2, 2, true)], 3), None);
    assert_eq!(
        first_crowded_moment(&[(0, 2, false), (1, 1, true), (1, 1, true), (2, 2, true)], 3),
        Some(1)
    );
}

fn seg(s: &str, pos: usize) -> (Option<(Option<SlideSegment>, usize)>, State) {
    let mut state = State::new();
    let v = chars(s);
    let r = t_slide_segment(&mut state, &v, pos);
    (r, state)
}

/// Slide segments: `pp` wins over `p`, whitespace may precede the destination, and a
/// missing destination is reported without losing the position.
#[test]
fn slide_segments() {
    let to = |i: u8| SlideSegmentParams { destination: key(i), interim: None };
    assert_eq!(seg("1-5", 1).0, Some((Some(SlideSegment::Line(to(4))), 3)));
    assert_eq!(seg("1pp5", 1).0, Some((Some(SlideSegment::Pp(to(4))), 4)));
    assert_eq!(seg("1p 5", 1).0, Some((Some(SlideSegment::P(to(4))), 4)));
    assert_eq!(seg("1w5", 1).0, Some((Some(SlideSegment::Spread(to(4))), 3)));
    assert_eq!(
        seg("1V35", 1).0,
        Some((Some(SlideSegment::Angle(SlideSegmentParams { destination: key(4), interim: Some(key(2)) })), 4))
    );
    assert_eq!(seg("1x5", 1).0, None);
    let (r, state) = seg("1^[", 1);
    assert_eq!(r, Some((None, 2)));
    assert_eq!(state.errors.len(), 1);
    assert!(matches!(state.errors[0].inner, PError::MissingSlideDestinationKey));
}

/// Touches at one time are grouped by distance connectivity: E1 near B1 and B1 near C
/// make one group although E1 and C are far apart (the merge rules' example).
#[test]
fn touches_merge_by_connectivity() {
    // 0: E1, 1: B1, 2: C, all at one time; 3: a tap.
    let is_touch = [true, true, true, false];
    let joins = symmetric_table(4, &[(0, 1), (1, 2)]);
    assert_eq!(touch_groups(&is_touch, &joins).len(), 1);
    let groups = touch_groups(&is_touch, &joins);
    assert_eq!(groups[0][0], 0);
    let mut members = groups[0].clone();
    members.sort();
    assert_eq!(members, vec![0, 1, 2]);
    assert_eq!(touch_groups(&[], &[]), Vec::<Vec<usize>>::new());
}

#[test]
fn song_id_is_the_parent_directory() {
    assert_eq!(extract_song_id("charts/834_x/maidata.txt", "charts"), "834_x");
    assert_eq!(extract_song_id("a/b/maidata.txt", "a"), "b");
    assert_eq!(extract_song_id("maidata.txt", ""), "unknown");
}

#[test]
fn utage_songs_are_recognised_by_number() {
    assert_eq!(UTAGE_FIRST_ID, 100000);
    assert!(is_utage_song("100000"));
    assert!(is_utage_song("100123_dx"));
    assert!(!is_utage_song("99999_dx"));
    assert!(!is_utage_song("834"));
    assert!(!is_utage_song("abc_100000"));
    assert!(!is_utage_song(""));
}

#[test]
fn exported_levels_start_at_eleven() {
    assert_eq!(min_level(Some(Level::Normal(13))), 13);
    assert_eq!(min_level(Some(Level::Plus(12))), 12);
    assert_eq!(min_level(Some(Level::Char('?'))), 0);
    assert_eq!(min_level(None), 0);
    assert!(is_exported_level(Some(Level::Normal(11))));
    assert!(is_exported_level(Some(Level::Plus(14))));
    assert!(!is_exported_level(Some(Level::Plus(10))));
    assert!(!is_exported_level(Some(Level::Char('?'))));
    assert!(!is_exported_level(None));
}

#[test]
fn overlap_with_centre_touch_is_not_reported() {
    assert!(reports_overlap(&[]));
    assert!(reports_overlap(&[false, false, false]));
    assert!(!reports_overlap(&[false, true, false]));
}

#[test]
fn slide_track_groups_combine_and_warn() {
    let plain = SlideTrackModifier { is_break: false, is_sudden: false };
    let brk = SlideTrackModifier { is_break: true, is_sudden: false };
    let span = Span { start: 1, end: 9 };

    let mut state = State::new();
    let m = combine_track_groups(&mut state, &[plain], span);
    assert!(!m.is_break);
    assert!(!state.has_warnings());

    let mut state = State::new();
    let sudden = SlideTrackModifier { is_break: false, is_sudden: true };
    let m = combine_track_groups(&mut state, &[sudden, brk, plain, brk], span);
    assert!(m.is_break);
    assert!(!m.is_sudden);
    assert_eq!(state.warnings.len(), 2);
    assert_eq!(state.warnings[0].inner, PWarning::DuplicateModifier('b', NoteType::Slide));
    assert_eq!(state.warnings[0].span, span);
    assert_eq!(state.warnings[1].inner, PWarning::MultipleSlideTrackGroups);
    assert_eq!(state.errors.len(), 0);
}

/// A chain of linked touches stays whole when a slide misses its far end.
#[test]
fn touch_chain_is_covered_as_a_whole() {
    let tap_key = [None, None, None, None];
    let is_slide = [false, false, false, true];
    let first_area = vec![vec![], vec![], vec![], vec![5]];
    let is_touch = [true, true, true, false];
    let close = symmetric_table(4, &[(0, 1), (1, 2)]);
    let covers = table(4, &[(0, 3), (1, 3)]);
    let r = notes_covered_by_slides(&tap_key, &is_slide, &first_area, &is_touch, &close, &covers);
    assert_eq!(r, vec![false, false, false, false]);
    let covers = table(4, &[(0, 3), (1, 3), (2, 3)]);
    let r = notes_covered_by_slides(&tap_key, &is_slide, &first_area, &is_touch, &close, &covers);
    assert_eq!(r, vec![true, true, true, false]);
}

#[test]
fn dataset_levels_start_at_ten() {
    assert!(is_dataset_level(Some(Level::Normal(10))));
    assert!(is_dataset_level(Some(Level::Plus(10))));
    assert!(!is_dataset_level(Some(Level::Plus(9))));
    assert!(!is_dataset_level(Some(Level::Char('?'))));
    assert!(!is_dataset_level(None));
}

#[test]
fn pair_plans_say_what_happens_to_the_list() {
    assert_eq!(plan_outcome(SlidePairPlan::Keep), Some(PairOutcome::Kept));
    assert_eq!(plan_outcome(SlidePairPlan::KeepLeft), Some(PairOutcome::Removed));
    assert_eq!(plan_outcome(SlidePairPlan::JoinRightLeft(2)), Some(PairOutcome::Removed));
    assert_eq!(plan_outcome(SlidePairPlan::TrimRightPrefix(2)), Some(PairOutcome::Replaced));
    assert_eq!(plan_outcome(SlidePairPlan::Refuse), None);
}

#[test]
fn pair_scan_visits_pairs_in_order_and_restarts_after_a_change() {
    assert_eq!(PairScan::start(1), None);
    let mut scan = PairScan::start(3);
    let mut seen = Vec::new();
    while let Some(p) = scan {
        seen.push((p.i, p.j));
        scan = p.advance(PairOutcome::Kept);
    }
    assert_eq!(seen, vec![(0, 1), (0, 2), (1, 2)]);

    let p = PairScan { len: 4, i: 1, j: 3 };
    assert_eq!(p.advance(PairOutcome::Replaced), Some(PairScan { len: 4, i: 0, j: 1 }));
    assert_eq!(p.advance(PairOutcome::Removed), Some(PairScan { len: 3, i: 0, j: 1 }));
    assert_eq!(PairScan { len: 2, i: 0, j: 1 }.advance(PairOutcome::Removed), None);
}
