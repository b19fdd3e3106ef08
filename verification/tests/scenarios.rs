use maidata::container::num_rightmost_whitespaces;
use maidata::diag::{PError, State};
use maidata::heatmap::sensor::sensor_index;
use maidata::insn::TouchSensor;
use maidata::note_export::sensor::parse_sensor_idx;
use maidata::parser::note::slide::t_slide_segment;
use maidata::parser::utils::modifier_chars;

fn chars(s: &str) -> Vec<char> {
    s.chars().collect()
}

#[test]
fn test_parse_sensor_idx() {
    assert_eq!(parse_sensor_idx("A1"), 0);
    assert_eq!(parse_sensor_idx("A8"), 7);
    assert_eq!(parse_sensor_idx("B1"), 8);
    assert_eq!(parse_sensor_idx("B8"), 15);
    assert_eq!(parse_sensor_idx("C"), 16);
    assert_eq!(parse_sensor_idx("D1"), 17);
    assert_eq!(parse_sensor_idx("E1"), 25);
    assert_eq!(parse_sensor_idx("E8"), 32);
}

#[test]
fn test_num_rightmost_whitespaces() {
    assert_eq!(num_rightmost_whitespaces(""), 0);
    assert_eq!(num_rightmost_whitespaces("foo"), 0);
    assert_eq!(num_rightmost_whitespaces("\r\n\r\n"), 4);
    assert_eq!(num_rightmost_whitespaces("foo\r\n\r\n"), 4);
    assert_eq!(num_rightmost_whitespaces("foo\r\n\r\nbar"), 0);
    assert_eq!(num_rightmost_whitespaces("\n\n\nfoo\n\nbar\n"), 1);
}

#[test]
fn test_sensor_index_matches_export_contract() {
    let ordered = [
        TouchSensor::new('A', Some(0)).unwrap(),
        TouchSensor::new('A', Some(7)).unwrap(),
        TouchSensor::new('B', Some(0)).unwrap(),
        TouchSensor::new('B', Some(7)).unwrap(),
        TouchSensor::new('C', None).unwrap(),
        TouchSensor::new('D', Some(0)).unwrap(),
        TouchSensor::new('D', Some(7)).unwrap(),
        TouchSensor::new('E', Some(0)).unwrap(),
        TouchSensor::new('E', Some(7)).unwrap(),
    ];
    let expected = [0, 7, 8, 15, 16, 17, 24, 25, 32];

    for (sensor, expected_index) in ordered.iter().zip(expected) {
        assert_eq!(
            sensor_index(sensor),
            expected_index,
            "sensor {} should map to export index {expected_index}",
            sensor.name()
        );
    }
}

/// The angle segment of "1V5-8[1:1]," has its turning button 5 but no destination (the
/// `-` follows): both the missing-destination and the V-shape errors are recorded.
#[test]
fn test_t_slide_angle_missing_destination() {
    let mut state = State::new();
    let v = chars("1V5-8[1:1],");
    let r = t_slide_segment(&mut state, &v, 1);
    assert_eq!(r, Some((None, 3)));
    assert!(state.has_errors());
    assert!(state
        .errors
        .iter()
        .any(|w| matches!(w.inner, PError::MissingSlideAngleDestinationKey)));
}

/// Reading modifier letters keeps leading whitespace when no letter follows it.
#[test]
fn many0_ws_preserves_input_on_zero_matches() {
    // Case 1: input has leading spaces, no "b" follows
    let input = chars("  rest");
    let (vars, rem) = modifier_chars(&input, 0, "b");
    assert!(vars.is_empty(), "expected 0 matches, got {vars:?}");
    assert_eq!(
        input[rem..].iter().collect::<String>(),
        "  rest",
        "reading modifiers should NOT consume leading whitespace on 0 matches"
    );

    // Case 2: input has no leading spaces, no "b" follows
    let input2 = chars("rest");
    let (vars2, rem2) = modifier_chars(&input2, 0, "b");
    assert!(vars2.is_empty());
    assert_eq!(input2[rem2..].iter().collect::<String>(), "rest");

    // Case 3: input has one "b" with leading space — should consume the space+b
    let input3 = chars(" b rest");
    let (vars3, rem3) = modifier_chars(&input3, 0, "b");
    assert_eq!(vars3.len(), 1);
    assert_eq!(input3[rem3..].iter().collect::<String>(), " rest");
}
