use led_mcu::led::{Color, LedState};
use led_mcu::payload::{extract_and_parse_payload, is_command_event, PayloadError};

fn wrap(json: &str) -> String {
    let escaped = json.replace('"', "\\\"");
    format!("Received publish, topic: led, data: Ok(\"{escaped}\"), details: Complete")
}

#[test]
fn round_trip_well_formed_payload() {
    let json = r#"{"led_state": "On", "color": "Red", "percentage": 50, "speed": 0}"#;
    let led = extract_and_parse_payload(&wrap(json)).unwrap();
    assert!(led.led_state == LedState::On);
    assert!(led.color == Color::Red);
    assert_eq!(led.percentage, 50);
    assert_eq!(led.speed, 0);
}

#[test]
fn round_trip_rotate_payload() {
    let json = r#"{"led_state": "Rotate", "color": "Purple", "percentage": 100, "speed": 255}"#;
    let led = extract_and_parse_payload(&wrap(json)).unwrap();
    assert!(led.led_state == LedState::Rotate);
    assert!(led.color == Color::Purple);
    assert_eq!(led.percentage, 100);
    assert_eq!(led.speed, 255);
}

#[test]
fn unescaped_envelope_also_extracts() {
    let raw = r#"data: Ok("{"led_state": "Off", "color": "White", "percentage": 1, "speed": 0}")"#;
    let led = extract_and_parse_payload(raw).unwrap();
    assert!(led.led_state == LedState::Off);
    assert!(led.color == Color::White);
}

#[test]
fn missing_marker_is_format_error() {
    let r = extract_and_parse_payload("Received publish, topic: led, payload only");
    assert_eq!(r, Err(PayloadError::FormatError));
}

#[test]
fn missing_closing_is_format_error() {
    let r = extract_and_parse_payload(r#"data: Ok("{"led_state": "On""#);
    assert_eq!(r, Err(PayloadError::FormatError));
}

#[test]
fn invalid_json_is_decode_error() {
    let r = extract_and_parse_payload(&wrap("this is not a command"));
    assert_eq!(r, Err(PayloadError::DecodeError));
}

#[test]
fn unknown_mode_is_decode_error() {
    let json = r#"{"led_state": "Blink", "color": "Red", "percentage": 50, "speed": 0}"#;
    assert_eq!(extract_and_parse_payload(&wrap(json)), Err(PayloadError::DecodeError));
}

#[test]
fn unknown_color_is_decode_error() {
    let json = r#"{"led_state": "On", "color": "Cyan", "percentage": 50, "speed": 0}"#;
    assert_eq!(extract_and_parse_payload(&wrap(json)), Err(PayloadError::DecodeError));
}

#[test]
fn unknown_field_is_decode_error() {
    let json = r#"{"led_state": "On", "color": "Red", "brightness": 9, "speed": 0}"#;
    assert_eq!(extract_and_parse_payload(&wrap(json)), Err(PayloadError::DecodeError));
}

#[test]
fn zero_percentage_is_decode_error() {
    let json = r#"{"led_state": "On", "color": "Red", "percentage": 0, "speed": 0}"#;
    assert_eq!(extract_and_parse_payload(&wrap(json)), Err(PayloadError::DecodeError));
}

#[test]
fn oversized_percentage_is_decode_error() {
    let json = r#"{"led_state": "On", "color": "Red", "percentage": 101, "speed": 0}"#;
    assert_eq!(extract_and_parse_payload(&wrap(json)), Err(PayloadError::DecodeError));
}

#[test]
fn rotate_with_zero_speed_is_decode_error() {
    let json = r#"{"led_state": "Rotate", "color": "Red", "percentage": 50, "speed": 0}"#;
    assert_eq!(extract_and_parse_payload(&wrap(json)), Err(PayloadError::DecodeError));
}

#[test]
fn overflowing_number_is_decode_error() {
    let json = r#"{"led_state": "On", "color": "Red", "percentage": 50, "speed": 256}"#;
    assert_eq!(extract_and_parse_payload(&wrap(json)), Err(PayloadError::DecodeError));
}

#[test]
fn leading_zero_number_is_decode_error() {
    let json = r#"{"led_state": "On", "color": "Red", "percentage": 05, "speed": 0}"#;
    assert_eq!(extract_and_parse_payload(&wrap(json)), Err(PayloadError::DecodeError));
}

#[test]
fn every_mode_and_color_round_trips() {
    let modes = [("On", LedState::On), ("Rotate", LedState::Rotate), ("Off", LedState::Off)];
    let colors = [
        ("White", Color::White),
        ("Red", Color::Red),
        ("Green", Color::Green),
        ("Blue", Color::Blue),
        ("Purple", Color::Purple),
        ("Yellow", Color::Yellow),
    ];
    for (mname, mode) in modes.iter() {
        for (cname, color) in colors.iter() {
            let json = format!(
                "{{\"led_state\": \"{mname}\", \"color\": \"{cname}\", \"percentage\": 7, \"speed\": 3}}"
            );
            let led = extract_and_parse_payload(&wrap(&json)).unwrap();
            assert!(led.led_state == *mode);
            assert!(led.color == *color);
            assert_eq!(led.percentage, 7);
            assert_eq!(led.speed, 3);
        }
    }
}

#[test]
fn listener_marker_filter() {
    assert!(is_command_event("Received publish, topic: led"));
    assert!(!is_command_event("Connected to broker"));
    assert!(!is_command_event(""));
}

#[test]
fn compact_json_round_trips() {
    // The spelling a standard JSON serializer emits: no spaces at all.
    let json = r#"{"led_state":"On","color":"Red","percentage":50,"speed":0}"#;
    let led = extract_and_parse_payload(&wrap(json)).unwrap();
    assert!(led.led_state == LedState::On);
    assert!(led.color == Color::Red);
    assert_eq!(led.percentage, 50);
    assert_eq!(led.speed, 0);
}

#[test]
fn reordered_members_decode() {
    let json = r#"{"speed": 4, "percentage": 25, "color": "Green", "led_state": "Rotate"}"#;
    let led = extract_and_parse_payload(&wrap(json)).unwrap();
    assert!(led.led_state == LedState::Rotate);
    assert!(led.color == Color::Green);
    assert_eq!(led.percentage, 25);
    assert_eq!(led.speed, 4);
}

#[test]
fn arbitrary_whitespace_decodes() {
    let json = "{\n\t\"led_state\" :  \"On\" ,\r\n \"color\"\t:\t\"Blue\" , \"percentage\" : 10 , \"speed\" : 2 }";
    let led = extract_and_parse_payload(&wrap(json)).unwrap();
    assert!(led.led_state == LedState::On);
    assert!(led.color == Color::Blue);
    assert_eq!(led.percentage, 10);
    assert_eq!(led.speed, 2);
}

#[test]
fn duplicate_member_is_decode_error() {
    let json = r#"{"led_state": "On", "led_state": "Off", "color": "Red", "percentage": 50, "speed": 0}"#;
    assert_eq!(extract_and_parse_payload(&wrap(json)), Err(PayloadError::DecodeError));
}

#[test]
fn missing_member_is_decode_error() {
    let json = r#"{"led_state": "On", "color": "Red", "percentage": 50}"#;
    assert_eq!(extract_and_parse_payload(&wrap(json)), Err(PayloadError::DecodeError));
}

#[test]
fn trailing_comma_is_decode_error() {
    let json = r#"{"led_state": "On", "color": "Red", "percentage": 50, "speed": 0,}"#;
    assert_eq!(extract_and_parse_payload(&wrap(json)), Err(PayloadError::DecodeError));
}

#[test]
fn trailing_text_after_object_is_decode_error() {
    let json = r#"{"led_state": "On", "color": "Red", "percentage": 50, "speed": 0} extra"#;
    assert_eq!(extract_and_parse_payload(&wrap(json)), Err(PayloadError::DecodeError));
}

#[test]
fn fractional_number_is_decode_error() {
    let json = r#"{"led_state": "On", "color": "Red", "percentage": 5.5, "speed": 0}"#;
    assert_eq!(extract_and_parse_payload(&wrap(json)), Err(PayloadError::DecodeError));
}
