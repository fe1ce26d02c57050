use heater_control::interface::{
    apply_request, apply_setpoint_request, parse_setpoint_request, power_request_of_pairs,
    power_request_of_uri, query_of_uri, read_telemetry, setpoint_body, telemetry_body,
};
use heater_control::state::{ControlState, Snapshot};

fn pairs(items: &[(&str, &str)]) -> Vec<(String, String)> {
    items.iter().map(|(name, value)| (name.to_string(), value.to_string())).collect()
}

#[test]
fn a_numeric_request_stores_the_clamped_value() {
    let mut state = ControlState::new();
    assert_eq!(apply_setpoint_request(&mut state, "0.5"), 500_000);
    assert_eq!(state.read().setpoint, 500_000);
    assert_eq!(apply_setpoint_request(&mut state, "1.5"), 1_000_000);
    assert_eq!(state.read().setpoint, 1_000_000);
    assert_eq!(apply_setpoint_request(&mut state, "-0.25"), 0);
    assert_eq!(state.read().setpoint, 0);
    assert_eq!(apply_setpoint_request(&mut state, "0.333333"), 333_333);
    assert_eq!(state.read().setpoint, 333_333);
}

#[test]
fn the_off_word_stores_zero() {
    let mut state = ControlState::new();
    state.set_setpoint(800_000);
    assert_eq!(apply_setpoint_request(&mut state, "off"), 0);
    assert_eq!(state.read().setpoint, 0);
}

#[test]
fn the_off_word_is_taken_literally() {
    let mut state = ControlState::new();
    state.set_setpoint(800_000);
    assert_eq!(apply_setpoint_request(&mut state, "OFF"), 800_000);
    assert_eq!(apply_setpoint_request(&mut state, "Off"), 800_000);
    assert_eq!(apply_setpoint_request(&mut state, "off "), 800_000);
    assert_eq!(apply_setpoint_request(&mut state, "of"), 800_000);
    assert_eq!(state.read().setpoint, 800_000);
}

#[test]
fn an_unreadable_request_changes_nothing() {
    let mut state = ControlState::new();
    state.set_setpoint(420_000);
    state.set_current_rms(77);
    for value in ["", "on", "nan", "half", "0.5x", " 0.5", "1e", "--1", "\u{665}"] {
        assert_eq!(apply_setpoint_request(&mut state, value), 420_000);
        assert_eq!(state.read(), Snapshot { setpoint: 420_000, current_rms: 77 });
    }
}

#[test]
fn a_request_never_touches_the_current_estimate() {
    let mut state = ControlState::new();
    state.set_current_rms(1_500_000);
    apply_setpoint_request(&mut state, "0.9");
    apply_setpoint_request(&mut state, "off");
    apply_setpoint_request(&mut state, "bogus");
    assert_eq!(read_telemetry(&state), 1_500_000);
}

#[test]
fn telemetry_is_the_published_estimate() {
    let mut state = ControlState::new();
    assert_eq!(read_telemetry(&state), 0);
    state.set_current_rms(2_236_067);
    state.set_setpoint(500_000);
    assert_eq!(read_telemetry(&state), 2_236_067);
}

#[test]
fn request_values_are_read_without_a_state() {
    assert_eq!(parse_setpoint_request("off"), Some(0));
    assert_eq!(parse_setpoint_request("0.5"), Some(500_000));
    assert_eq!(parse_setpoint_request("7"), Some(1_000_000));
    assert_eq!(parse_setpoint_request("-7"), Some(0));
    assert_eq!(parse_setpoint_request("inf"), Some(1_000_000));
    assert_eq!(parse_setpoint_request("nan"), None);
    assert_eq!(parse_setpoint_request("OFF"), None);
    assert_eq!(parse_setpoint_request(""), None);
}

#[test]
fn applying_a_request_clamps_and_reports() {
    let mut state = ControlState::new();
    state.set_current_rms(5);
    assert_eq!(apply_request(&mut state, Some(640_000)), 640_000);
    assert_eq!(apply_request(&mut state, None), 640_000);
    assert_eq!(state.read(), Snapshot { setpoint: 640_000, current_rms: 5 });
    assert_eq!(apply_request(&mut state, Some(u32::MAX)), 1_000_000);
    assert_eq!(apply_request(&mut state, Some(0)), 0);
    assert_eq!(state.read(), Snapshot { setpoint: 0, current_rms: 5 });
}

#[test]
fn the_last_power_pair_decides() {
    let decoded = pairs(&[("p", "0.2"), ("q", "0.9"), ("p", "0.7"), ("P", "0.1")]);
    assert_eq!(power_request_of_pairs(&decoded), Some(700_000));
}

#[test]
fn a_later_unreadable_power_pair_cancels_an_earlier_one() {
    let decoded = pairs(&[("p", "0.2"), ("p", "much")]);
    assert_eq!(power_request_of_pairs(&decoded), None);
}

#[test]
fn pairs_without_a_power_pair_ask_for_nothing() {
    assert_eq!(power_request_of_pairs(&pairs(&[])), None);
    assert_eq!(power_request_of_pairs(&pairs(&[("pp", "0.5"), ("", "0.5"), (" p", "1")])), None);
}

#[test]
fn a_power_pair_may_switch_off() {
    assert_eq!(power_request_of_pairs(&pairs(&[("p", "off")])), Some(0));
    assert_eq!(power_request_of_pairs(&pairs(&[("p", "off"), ("p", "0.4")])), Some(400_000));
}

#[test]
fn the_query_follows_the_first_question_mark() {
    assert_eq!(query_of_uri(b"/heater/power?p=0.5"), b"p=0.5");
    assert_eq!(query_of_uri(b"/heater/power"), b"");
    assert_eq!(query_of_uri(b"/heater/power?"), b"");
    assert_eq!(query_of_uri(b"/a?b?c"), b"b?c");
    assert_eq!(query_of_uri(b"?x"), b"x");
    assert_eq!(query_of_uri(b""), b"");
}

#[test]
fn setpoint_bodies_show_two_places() {
    assert_eq!(setpoint_body(0), b"setpoint=0.00".to_vec());
    assert_eq!(setpoint_body(500_000), b"setpoint=0.50".to_vec());
    assert_eq!(setpoint_body(1_000_000), b"setpoint=1.00".to_vec());
    assert_eq!(setpoint_body(123_456), b"setpoint=0.12".to_vec());
    assert_eq!(setpoint_body(126_000), b"setpoint=0.13".to_vec());
    assert_eq!(setpoint_body(125_000), b"setpoint=0.12".to_vec());
    assert_eq!(setpoint_body(375_000), b"setpoint=0.38".to_vec());
    assert_eq!(setpoint_body(995_000), b"setpoint=1.00".to_vec());
    assert_eq!(setpoint_body(985_000), b"setpoint=0.98".to_vec());
}

#[test]
fn telemetry_bodies_show_amperes_to_three_places() {
    assert_eq!(telemetry_body(0), b"{\"rms_current\":0.000}".to_vec());
    assert_eq!(telemetry_body(2_236_067), b"{\"rms_current\":2.236}".to_vec());
    assert_eq!(telemetry_body(2_236_500), b"{\"rms_current\":2.236}".to_vec());
    assert_eq!(telemetry_body(2_237_500), b"{\"rms_current\":2.238}".to_vec());
    assert_eq!(telemetry_body(2_236_501), b"{\"rms_current\":2.237}".to_vec());
    assert_eq!(telemetry_body(999), b"{\"rms_current\":0.001}".to_vec());
    assert_eq!(telemetry_body(499), b"{\"rms_current\":0.000}".to_vec());
    assert_eq!(telemetry_body(27_272_727), b"{\"rms_current\":27.273}".to_vec());
    assert_eq!(telemetry_body(u32::MAX), b"{\"rms_current\":4294.967}".to_vec());
}

#[test]
fn a_power_target_asks_for_the_value_in_its_query() {
    assert_eq!(power_request_of_uri(b"/heater/power?p=0.5"), Some(500_000));
    assert_eq!(power_request_of_uri(b"/heater/power?p=off"), Some(0));
    assert_eq!(power_request_of_uri(b"/heater/power?p=3"), Some(1_000_000));
}

#[test]
fn a_power_target_without_a_value_asks_for_nothing() {
    assert_eq!(power_request_of_uri(b"/heater/power"), None);
    assert_eq!(power_request_of_uri(b"/heater/power?"), None);
    assert_eq!(power_request_of_uri(b"/heater/power?q=1"), None);
    assert_eq!(power_request_of_uri(b"/heater/power?p=warm"), None);
    assert_eq!(power_request_of_uri(b"/heater/power?p"), None);
    assert_eq!(power_request_of_uri(b"/heater/power?p="), None);
}

#[test]
fn a_power_target_is_decoded_before_it_is_read() {
    // "%30%2E%37%35" is "0.75", and the name is escaped too.
    assert_eq!(power_request_of_uri(b"/heater/power?%70=%30%2E%37%35"), Some(750_000));
    // A plus sign is a space once decoded, and a number does not start with one.
    assert_eq!(power_request_of_uri(b"/heater/power?p=+0.5"), None);
    assert_eq!(power_request_of_uri(b"/heater/power?p=%2B0.5"), Some(500_000));
}

#[test]
fn the_last_power_value_of_a_query_decides() {
    assert_eq!(power_request_of_uri(b"/heater/power?p=0.1&x=3&&p=0.9"), Some(900_000));
    assert_eq!(power_request_of_uri(b"/heater/power?p=0.1&p="), None);
    assert_eq!(power_request_of_uri(b"/heater/power?p=0.1&P=0.9"), Some(100_000));
}

#[test]
fn a_power_request_sets_and_reports_the_setpoint() {
    let mut state = ControlState::new();
    state.set_current_rms(9);
    let setpoint = apply_request(&mut state, power_request_of_uri(b"/heater/power?p=0.5"));
    assert_eq!(setpoint_body(setpoint), b"setpoint=0.50".to_vec());
    assert_eq!(state.read(), Snapshot { setpoint: 500_000, current_rms: 9 });
    let setpoint = apply_request(&mut state, power_request_of_uri(b"/heater/power?p=junk"));
    assert_eq!(setpoint_body(setpoint), b"setpoint=0.50".to_vec());
    let setpoint = apply_request(&mut state, power_request_of_uri(b"/heater/power?p=off"));
    assert_eq!(setpoint_body(setpoint), b"setpoint=0.00".to_vec());
    assert_eq!(state.read(), Snapshot { setpoint: 0, current_rms: 9 });
}

#[test]
fn a_current_request_reports_the_estimate() {
    let mut state = ControlState::new();
    assert_eq!(telemetry_body(read_telemetry(&state)), b"{\"rms_current\":0.000}".to_vec());
    state.set_current_rms(2_236_067);
    assert_eq!(telemetry_body(read_telemetry(&state)), b"{\"rms_current\":2.236}".to_vec());
}
