use heater_control::state::{ControlState, Snapshot, FULL_POWER};
use std::sync::{Arc, Mutex};

#[test]
fn new_state_requests_no_power_and_reports_no_current() {
    let state = ControlState::new();
    assert_eq!(state.read(), Snapshot { setpoint: 0, current_rms: 0 });
}

#[test]
fn set_setpoint_stores_values_in_range_as_they_are() {
    let mut state = ControlState::new();
    state.set_setpoint(250_000);
    assert_eq!(state.read().setpoint, 250_000);
    state.set_setpoint(0);
    assert_eq!(state.read().setpoint, 0);
    state.set_setpoint(1_000_000);
    assert_eq!(state.read().setpoint, FULL_POWER);
}

#[test]
fn set_setpoint_clamps_values_out_of_range() {
    let mut state = ControlState::new();
    state.set_setpoint(-1);
    assert_eq!(state.read().setpoint, 0);
    state.set_setpoint(1_000_001);
    assert_eq!(state.read().setpoint, 1_000_000);
    state.set_setpoint(i64::MIN);
    assert_eq!(state.read().setpoint, 0);
    state.set_setpoint(i64::MAX);
    assert_eq!(state.read().setpoint, 1_000_000);
}

#[test]
fn the_two_fields_are_written_independently() {
    let mut state = ControlState::new();
    state.set_setpoint(800_000);
    state.set_current_rms(2_236_067);
    assert_eq!(state.read(), Snapshot { setpoint: 800_000, current_rms: 2_236_067 });
    state.set_setpoint(100_000);
    assert_eq!(state.read(), Snapshot { setpoint: 100_000, current_rms: 2_236_067 });
    state.set_current_rms(u32::MAX);
    assert_eq!(state.read(), Snapshot { setpoint: 100_000, current_rms: u32::MAX });
}

#[test]
fn a_snapshot_is_one_state_of_the_record() {
    let shared = Arc::new(Mutex::new(ControlState::new()));
    let interface = Arc::clone(&shared);
    let sampler = Arc::clone(&shared);
    let mut seen = Vec::new();
    for k in 0..1000u32 {
        interface.lock().unwrap().set_setpoint(i64::from(k) * 1000);
        seen.push(shared.lock().unwrap().read());
        sampler.lock().unwrap().set_current_rms(k * 7);
        seen.push(shared.lock().unwrap().read());
    }
    for (i, snapshot) in seen.iter().enumerate() {
        let k = (i / 2) as u32;
        let rms = if i % 2 == 1 { k * 7 } else { k.saturating_sub(1) * 7 };
        assert_eq!(*snapshot, Snapshot { setpoint: k * 1000, current_rms: rms });
        assert!(snapshot.setpoint <= FULL_POWER);
    }
}
