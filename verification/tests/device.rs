use haptic_sync::device::{
    clamp_control_value, control_updates, vibrate_adjust, CapabilityType, DeviceEvent,
    DeviceHandle, DeviceManager,
};

fn handle(name: &str, caps: Vec<CapabilityType>) -> DeviceHandle {
    DeviceHandle {
        name: String::from(name),
        capabilities: caps,
    }
}

#[test]
fn two_devices_fill_both_slots_and_stop_scanning() {
    let mut m = DeviceManager::new();
    m.on_start_scanning_result(true);
    assert!(m.scanning);

    let stop = m.handle_event(&DeviceEvent::DeviceAdded(handle(
        "Toy A",
        vec![CapabilityType::Oscillate],
    )));
    assert!(!stop);
    assert!(m.oscillate_device.is_some());
    assert!(m.vibrate_device.is_none());

    let stop = m.handle_event(&DeviceEvent::DeviceAdded(handle(
        "Toy B",
        vec![CapabilityType::Vibrate],
    )));
    assert!(stop);
    m.on_stop_scanning_result(true);
    assert!(!m.scanning);

    m.handle_event(&DeviceEvent::DeviceRemoved(String::from("Toy A")));
    assert!(m.oscillate_device.is_none());
    assert_eq!(
        m.vibrate_device.as_ref().map(|d| d.name.as_str()),
        Some("Toy B")
    );
}

#[test]
fn one_device_may_fill_both_slots() {
    let mut m = DeviceManager::new();
    m.handle_event(&DeviceEvent::DeviceAdded(handle(
        "Combo",
        vec![CapabilityType::Oscillate, CapabilityType::Vibrate],
    )));
    assert_eq!(
        m.oscillate_device.as_ref().map(|d| d.name.as_str()),
        Some("Combo")
    );
    assert_eq!(
        m.vibrate_device.as_ref().map(|d| d.name.as_str()),
        Some("Combo")
    );
    m.handle_event(&DeviceEvent::DeviceRemoved(String::from("Combo")));
    assert!(m.oscillate_device.is_none());
    assert!(m.vibrate_device.is_none());
}

#[test]
fn unrelated_capabilities_fill_no_slot() {
    let mut m = DeviceManager::new();
    let stop = m.handle_event(&DeviceEvent::DeviceAdded(handle(
        "Lamp",
        vec![CapabilityType::Other],
    )));
    assert!(!stop);
    assert!(m.oscillate_device.is_none());
    assert!(m.vibrate_device.is_none());
}

#[test]
fn scan_finished_notification_changes_nothing() {
    let mut m = DeviceManager::new();
    m.set_value(123);
    let stop = m.handle_event(&DeviceEvent::ScanningFinished);
    assert!(!stop);
    assert_eq!(m.latest_value, 123);
    assert!(!m.scanning);
}

#[test]
fn scan_tick_requests_discovery_only_when_needed() {
    let mut m = DeviceManager::new();
    assert!(m.scan_tick());
    m.on_start_scanning_result(false);
    assert!(!m.scanning);
    assert!(m.scan_tick());
    m.on_start_scanning_result(true);
    assert!(m.scanning);
    assert!(!m.scan_tick());

    m.handle_event(&DeviceEvent::DeviceAdded(handle(
        "Combo",
        vec![CapabilityType::Oscillate, CapabilityType::Vibrate],
    )));
    m.on_stop_scanning_result(true);
    assert!(!m.scan_tick());
}

#[test]
fn repeated_stop_when_idle_changes_nothing() {
    let mut m = DeviceManager::new();
    m.set_value(77);
    assert!(!m.scanning);
    m.on_stop_scanning_result(true);
    m.on_stop_scanning_result(true);
    m.on_stop_scanning_result(false);
    assert!(!m.scanning);
    assert_eq!(m.latest_value, 77);
    assert!(m.oscillate_device.is_none());
    assert!(m.vibrate_device.is_none());
}

#[test]
fn failed_stop_keeps_scanning() {
    let mut m = DeviceManager::new();
    m.on_start_scanning_result(true);
    m.on_stop_scanning_result(false);
    assert!(m.scanning);
    m.on_stop_scanning_result(true);
    assert!(!m.scanning);
}

#[test]
fn broadcast_dead_zone_scenario() {
    let mut m = DeviceManager::new();
    m.handle_event(&DeviceEvent::DeviceAdded(handle(
        "Combo",
        vec![CapabilityType::Oscillate, CapabilityType::Vibrate],
    )));

    // 0.02 sits below the 0.03 dead zone: the vibrate command is exactly 0.
    m.set_value(20);
    let cmds = m.broadcast_commands();
    assert_eq!(cmds.oscillate, Some(20));
    assert_eq!(cmds.vibrate, Some(0));

    // 0.5 maps to (0.5 - 0.03) * 1.5 = 0.705.
    m.set_value(500);
    let cmds = m.broadcast_commands();
    assert_eq!(cmds.oscillate, Some(500));
    assert_eq!(cmds.vibrate, Some(705));
}

#[test]
fn broadcast_clamps_out_of_range_values() {
    let mut m = DeviceManager::new();
    m.handle_event(&DeviceEvent::DeviceAdded(handle(
        "Combo",
        vec![CapabilityType::Oscillate, CapabilityType::Vibrate],
    )));
    m.set_value(-5);
    let cmds = m.broadcast_commands();
    assert_eq!(cmds.oscillate, Some(0));
    assert_eq!(cmds.vibrate, Some(0));

    m.set_value(4000);
    let cmds = m.broadcast_commands();
    assert_eq!(cmds.oscillate, Some(1000));
    // (1.0 - 0.03) * 1.5 exceeds full scale and is clamped.
    assert_eq!(cmds.vibrate, Some(1000));
}

#[test]
fn broadcast_skips_empty_slots() {
    let mut m = DeviceManager::new();
    m.set_value(500);
    let cmds = m.broadcast_commands();
    assert_eq!(cmds.oscillate, None);
    assert_eq!(cmds.vibrate, None);
}

#[test]
fn vibrate_mapping_edges() {
    assert_eq!(vibrate_adjust(0), 0);
    assert_eq!(vibrate_adjust(29), 0);
    assert_eq!(vibrate_adjust(30), 0);
    assert_eq!(vibrate_adjust(31), 1);
    assert_eq!(vibrate_adjust(500), 705);
    assert_eq!(vibrate_adjust(1000), 1000);
}

#[test]
fn clamp_control_edges() {
    assert_eq!(clamp_control_value(i64::MIN), 0);
    assert_eq!(clamp_control_value(-1), 0);
    assert_eq!(clamp_control_value(0), 0);
    assert_eq!(clamp_control_value(1000), 1000);
    assert_eq!(clamp_control_value(1001), 1000);
    assert_eq!(clamp_control_value(i64::MAX), 1000);
}

#[test]
fn control_message_updates_are_clamped() {
    assert_eq!(control_updates(Some(1500), None), (Some(1000), None));
    assert_eq!(control_updates(None, Some(-3)), (None, Some(0)));
    assert_eq!(control_updates(Some(700), Some(20)), (Some(700), Some(20)));
    assert_eq!(control_updates(None, None), (None, None));
}

#[test]
fn set_value_is_latest_write_wins() {
    let mut m = DeviceManager::new();
    m.set_value(100);
    m.set_value(200);
    m.set_value(50);
    assert_eq!(m.latest_value, 50);
}
