use blue_track::address::MacAddress;
use blue_track::scan::{DeviceData as ScannedDevice, Scan};
use blue_track::server::{
    append_payload_chunk, DeviceData, DeviceLifetimeStep, DeviceSharedState, TimeLimits,
    CALENDAR_MAX_NS, CALENDAR_MIN_NS, CLOCK_SPAN_NS, MAX_SIZE,
};
use chrono::{DateTime, Utc};

/// One millisecond in nanoseconds.
const MS: i128 = 1_000_000;

fn device(bytes: [u8; 6], name: Option<&str>) -> ScannedDevice {
    ScannedDevice { address: MacAddress::from(bytes), name: name.map(|n| n.to_string()), rssi: -60 }
}

fn record<'a>(state: &'a DeviceSharedState, key: &str) -> Option<&'a DeviceData> {
    state.devices_map().iter().find(|(k, _)| k == key).map(|(_, d)| d)
}

/// Records a scan whose clock reads `now` at both ends, after checking it.
fn put(state: &mut DeviceSharedState, scan: Scan, dists: Vec<u32>, now: i128) {
    assert!(state.can_put_devices(&scan, &dists, now, now));
    state.put_devices(scan, &dists, now, now);
}

fn state_with_steps(key: &str, steps: Vec<DeviceLifetimeStep>) -> DeviceSharedState {
    let data = DeviceData { mac_address: key.to_string(), name: String::new(), lifetime: steps };
    DeviceSharedState::from_parts(vec![(key.to_string(), data)], None, "s.json".to_string()).unwrap()
}

#[test]
fn new_state_is_empty_and_has_no_limits() {
    let state = DeviceSharedState::with_config_name("shared_state.json");
    assert!(state.devices_map().is_empty());
    assert!(state.take_limits().is_none());
    assert_eq!(state.config_path(), "shared_state.json");
}

#[test]
fn first_scan_adds_devices_without_steps_and_sets_limits() {
    let mut state = DeviceSharedState::with_config_name("s.json");
    let scan = Scan { duration: 100, devices: vec![device([1, 2, 3, 4, 5, 6], Some("tag"))] };
    put(&mut state, scan, vec![7], 1000 * MS);
    let d = record(&state, "01:02:03:04:05:06").expect("device recorded");
    assert_eq!(d.mac_address, "01:02:03:04:05:06");
    assert_eq!(d.name, "tag");
    assert!(d.lifetime.is_empty());
    assert_eq!(state.take_limits(), Some(TimeLimits { epoch_start: 900 * MS, epoch_end: 1000 * MS }));
}

#[test]
fn the_scan_starts_at_the_first_reading_and_ends_at_the_second() {
    let mut state = DeviceSharedState::with_config_name("s.json");
    let scan = Scan { duration: 100, devices: vec![] };
    assert!(state.can_put_devices(&scan, &vec![], 1000 * MS, 1000 * MS + 7));
    state.put_devices(scan, &vec![], 1000 * MS, 1000 * MS + 7);
    assert_eq!(state.take_limits(), Some(TimeLimits { epoch_start: 900 * MS, epoch_end: 1000 * MS + 7 }));
}

#[test]
fn second_scan_appends_a_step_and_extends_the_end() {
    let mut state = DeviceSharedState::with_config_name("s.json");
    let a = [1, 2, 3, 4, 5, 6];
    put(&mut state, Scan { duration: 100, devices: vec![device(a, None)] }, vec![1], 1000 * MS);
    put(&mut state, Scan { duration: 50, devices: vec![device(a, Some("late"))] }, vec![2], 2000 * MS);
    let d = record(&state, "01:02:03:04:05:06").unwrap();
    assert_eq!(d.name, "late");
    assert_eq!(
        d.lifetime,
        vec![DeviceLifetimeStep { time_start: 1950 * MS, time_end: 2000 * MS, distance_bits: 2 }]
    );
    assert_eq!(state.take_limits(), Some(TimeLimits { epoch_start: 900 * MS, epoch_end: 2000 * MS }));
}

#[test]
fn a_known_name_is_not_replaced() {
    let mut state = DeviceSharedState::with_config_name("s.json");
    let a = [9, 9, 9, 9, 9, 9];
    put(&mut state, Scan { duration: 10, devices: vec![device(a, Some("first"))] }, vec![0], 100 * MS);
    put(&mut state, Scan { duration: 10, devices: vec![device(a, Some("second"))] }, vec![0], 200 * MS);
    assert_eq!(record(&state, "09:09:09:09:09:09").unwrap().name, "first");
}

#[test]
fn a_step_starting_after_the_scan_start_blocks_a_new_step() {
    let mut state = DeviceSharedState::with_config_name("s.json");
    let a = [1, 1, 1, 1, 1, 1];
    put(&mut state, Scan { duration: 10, devices: vec![device(a, None)] }, vec![0], 100 * MS);
    put(&mut state, Scan { duration: 10, devices: vec![device(a, None)] }, vec![1], 200 * MS);
    // a long scan that started before the step at 190 ms and ends after it
    put(&mut state, Scan { duration: 200, devices: vec![device(a, None)] }, vec![2], 300 * MS);
    let d = record(&state, "01:01:01:01:01:01").unwrap();
    assert_eq!(d.lifetime.len(), 1);
    assert_eq!(d.lifetime[0].time_start, 190 * MS);
}

#[test]
fn a_scan_ending_before_a_later_step_fails_the_check() {
    let mut state = DeviceSharedState::with_config_name("s.json");
    let a = [1, 1, 1, 1, 1, 1];
    put(&mut state, Scan { duration: 10, devices: vec![device(a, None)] }, vec![0], 100 * MS);
    put(&mut state, Scan { duration: 10, devices: vec![device(a, None)] }, vec![1], 200 * MS);
    // the step runs 190..200 ms; a scan from 150 to 200 ms does not end after it
    let bad = Scan { duration: 50, devices: vec![device(a, None)] };
    assert!(!state.can_put_devices(&bad, &vec![2], 200 * MS, 200 * MS));
}

#[test]
fn an_unsorted_lifetime_fails_the_check() {
    let steps = vec![
        DeviceLifetimeStep { time_start: 50 * MS, time_end: 60 * MS, distance_bits: 0 },
        DeviceLifetimeStep { time_start: 10 * MS, time_end: 20 * MS, distance_bits: 0 },
    ];
    let state = state_with_steps("01:01:01:01:01:01", steps);
    let scan = Scan { duration: 10, devices: vec![device([1, 1, 1, 1, 1, 1], None)] };
    assert!(!state.can_put_devices(&scan, &vec![0], 1000 * MS, 1000 * MS));
}

#[test]
fn a_new_step_earlier_within_the_same_millisecond_fails_the_order_check() {
    // the stored step starts half-way into millisecond 1000; the scan starts
    // earlier within that millisecond, so no step starts after the scan in
    // whole milliseconds and the appended step would come out of order
    let steps = vec![DeviceLifetimeStep { time_start: 1000 * MS + 500_000, time_end: 1001 * MS, distance_bits: 0 }];
    let state = state_with_steps("01:01:01:01:01:01", steps);
    let scan = Scan { duration: 10, devices: vec![device([1, 1, 1, 1, 1, 1], None)] };
    assert!(!state.can_put_devices(&scan, &vec![0], 1010 * MS + 100_000, 1020 * MS));
    let later = Scan { duration: 10, devices: vec![device([1, 1, 1, 1, 1, 1], None)] };
    assert!(state.can_put_devices(&later, &vec![0], 1010 * MS + 600_000, 1020 * MS));
}

#[test]
fn a_device_seen_twice_in_its_first_scan_gets_one_step() {
    let mut state = DeviceSharedState::with_config_name("s.json");
    let a = [2, 2, 2, 2, 2, 2];
    let scan = Scan { duration: 10, devices: vec![device(a, None), device(a, Some("x"))] };
    put(&mut state, scan, vec![5, 6], 100 * MS);
    assert_eq!(state.devices_map().len(), 1);
    let d = record(&state, "02:02:02:02:02:02").unwrap();
    assert_eq!(d.name, "x");
    assert_eq!(d.lifetime, vec![DeviceLifetimeStep { time_start: 90 * MS, time_end: 100 * MS, distance_bits: 6 }]);
}

#[test]
fn a_scan_before_the_epoch_fails_only_where_a_known_device_is_met() {
    let a = [4, 4, 4, 4, 4, 4];
    // a new device seen once: nothing reads the clock against the epoch
    let mut state = DeviceSharedState::with_config_name("s.json");
    let once = Scan { duration: 10, devices: vec![device(a, None)] };
    assert!(state.can_put_devices(&once, &vec![0], 5 * MS, 5 * MS));
    state.put_devices(once, &vec![0], 5 * MS, 5 * MS);
    assert_eq!(state.take_limits(), Some(TimeLimits { epoch_start: -5 * MS, epoch_end: 5 * MS }));
    // the same device again: now it is known
    let again = Scan { duration: 10, devices: vec![device(a, None)] };
    assert!(!state.can_put_devices(&again, &vec![0], 5 * MS, 5 * MS));
    // a new device named twice in one scan is met again on its second sight
    let fresh = DeviceSharedState::with_config_name("s.json");
    let twice = Scan { duration: 10, devices: vec![device([5, 5, 5, 5, 5, 5], None), device([5, 5, 5, 5, 5, 5], None)] };
    assert!(!fresh.can_put_devices(&twice, &vec![0, 0], 5 * MS, 5 * MS));
    assert!(fresh.can_put_devices(&twice, &vec![0, 0], 15 * MS, 15 * MS));
}

#[test]
fn times_outside_the_calendar_fail_the_check() {
    let state = DeviceSharedState::with_config_name("s.json");
    let empty = Scan { duration: 0, devices: vec![] };
    assert!(state.can_put_devices(&empty, &vec![], CALENDAR_MAX_NS, CALENDAR_MAX_NS));
    assert!(!state.can_put_devices(&empty, &vec![], CALENDAR_MAX_NS, CALENDAR_MAX_NS + 1));
    // the first scan also stores its start
    let long = Scan { duration: 1, devices: vec![] };
    assert!(!state.can_put_devices(&long, &vec![], CALENDAR_MIN_NS, CALENDAR_MIN_NS));
    let mut later = DeviceSharedState::with_config_name("s.json");
    put(&mut later, Scan { duration: 0, devices: vec![] }, vec![], 0);
    assert!(later.can_put_devices(&long, &vec![], CALENDAR_MIN_NS, CALENDAR_MIN_NS));
}

#[test]
fn a_scan_starting_before_the_clock_span_fails_the_check() {
    let state = DeviceSharedState::with_config_name("s.json");
    let scan = Scan { duration: 1, devices: vec![] };
    assert!(!state.can_put_devices(&scan, &vec![], -CLOCK_SPAN_NS, 0));
    assert!(!state.can_put_devices(&scan, &vec![], -CLOCK_SPAN_NS + MS - 1, 0));
}

#[test]
fn calendar_bounds_are_those_of_chrono() {
    let secs = |ns: i128| ns.div_euclid(1_000_000_000) as i64;
    let nanos = |ns: i128| ns.rem_euclid(1_000_000_000) as u32;
    let fits = |ns: i128| DateTime::<Utc>::from_timestamp(secs(ns), nanos(ns)).is_some();
    assert!(fits(CALENDAR_MIN_NS));
    assert!(!fits(CALENDAR_MIN_NS - 1));
    assert!(fits(CALENDAR_MAX_NS));
    assert!(!fits(CALENDAR_MAX_NS + 1));
}

#[test]
fn snapshot_lists_every_device_once() {
    let mut state = DeviceSharedState::with_config_name("s.json");
    let scan = Scan {
        duration: 10,
        devices: vec![device([1, 0, 0, 0, 0, 0], None), device([2, 0, 0, 0, 0, 0], None), device([1, 0, 0, 0, 0, 0], None)],
    };
    put(&mut state, scan, vec![0, 0, 0], 100 * MS);
    let snap = state.take_snapshot(5, 6).unwrap();
    assert_eq!(snap.time_start, 5);
    assert_eq!(snap.time_end, 6);
    let mut keys: Vec<String> = snap.devices.iter().map(|d| d.mac_address.clone()).collect();
    keys.sort();
    assert_eq!(keys, vec!["01:00:00:00:00:00".to_string(), "02:00:00:00:00:00".to_string()]);
}

#[test]
fn from_parts_refuses_a_repeated_key() {
    let k = "a".to_string();
    let d1 = DeviceData { mac_address: k.clone(), name: String::new(), lifetime: vec![] };
    let d2 = DeviceData { mac_address: k.clone(), name: String::new(), lifetime: vec![] };
    assert!(DeviceSharedState::from_parts(vec![(k.clone(), d1), (k, d2)], None, String::new()).is_none());
}

#[test]
fn lifetime_step_millis_round_down_and_keep_64_bits() {
    let s = DeviceLifetimeStep { time_start: 1700 * MS + 999_999, time_end: -1, distance_bits: 0 };
    assert_eq!(s.time_start_millis(), 1700);
    assert_eq!(s.time_end_millis(), u64::MAX);
    let t = DeviceLifetimeStep { time_start: -MS, time_end: -MS - 1, distance_bits: 0 };
    assert_eq!(t.time_start_millis(), u64::MAX);
    assert_eq!(t.time_end_millis(), u64::MAX - 1);
}

#[test]
fn payload_chunks_are_kept_up_to_the_limit() {
    let mut raw = Vec::new();
    assert!(append_payload_chunk(&mut raw, &[1, 2, 3]));
    assert_eq!(raw, vec![1, 2, 3]);
    let big = vec![0u8; MAX_SIZE - 3];
    assert!(append_payload_chunk(&mut raw, &big));
    assert_eq!(raw.len(), MAX_SIZE);
    assert!(!append_payload_chunk(&mut raw, &[9]));
    assert_eq!(raw.len(), MAX_SIZE);
}

#[test]
fn a_device_repeated_in_a_scan_passes_when_its_first_sight_does() {
    let mut state = DeviceSharedState::with_config_name("s.json");
    let a = [3, 3, 3, 3, 3, 3];
    put(&mut state, Scan { duration: 10, devices: vec![device(a, None)] }, vec![0], 100 * MS);
    put(&mut state, Scan { duration: 10, devices: vec![device(a, None)] }, vec![1], 200 * MS);
    let scan = Scan { duration: 10, devices: vec![device(a, None), device(a, None)] };
    put(&mut state, scan, vec![2, 3], 300 * MS);
    let d = record(&state, "03:03:03:03:03:03").unwrap();
    let starts: Vec<i128> = d.lifetime.iter().map(|s| s.time_start).collect();
    assert_eq!(starts, vec![190 * MS, 290 * MS, 290 * MS]);
}

#[test]
fn from_parts_keeps_the_given_parts() {
    let k = "01:02:03:04:05:06".to_string();
    let d = DeviceData { mac_address: k.clone(), name: "n".to_string(), lifetime: vec![] };
    let limits = Some(TimeLimits { epoch_start: 1, epoch_end: 2 });
    let state = DeviceSharedState::from_parts(vec![(k.clone(), d)], limits, "p".to_string()).unwrap();
    assert_eq!(state.devices_map().len(), 1);
    assert_eq!(state.devices_map()[0].0, k);
    assert_eq!(state.devices_map()[0].1.name, "n");
    assert_eq!(state.take_limits(), limits);
    assert_eq!(state.config_path(), "p");
}
