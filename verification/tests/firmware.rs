use blue_track::connection::{
    blink_step, pause_after_connect, round_start, should_start, BlinkStep, ConnectionState, Rgb, SharedState,
    WifiStaState, RECONNECT_PAUSE_MS,
};
use blue_track::scan::Scan;
use blue_track::seen::SeenAddresses;
use blue_track::sigma::{order_by_derivative_layout, sigma_order};

#[test]
fn connection_codes_round_trip() {
    for s in [ConnectionState::Disconnected, ConnectionState::Connecting, ConnectionState::Connected] {
        assert_eq!(ConnectionState::from_code(s.code()), Some(s));
    }
    assert_eq!(ConnectionState::Disconnected.code(), 1);
    assert_eq!(ConnectionState::Connecting.code(), 2);
    assert_eq!(ConnectionState::Connected.code(), 3);
    assert_eq!(ConnectionState::from_code(0), None);
    assert_eq!(ConnectionState::from_code(4), None);
}

#[test]
fn the_led_blinks_in_the_colour_of_the_state() {
    let on = blink_step(ConnectionState::Connected, false);
    assert_eq!(on, BlinkStep { should_blink: true, color: Rgb { r: 0, g: 255, b: 0 }, timeout_ms: 700 });
    let off = blink_step(ConnectionState::Connected, on.should_blink);
    assert_eq!(off, BlinkStep { should_blink: false, color: Rgb { r: 0, g: 0, b: 0 }, timeout_ms: 700 });
    assert_eq!(blink_step(ConnectionState::Disconnected, false).color, Rgb { r: 255, g: 0, b: 0 });
    assert_eq!(blink_step(ConnectionState::Disconnected, false).timeout_ms, 300);
    assert_eq!(blink_step(ConnectionState::Connecting, false).color, Rgb { r: 0, g: 0, b: 255 });
    assert_eq!(blink_step(ConnectionState::Connecting, true).timeout_ms, 100);
}

#[test]
fn repeated_addresses_are_reported_once() {
    let mut seen = SeenAddresses::new();
    let found = seen.on_adv_reports(&vec![1, 2, 1, 3, 2]);
    assert_eq!(found, vec![1, 2, 3]);
    assert!(seen.contains(1) && seen.contains(2) && seen.contains(3));
    assert_eq!(seen.on_adv_reports(&vec![3, 4]), vec![4]);
}

#[test]
fn the_oldest_address_is_forgotten_beyond_128() {
    let mut seen = SeenAddresses::new();
    let first: Vec<u64> = (0..128).collect();
    assert_eq!(seen.on_adv_reports(&first).len(), 128);
    assert_eq!(seen.on_adv_reports(&vec![500]), vec![500]);
    assert!(!seen.contains(0));
    assert!(seen.contains(1));
    assert!(seen.contains(500));
    assert_eq!(seen.on_adv_reports(&vec![0]), vec![0]);
    assert!(!seen.contains(1));
}

#[test]
fn sigma_order_is_two_n_plus_one() {
    assert_eq!(sigma_order(1), 3);
    assert_eq!(sigma_order(6), 13);
}

#[test]
fn derivative_layout_repeats_the_block_down_the_diagonal() {
    // a 2 by 2 block for two variables: the 4 by 4 result [x x' y y']
    let layout = order_by_derivative_layout(2, 2);
    assert_eq!(layout.len(), 16);
    let s = 4;
    let at = |row: usize, col: usize| layout[col * s + row];
    // the first block is the input itself, column by column
    assert_eq!(at(0, 0), Some(0));
    assert_eq!(at(1, 0), Some(1));
    assert_eq!(at(0, 1), Some(2));
    assert_eq!(at(1, 1), Some(3));
    // the second block repeats it
    assert_eq!(at(2, 2), Some(0));
    assert_eq!(at(3, 2), Some(1));
    assert_eq!(at(2, 3), Some(2));
    assert_eq!(at(3, 3), Some(3));
    // everything else is zero
    assert_eq!(at(0, 2), None);
    assert_eq!(at(3, 0), None);
    assert_eq!(at(1, 3), None);
}

#[test]
fn derivative_layout_of_one_variable_is_the_input() {
    let layout = order_by_derivative_layout(3, 1);
    let expected: Vec<Option<usize>> = (0..9).map(Some).collect();
    assert_eq!(layout, expected);
}

#[test]
fn derivative_layout_of_no_variables_is_empty() {
    assert!(order_by_derivative_layout(3, 0).is_empty());
}

#[test]
fn station_states_map_to_link_states() {
    assert_eq!(ConnectionState::from(WifiStaState::Connected), ConnectionState::Connected);
    assert_eq!(ConnectionState::from(WifiStaState::Started), ConnectionState::Connecting);
    assert_eq!(ConnectionState::from(WifiStaState::Disconnected), ConnectionState::Disconnected);
    assert_eq!(ConnectionState::from(WifiStaState::Stopped), ConnectionState::Disconnected);
    assert_eq!(ConnectionState::from(WifiStaState::Invalid), ConnectionState::Disconnected);
}

#[test]
fn the_shared_link_state_starts_connecting_and_gives_back_what_was_stored() {
    let mut state = SharedState::new();
    assert_eq!(state.connection_state(), ConnectionState::Connecting);
    for s in [ConnectionState::Disconnected, ConnectionState::Connected, ConnectionState::Connecting] {
        state.set_connection_state(s);
        assert_eq!(state.connection_state(), s);
    }
}

#[test]
fn every_even_round_of_the_led_is_lit() {
    let states = [
        ConnectionState::Connecting,
        ConnectionState::Connecting,
        ConnectionState::Disconnected,
        ConnectionState::Connected,
        ConnectionState::Connected,
    ];
    let mut flag = false;
    for (k, s) in states.iter().enumerate() {
        let round = blink_step(*s, flag);
        assert_eq!(round.should_blink, k % 2 == 0);
        flag = round.should_blink;
    }
    let third = blink_step(ConnectionState::Disconnected, false);
    assert_eq!(third.color, Rgb { r: 255, g: 0, b: 0 });
    assert_eq!(blink_step(ConnectionState::Connected, true).color, Rgb { r: 0, g: 0, b: 0 });
}

#[test]
fn the_wifi_loop_waits_only_while_connected() {
    assert_eq!(round_start(WifiStaState::Connected), (ConnectionState::Connected, true));
    assert_eq!(round_start(WifiStaState::Started), (ConnectionState::Connecting, false));
    assert_eq!(round_start(WifiStaState::Disconnected), (ConnectionState::Disconnected, false));
    assert_eq!(round_start(WifiStaState::Stopped), (ConnectionState::Disconnected, false));
    assert_eq!(round_start(WifiStaState::Invalid), (ConnectionState::Disconnected, false));
}

#[test]
fn the_wifi_loop_starts_the_radio_unless_it_is_known_started() {
    assert!(!should_start(Some(true)));
    assert!(should_start(Some(false)));
    assert!(should_start(None));
}

#[test]
fn a_failed_connection_pauses_five_seconds() {
    assert_eq!(pause_after_connect(true), 0);
    assert_eq!(pause_after_connect(false), 5000);
    assert_eq!(RECONNECT_PAUSE_MS, 5000);
}

#[test]
fn a_scan_stamp_becomes_the_time_since_the_previous_scan() {
    let mut scan = Scan { duration: 1500, devices: vec![] };
    let prev = scan.rebase_duration(1200);
    assert_eq!(prev, 1500);
    assert_eq!(scan.duration, 300);
    let mut next = Scan { duration: 2100, devices: vec![] };
    assert_eq!(next.rebase_duration(prev), 2100);
    assert_eq!(next.duration, 600);
}
