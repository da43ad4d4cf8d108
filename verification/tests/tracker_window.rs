use blue_track::tracker::{pose_is_fresh, update_interval, RssiEvent, RssiWindow};

fn ev(rssi: isize, time: u64) -> RssiEvent {
    RssiEvent { rssi, time }
}

#[test]
fn readings_older_than_max_age_are_dropped() {
    let mut w = RssiWindow::new();
    w.push_rssi("a".to_string(), ev(-60, 0), 0, 5);
    w.push_rssi("a".to_string(), ev(-70, 3), 3, 5);
    assert_eq!(w.readings_table()[0].1.len(), 2);
    w.push_rssi("a".to_string(), ev(-80, 5), 5, 5);
    let t = w.readings_table();
    assert_eq!(t.len(), 1);
    let times: Vec<u64> = t[0].1.iter().map(|e| e.time).collect();
    assert_eq!(times, vec![3, 5]);
}

#[test]
fn a_device_without_fresh_readings_is_removed() {
    let mut w = RssiWindow::new();
    w.push_rssi("old".to_string(), ev(-60, 0), 0, 10);
    w.push_rssi("new".to_string(), ev(-50, 20), 20, 10);
    let ids: Vec<String> = w.readings_table().iter().map(|(k, _)| k.clone()).collect();
    assert_eq!(ids, vec!["new".to_string()]);
}

#[test]
fn a_reading_that_is_already_too_old_is_not_kept() {
    let mut w = RssiWindow::new();
    w.push_rssi("a".to_string(), ev(-60, 0), 100, 10);
    assert!(w.readings_table().is_empty());
}

#[test]
fn a_reading_from_the_future_counts_as_fresh() {
    let mut w = RssiWindow::new();
    w.push_rssi("a".to_string(), ev(-60, 50), 10, 1);
    assert_eq!(w.readings_table().len(), 1);
}

#[test]
fn averages_round_toward_zero() {
    let mut w = RssiWindow::new();
    w.push_rssi("a".to_string(), ev(-60, 0), 0, 100);
    w.push_rssi("a".to_string(), ev(-65, 1), 1, 100);
    w.push_rssi("b".to_string(), ev(7, 1), 1, 100);
    w.push_rssi("b".to_string(), ev(8, 1), 1, 100);
    let avg = w.averages();
    assert_eq!(avg, vec![("a".to_string(), -62), ("b".to_string(), 7)]);
}

#[test]
fn averages_of_extreme_readings_do_not_overflow() {
    let mut w = RssiWindow::new();
    w.push_rssi("a".to_string(), ev(isize::MAX, 0), 0, 100);
    w.push_rssi("a".to_string(), ev(isize::MAX, 0), 0, 100);
    w.push_rssi("b".to_string(), ev(isize::MIN, 0), 0, 100);
    w.push_rssi("b".to_string(), ev(isize::MIN, 0), 0, 100);
    assert_eq!(w.averages(), vec![("a".to_string(), isize::MAX), ("b".to_string(), isize::MIN)]);
}

#[test]
fn pose_is_fresh_only_within_max_age() {
    assert!(!pose_is_fresh(None, 10, 5));
    assert!(pose_is_fresh(Some(8), 10, 5));
    assert!(!pose_is_fresh(Some(5), 10, 5));
    assert!(!pose_is_fresh(Some(11), 10, 5));
}

#[test]
fn update_interval_is_the_time_since_the_last_update() {
    assert_eq!(update_interval(None, 10), None);
    assert_eq!(update_interval(Some(5), 10), Some(5));
    assert_eq!(update_interval(Some(15), 10), None);
    assert_eq!(update_interval(Some(10), 10), Some(0));
}
