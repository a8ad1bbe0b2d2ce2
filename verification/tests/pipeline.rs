//! End-to-end scenarios over the snapshot-diff-rate pipeline.

use ifrate::rate::{interval_between, subtract_device_rates};
use ifrate::reader::parse_source_table;
use ifrate::render::render_report;
use ifrate::stats::{DeviceStatistics, StatisticsSnapshot};
use ifrate::store::{load_snapshot, save_snapshot};
use ifrate::Error;

fn lines(table: &[&str]) -> Vec<Vec<u8>> {
    table.iter().map(|l| l.as_bytes().to_vec()).collect()
}

const HEADER1: &str = "Inter-|   Receive                                                |  Transmit";
const HEADER2: &str =
    " face |bytes    packets errs drop fifo frame compressed multicast|bytes    packets errs drop fifo colls carrier compressed";

#[test]
fn first_run_renders_non_finite_rates() {
    let table = lines(&[
        HEADER1,
        HEADER2,
        "  eth0: 2048 10 0 0 0 0 0 0 1024 8 0 0 0 0 0 0",
    ]);
    let devices = parse_source_table(&table, false).unwrap();
    assert_eq!(devices.len(), 1);
    let st = devices.get(&b"eth0".to_vec()).unwrap();
    assert_eq!((st.rx, st.tx), (2048, 1024));
    let mut snap = StatisticsSnapshot { timestamp_ms: 777, devices };
    let out = render_report(&snap.devices, &snap, 0, false, false);
    let text = String::from_utf8(out).unwrap();
    let expected = format!(
        "{:>10} {:^30} {:^30}\n{:>10} {:>30} {:>30}\n",
        "Interface",
        "Receive",
        "Transmit",
        "eth0",
        "inf B/s (inf bit/s)",
        "inf B/s (inf bit/s)",
    );
    assert_eq!(text, expected);
    snap.timestamp_ms = 777;
    let stored = save_snapshot(&snap);
    assert_eq!(
        String::from_utf8(stored).unwrap(),
        "{\"timestamp_ms\":777,\"devices\":{\"eth0\":{\"rx\":2048,\"tx\":1024}}}"
    );
}

#[test]
fn second_run_rates_over_ten_seconds() {
    let old_table = lines(&[
        HEADER1,
        HEADER2,
        "  eth0: 2048 10 0 0 0 0 0 0 1024 8 0 0 0 0 0 0",
    ]);
    let new_table = lines(&[
        HEADER1,
        HEADER2,
        "  eth0: 12288 90 0 0 0 0 0 0 9216 70 0 0 0 0 0 0",
    ]);
    let old_devices = parse_source_table(&old_table, false).unwrap();
    let a = StatisticsSnapshot { timestamp_ms: 1_000, devices: old_devices };
    let new_devices = parse_source_table(&new_table, false).unwrap();
    let b = StatisticsSnapshot { timestamp_ms: 11_000, devices: new_devices };
    let diff = subtract_device_rates(&b.devices, &a.devices);
    let st = diff.get(&b"eth0".to_vec()).unwrap();
    assert_eq!((st.rx, st.tx), (10240, 8192));
    let interval = interval_between(b.timestamp_ms, a.timestamp_ms).unwrap();
    assert_eq!(interval, 10_000);
    let out = render_report(&diff, &b, interval, false, false);
    let text = String::from_utf8(out).unwrap();
    let expected = format!(
        "{:>10} {:^30} {:^30}\n{:>10} {:>30} {:>30}\n",
        "Interface",
        "Receive",
        "Transmit",
        "eth0",
        "1024.00 B/s (8.19 Kbit/s)",
        "819.20 B/s (6.55 Kbit/s)",
    );
    assert_eq!(text, expected);
}

#[test]
fn removed_device_produces_no_row() {
    let old_table = lines(&[
        HEADER1,
        HEADER2,
        "  eth0: 100 1 0 0 0 0 0 0 200 1 0 0 0 0 0 0",
        "  eth1: 300 1 0 0 0 0 0 0 400 1 0 0 0 0 0 0",
    ]);
    let new_table = lines(&[
        HEADER1,
        HEADER2,
        "  eth0: 150 2 0 0 0 0 0 0 260 2 0 0 0 0 0 0",
    ]);
    let a = StatisticsSnapshot {
        timestamp_ms: 0,
        devices: parse_source_table(&old_table, false).unwrap(),
    };
    let b = StatisticsSnapshot {
        timestamp_ms: 5_000,
        devices: parse_source_table(&new_table, false).unwrap(),
    };
    let diff = subtract_device_rates(&b.devices, &a.devices);
    assert_eq!(diff.len(), 1);
    assert!(diff.get(&b"eth1".to_vec()).is_none());
    let st = diff.get(&b"eth0".to_vec()).unwrap();
    assert_eq!((st.rx, st.tx), (50, 60));
    // even with the old snapshot as the ordering source, eth1 gets no row
    let out = render_report(&diff, &a, 5_000, false, false);
    let text = String::from_utf8(out).unwrap();
    assert_eq!(text.lines().count(), 2);
    assert!(!text.contains("eth1"));
    assert!(text.contains("eth0"));
}

#[test]
fn new_device_without_baseline_is_dropped() {
    let mut a = StatisticsSnapshot { timestamp_ms: 0, devices: ifrate::stats::DeviceRates::new() };
    a.devices.insert(b"eth0".to_vec(), DeviceStatistics { rx: 1, tx: 1 });
    let mut b = StatisticsSnapshot { timestamp_ms: 1, devices: ifrate::stats::DeviceRates::new() };
    b.devices.insert(b"eth0".to_vec(), DeviceStatistics { rx: 2, tx: 2 });
    b.devices.insert(b"wlan0".to_vec(), DeviceStatistics { rx: 9, tx: 9 });
    let diff = subtract_device_rates(&b.devices, &a.devices);
    assert_eq!(diff.len(), 1);
    assert!(diff.get(&b"wlan0".to_vec()).is_none());
}

#[test]
fn hide_zero_values_blanks_zero_fields() {
    let mut snap = StatisticsSnapshot { timestamp_ms: 0, devices: ifrate::stats::DeviceRates::new() };
    snap.devices.insert(b"eth0".to_vec(), DeviceStatistics { rx: 1024, tx: 0 });
    let out = render_report(&snap.devices, &snap, 1_000, true, false);
    let text = String::from_utf8(out).unwrap();
    let expected = format!(
        "{:>10} {:^30} {:^30}\n{:>10} {:>30} {}\n",
        "Interface",
        "Receive",
        "Transmit",
        "eth0",
        "1024.00 B/s (8.19 Kbit/s)",
        " ".repeat(30),
    );
    assert_eq!(text, expected);
}

#[test]
fn magnitude_ordering_in_report() {
    let mut snap = StatisticsSnapshot { timestamp_ms: 0, devices: ifrate::stats::DeviceRates::new() };
    snap.devices.insert(b"small".to_vec(), DeviceStatistics { rx: 1, tx: 1 });
    snap.devices.insert(b"big".to_vec(), DeviceStatistics { rx: 500, tx: 500 });
    let out = render_report(&snap.devices, &snap, 1_000, false, true);
    let text = String::from_utf8(out).unwrap();
    let rows: Vec<&str> = text.lines().skip(1).collect();
    assert!(rows[0].contains("big"));
    assert!(rows[1].contains("small"));
}

#[test]
fn self_diff_is_all_zero() {
    let table = lines(&[
        HEADER1,
        HEADER2,
        "  eth0: 2048 10 0 0 0 0 0 0 1024 8 0 0 0 0 0 0",
        "  wlan0: 77 1 0 0 0 0 0 0 88 1 0 0 0 0 0 0",
    ]);
    let devices = parse_source_table(&table, false).unwrap();
    let diff = subtract_device_rates(&devices, &devices);
    assert_eq!(diff.len(), 2);
    for name in [b"eth0".to_vec(), b"wlan0".to_vec()] {
        let st = diff.get(&name).unwrap();
        assert_eq!((st.rx, st.tx), (0, 0));
    }
}

#[test]
fn store_round_trip_preserves_snapshot() {
    let mut snap = StatisticsSnapshot { timestamp_ms: 123456789, devices: ifrate::stats::DeviceRates::new() };
    snap.devices.insert(b"eth0".to_vec(), DeviceStatistics { rx: 2048, tx: 1024 });
    snap.devices.insert(b"wlan0".to_vec(), DeviceStatistics { rx: 0, tx: u64::MAX });
    let bytes = save_snapshot(&snap);
    let loaded = load_snapshot(&bytes).unwrap();
    assert_eq!(loaded.timestamp_ms, 123456789);
    assert_eq!(loaded.devices.len(), 2);
    let st = loaded.devices.get(&b"eth0".to_vec()).unwrap();
    assert_eq!((st.rx, st.tx), (2048, 1024));
    let st = loaded.devices.get(&b"wlan0".to_vec()).unwrap();
    assert_eq!((st.rx, st.tx), (0, u64::MAX));
}

#[test]
fn store_round_trip_with_quote_and_backslash_names() {
    let mut snap = StatisticsSnapshot { timestamp_ms: 42, devices: ifrate::stats::DeviceRates::new() };
    snap.devices.insert(b"\"".to_vec(), DeviceStatistics { rx: 1, tx: 2 });
    snap.devices.insert(b"a\\b".to_vec(), DeviceStatistics { rx: 3, tx: 4 });
    snap.devices.insert(b"qu\"ote\\".to_vec(), DeviceStatistics { rx: 5, tx: 6 });
    snap.devices.insert(b"\\\\".to_vec(), DeviceStatistics { rx: 7, tx: 8 });
    let bytes = save_snapshot(&snap);
    let loaded = load_snapshot(&bytes).unwrap();
    assert_eq!(loaded.timestamp_ms, 42);
    assert_eq!(loaded.devices.len(), 4);
    for (name, rx, tx) in [
        (b"\"".to_vec(), 1, 2),
        (b"a\\b".to_vec(), 3, 4),
        (b"qu\"ote\\".to_vec(), 5, 6),
        (b"\\\\".to_vec(), 7, 8),
    ] {
        let st = loaded.devices.get(&name).unwrap();
        assert_eq!((st.rx, st.tx), (rx, tx));
    }
}

#[test]
fn store_escapes_name_bytes() {
    let mut snap = StatisticsSnapshot { timestamp_ms: 1, devices: ifrate::stats::DeviceRates::new() };
    snap.devices.insert(b"a\"b\\c".to_vec(), DeviceStatistics { rx: 0, tx: 0 });
    let bytes = save_snapshot(&snap);
    assert_eq!(
        String::from_utf8(bytes).unwrap(),
        "{\"timestamp_ms\":1,\"devices\":{\"a\\\"b\\\\c\":{\"rx\":0,\"tx\":0}}}"
    );
}

#[test]
fn store_round_trip_empty_devices() {
    let snap = StatisticsSnapshot { timestamp_ms: 0, devices: ifrate::stats::DeviceRates::new() };
    let bytes = save_snapshot(&snap);
    assert_eq!(
        String::from_utf8(bytes.clone()).unwrap(),
        "{\"timestamp_ms\":0,\"devices\":{}}"
    );
    let loaded = load_snapshot(&bytes).unwrap();
    assert_eq!(loaded.timestamp_ms, 0);
    assert_eq!(loaded.devices.len(), 0);
}

#[test]
fn corrupt_store_is_rejected() {
    assert!(matches!(load_snapshot(&b"nonsense".to_vec()), Err(Error::CorruptStore)));
    // a truncated but otherwise valid store is structural corruption too
    let mut snap = StatisticsSnapshot { timestamp_ms: 9, devices: ifrate::stats::DeviceRates::new() };
    snap.devices.insert(b"eth0".to_vec(), DeviceStatistics { rx: 1, tx: 2 });
    let mut bytes = save_snapshot(&snap);
    bytes.pop();
    assert!(matches!(load_snapshot(&bytes), Err(Error::CorruptStore)));
}

#[test]
fn negative_interval_is_fatal() {
    assert_eq!(interval_between(11_000, 1_000), Ok(10_000));
    assert_eq!(interval_between(1_000, 11_000), Err(Error::NegativeInterval));
    assert_eq!(interval_between(5, 5), Ok(0));
}
