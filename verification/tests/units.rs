//! Unit-level checks: the reader's tokenization, the scaler's ladder
//! walk, number parsing, ordering, and wrapping subtraction.

use ifrate::digits::parse_u64;
use ifrate::reader::parse_source_table;
use ifrate::render::{get_sorted_ifs, make_repeated_string, render_cell};
use ifrate::scale::{binary_prefixes, format_scaled, scale, ScaledValue};
use ifrate::stats::{subtract_statistics, DeviceRates, DeviceStatistics, StatisticsSnapshot};
use ifrate::Error;

fn lines(table: &[&str]) -> Vec<Vec<u8>> {
    table.iter().map(|l| l.as_bytes().to_vec()).collect()
}

const H1: &str = "h";
const H2: &str = "h";

#[test]
fn one_entry_per_line_whatever_the_whitespace() {
    let table = lines(&[
        H1,
        H2,
        "eth0: 1 0 0 0 0 0 0 0 2 0 0 0 0 0 0 0",
        "\twlan0:\t\t3 0 0 0 0 0 0 0   4 0 0 0 0 0 0 0",
        "   lo:::    5   0 0 0 0 0 0 0\t6 0 0 0 0 0 0 0",
    ]);
    let devices = parse_source_table(&table, false).unwrap();
    assert_eq!(devices.len(), 3);
    assert_eq!(devices.get(&b"eth0".to_vec()).map(|s| (s.rx, s.tx)), Some((1, 2)));
    assert_eq!(devices.get(&b"wlan0".to_vec()).map(|s| (s.rx, s.tx)), Some((3, 4)));
    // trailing colons are all trimmed, not just one
    assert_eq!(devices.get(&b"lo".to_vec()).map(|s| (s.rx, s.tx)), Some((5, 6)));
}

#[test]
fn short_table_is_empty() {
    assert_eq!(parse_source_table(&lines(&[H1, H2]), false).unwrap().len(), 0);
    assert_eq!(parse_source_table(&lines(&[H1]), false).unwrap().len(), 0);
    assert_eq!(parse_source_table(&lines(&[]), false).unwrap().len(), 0);
}

#[test]
fn malformed_lines_fail_the_whole_read() {
    // non-numeric rx
    let t = lines(&[H1, H2, "eth0: abc 0 0 0 0 0 0 0 2 0"]);
    assert!(matches!(parse_source_table(&t, false), Err(Error::MalformedLine)));
    // missing tx column (only nine tokens)
    let t = lines(&[H1, H2, "eth0: 1 0 0 0 0 0 0 0"]);
    assert!(matches!(parse_source_table(&t, false), Err(Error::MalformedLine)));
    // an empty line has no name token
    let t = lines(&[H1, H2, "eth0: 1 0 0 0 0 0 0 0 2 0", ""]);
    assert!(matches!(parse_source_table(&t, false), Err(Error::MalformedLine)));
    // rx counter too large for u64
    let t = lines(&[H1, H2, "eth0: 99999999999999999999 0 0 0 0 0 0 0 2 0"]);
    assert!(matches!(parse_source_table(&t, false), Err(Error::MalformedLine)));
}

#[test]
fn hide_zero_excludes_all_zero_devices() {
    let t = lines(&[
        H1,
        H2,
        "eth0: 1 0 0 0 0 0 0 0 0 0",
        "lo: 0 0 0 0 0 0 0 0 0 0",
        "wlan0: 0 0 0 0 0 0 0 0 7 0",
    ]);
    let devices = parse_source_table(&t, true).unwrap();
    assert_eq!(devices.len(), 2);
    assert!(devices.get(&b"lo".to_vec()).is_none());
    let devices = parse_source_table(&t, false).unwrap();
    assert_eq!(devices.len(), 3);
}

#[test]
fn parse_u64_accepts_exactly_fitting_digit_strings() {
    assert_eq!(parse_u64(&b"0".to_vec()), Some(0));
    assert_eq!(parse_u64(&b"18446744073709551615".to_vec()), Some(u64::MAX));
    assert_eq!(parse_u64(&b"18446744073709551616".to_vec()), None);
    assert_eq!(parse_u64(&b"".to_vec()), None);
    assert_eq!(parse_u64(&b"12a".to_vec()), None);
    assert_eq!(parse_u64(&b"007".to_vec()), Some(7));
}

#[test]
fn scale_passes_non_finite_values_through() {
    let ladder = binary_prefixes();
    // the undefined rate (0/0)
    let (v, p) = scale(ScaledValue { num: 0, den: 0 }, &ladder, 1024);
    assert_eq!((v.num, v.den), (0, 0));
    assert!(p.is_empty());
    assert_eq!(format_scaled(v), b"NaN".to_vec());
    // the infinite rate (n/0)
    let (v, p) = scale(ScaledValue { num: 5, den: 0 }, &ladder, 1024);
    assert_eq!((v.num, v.den), (5, 0));
    assert!(p.is_empty());
    assert_eq!(format_scaled(v), b"inf".to_vec());
}

#[test]
fn scale_leaves_zero_unscaled() {
    let ladder = binary_prefixes();
    let (v, p) = scale(ScaledValue { num: 0, den: 1 }, &ladder, 1024);
    assert_eq!((v.num, v.den), (0, 1));
    assert!(p.is_empty());
    assert_eq!(format_scaled(v), b"0.00".to_vec());
}

#[test]
fn scale_exhausts_a_two_step_ladder() {
    let ladder: Vec<Vec<u8>> = vec![b"K".to_vec(), b"M".to_vec()];
    let f: u64 = 1000;
    let (v, p) = scale(ScaledValue { num: (f * f + 1) as u128, den: 1 }, &ladder, f);
    assert_eq!(p, b"M".to_vec());
    assert_eq!(v.num, (f * f + 1) as u128);
    assert_eq!(v.den, (f * f) as u128);
    // the scaled value no longer exceeds the factor
    assert!(v.num <= f as u128 * v.den);
}

#[test]
fn render_cell_scales_bytes_and_bits_separately() {
    // 1 MiB over 1 s: 1048576 B/s = 1024.00 KiB/s; 8388608 bit/s = 8.39 Mbit/s
    let text = String::from_utf8(render_cell(1048576, 1000)).unwrap();
    assert_eq!(text, "1024.00 KiB/s (8.39 Mbit/s)");
    // half-even rounding: 1.005 B/s rounds to 1.00
    let text = String::from_utf8(render_cell(201, 200_000)).unwrap();
    assert_eq!(text, "1.00 B/s (8.04 bit/s)");
}

#[test]
fn wrapping_subtraction_on_counter_reset() {
    let d = subtract_statistics(
        DeviceStatistics { rx: 0, tx: 5 },
        DeviceStatistics { rx: 1, tx: 2 },
    );
    assert_eq!(d.rx, u64::MAX);
    assert_eq!(d.tx, 3);
}

#[test]
fn sorted_ifs_alphabetical_and_by_magnitude() {
    let mut snap = StatisticsSnapshot { timestamp_ms: 0, devices: DeviceRates::new() };
    snap.devices.insert(b"wlan0".to_vec(), DeviceStatistics { rx: 10, tx: 10 });
    snap.devices.insert(b"eth1".to_vec(), DeviceStatistics { rx: 50, tx: 50 });
    snap.devices.insert(b"eth0".to_vec(), DeviceStatistics { rx: 60, tx: 40 });
    snap.devices.insert(b"lo".to_vec(), DeviceStatistics { rx: 1, tx: 0 });
    let alpha = get_sorted_ifs(&snap, false);
    let alpha: Vec<String> = alpha.into_iter().map(|n| String::from_utf8(n).unwrap()).collect();
    assert_eq!(alpha, ["eth0", "eth1", "lo", "wlan0"]);
    let by_stat = get_sorted_ifs(&snap, true);
    let by_stat: Vec<String> = by_stat.into_iter().map(|n| String::from_utf8(n).unwrap()).collect();
    // eth1 and eth0 tie at 100: stored order (eth1 first) is kept
    assert_eq!(by_stat, ["eth1", "eth0", "wlan0", "lo"]);
}

#[test]
fn repeated_string_has_requested_length() {
    assert_eq!(make_repeated_string(b' ', 4), b"    ".to_vec());
    assert_eq!(make_repeated_string(b'x', 0), b"".to_vec());
}
