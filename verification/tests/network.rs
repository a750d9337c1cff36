use rwatch::network::{interval_traffic, DeviceLine, InterfaceTraffic, TrafficBytes, CounterOverflow};
use rwatch::text::chars_of;
use rwatch::network::classify_line;

const SAMPLE: &str = "\
Inter-|   Receive                                                |  Transmit
 face |bytes    packets errs drop fifo frame compressed multicast|bytes    packets errs drop fifo colls carrier compressed
    lo: 7292776   70629    0    0    0     0          0         0 7292776   70629    0    0    0     0       0          0
enp0s6: 1331458466 4812343    0    0    0     0          0         0 1161060552 4576496    0    0    0     0       0          0
";

const HEADER: &str = "h1\nh2\n";

#[test]
fn excludes_loopback_and_sums_interfaces() {
    let traffic = TrafficBytes::parse(SAMPLE).unwrap();
    assert_eq!(traffic.received, 1_331_458_466);
    assert_eq!(traffic.transmitted, 1_161_060_552);
}

#[test]
fn sums_over_several_interfaces() {
    let content = format!("{HEADER}eth0: 10 0 0 0 0 0 0 0 20 0\neth1: 1 0 0 0 0 0 0 0 2 0\n");
    let traffic = TrafficBytes::parse(&content).unwrap();
    assert_eq!(traffic, TrafficBytes { received: 11, transmitted: 22 });
}

#[test]
fn header_only_counts_nothing() {
    assert_eq!(TrafficBytes::parse(HEADER), Some(TrafficBytes { received: 0, transmitted: 0 }));
    assert_eq!(TrafficBytes::parse(""), Some(TrafficBytes { received: 0, transmitted: 0 }));
    assert_eq!(TrafficBytes::parse("one line only"), Some(TrafficBytes { received: 0, transmitted: 0 }));
}

#[test]
fn missing_transmit_field_is_none() {
    let content = format!("{HEADER}eth0: 10 0 0 0 0 0 0 0\n");
    assert_eq!(TrafficBytes::parse(&content), None);
}

#[test]
fn non_numeric_counter_is_none() {
    let content = format!("{HEADER}eth0: x 0 0 0 0 0 0 0 20\n");
    assert_eq!(TrafficBytes::parse(&content), None);
    let content = format!("{HEADER}eth0: -1 0 0 0 0 0 0 0 20\n");
    assert_eq!(TrafficBytes::parse(&content), None);
}

#[test]
fn lines_without_colon_are_passed_over() {
    let content = format!("{HEADER}no interface here\neth0: 5 0 0 0 0 0 0 0 6\n\n");
    assert_eq!(TrafficBytes::parse(&content), Some(TrafficBytes { received: 5, transmitted: 6 }));
}

#[test]
fn loopback_name_is_trimmed_before_comparison() {
    let content = format!("{HEADER}  lo  : 5 0 0 0 0 0 0 0 6\nlo0: 1 0 0 0 0 0 0 0 1\n");
    assert_eq!(TrafficBytes::parse(&content), Some(TrafficBytes { received: 1, transmitted: 1 }));
}

#[test]
fn crlf_line_endings_are_accepted() {
    let content = "h1\r\nh2\r\neth0: 7 0 0 0 0 0 0 0 8\r\n";
    assert_eq!(TrafficBytes::parse(content), Some(TrafficBytes { received: 7, transmitted: 8 }));
}

#[test]
fn plus_sign_is_accepted_in_counters() {
    let content = format!("{HEADER}eth0: +7 0 0 0 0 0 0 0 +8\n");
    assert_eq!(TrafficBytes::parse(&content), Some(TrafficBytes { received: 7, transmitted: 8 }));
}

#[test]
fn overflowing_sum_is_reported() {
    let content = format!(
        "{HEADER}a: 18446744073709551615 0 0 0 0 0 0 0 1\nb: 1 0 0 0 0 0 0 0 1\n"
    );
    assert_eq!(TrafficBytes::parse_checked(&content), Err(CounterOverflow));
    let fits = format!("{HEADER}a: 18446744073709551615 0 0 0 0 0 0 0 1\n");
    assert_eq!(
        TrafficBytes::parse_checked(&fits),
        Ok(Some(TrafficBytes { received: u64::MAX, transmitted: 1 }))
    );
}

#[test]
fn malformed_line_before_overflow_is_none() {
    let content = format!(
        "{HEADER}a: 18446744073709551615 0 0 0 0 0 0 0 1\nbad: 1\nb: 1 0 0 0 0 0 0 0 1\n"
    );
    assert_eq!(TrafficBytes::parse_checked(&content), Ok(None));
}

#[test]
fn classify_line_kinds() {
    let text = chars_of(" lo: 1 2");
    assert_eq!(classify_line(&text, 0, text.len()), DeviceLine::Loopback);
    let text = chars_of("no colon");
    assert_eq!(classify_line(&text, 0, text.len()), DeviceLine::NoInterface);
    let text = chars_of("e: 1 2 3 4 5 6 7 8 9");
    assert_eq!(
        classify_line(&text, 0, text.len()),
        DeviceLine::Counters { received: 1, transmitted: 9 }
    );
    let text = chars_of("e: 1 2 3");
    assert_eq!(classify_line(&text, 0, text.len()), DeviceLine::Malformed);
}

#[test]
fn counter_reset_moves_no_bytes() {
    let previous = TrafficBytes { received: 100, transmitted: 100 };
    let current = TrafficBytes { received: 50, transmitted: 50 };
    assert_eq!(TrafficBytes::transferred_bytes(previous, current), Some(0));
}

#[test]
fn transferred_bytes_adds_both_directions() {
    let previous = TrafficBytes { received: 0, transmitted: 10 };
    let current = TrafficBytes { received: 1_250_000, transmitted: 15 };
    assert_eq!(TrafficBytes::transferred_bytes(previous, current), Some(1_250_005));
    let previous = TrafficBytes { received: 0, transmitted: 0 };
    let current = TrafficBytes { received: u64::MAX, transmitted: 1 };
    assert_eq!(TrafficBytes::transferred_bytes(previous, current), None);
}

#[test]
fn interval_traffic_skips_loopback() {
    let interfaces = vec![
        InterfaceTraffic { name: "lo".to_string(), received: 1000, transmitted: 1000 },
        InterfaceTraffic { name: "eth0".to_string(), received: 10, transmitted: 20 },
        InterfaceTraffic { name: "lo1".to_string(), received: 1, transmitted: 2 },
    ];
    assert_eq!(interval_traffic(&interfaces), Some((33, 2)));
    assert_eq!(interval_traffic(&[]), Some((0, 0)));
    let huge = vec![
        InterfaceTraffic { name: "a".to_string(), received: u64::MAX, transmitted: 0 },
        InterfaceTraffic { name: "b".to_string(), received: 1, transmitted: 0 },
    ];
    assert_eq!(interval_traffic(&huge), None);
}

#[test]
fn tables_add_up_in_either_order() {
    let a = "eth0: 10 0 0 0 0 0 0 0 20 0\nlo: 5 0 0 0 0 0 0 0 5\n";
    let b = "eth1: 1 0 0 0 0 0 0 0 2 0\n";
    let ta = TrafficBytes::parse(&format!("{HEADER}{a}")).unwrap();
    let tb = TrafficBytes::parse(&format!("{HEADER}{b}")).unwrap();
    let sum = TrafficBytes {
        received: ta.received + tb.received,
        transmitted: ta.transmitted + tb.transmitted,
    };
    assert_eq!(TrafficBytes::parse(&format!("{HEADER}{a}{b}")), Some(sum));
    assert_eq!(TrafficBytes::parse(&format!("{HEADER}{b}{a}")), Some(sum));
    let bad = "eth2: x\n";
    assert_eq!(TrafficBytes::parse(&format!("{HEADER}{a}{bad}")), None);
}

#[test]
fn header_lines_do_not_count() {
    let body = "eth0: 3 0 0 0 0 0 0 0 4\n";
    let plain = TrafficBytes::parse(&format!("{HEADER}{body}"));
    let odd = TrafficBytes::parse(&format!("x: 9 9 9 9 9 9 9 9 9\ny: bad\n{body}"));
    assert_eq!(plain, Some(TrafficBytes { received: 3, transmitted: 4 }));
    assert_eq!(odd, plain);
}
