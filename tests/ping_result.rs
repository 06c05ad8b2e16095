use fping_exporter::address::Address;
use fping_exporter::ping_result::{CountField, FpingParseError, PingResult, Seconds};

fn seconds_as_f64(s: Seconds) -> f64 {
    s.mantissa as f64 * 10f64.powi(s.shift as i32) / 10f64.powi(s.exponent as i32)
}

#[test]
fn test_no_loss() {
    let input = "1.1.1.1 : xmt/rcv/%loss = 2/2/0%, min/avg/max = 0.70/0.90/1.10";
    let result: PingResult = input.parse().unwrap();

    assert_eq!(result.ip_address, Address::V4(1, 1, 1, 1));

    assert_eq!(result.sent, 2);
    assert_eq!(result.received, 2);
    assert_eq!(result.lost, 0);

    assert!(result.minimum.is_some());
    assert!(result.average.is_some());
    assert!(result.maxiumum.is_some());
}

#[test]
fn test_loss() {
    let input = "202.12.11.1 : xmt/rcv/%loss = 2/0/100%";
    let result: PingResult = input.parse().unwrap();

    assert_eq!(result.ip_address, Address::V4(202, 12, 11, 1));

    assert_eq!(result.sent, 2);
    assert_eq!(result.received, 0);
    assert_eq!(result.lost, 100);

    assert!(result.minimum.is_none());
    assert!(result.average.is_none());
    assert!(result.maxiumum.is_none());
}

#[test]
fn latencies_are_seconds_exactly() {
    let input = "1.1.1.1 : xmt/rcv/%loss = 2/2/0%, min/avg/max = 0.70/0.90/1.10";
    let result = PingResult::parse_line(input).unwrap();
    assert_eq!(result.minimum, Some(Seconds { mantissa: 70, exponent: 5, shift: 0 }));
    assert_eq!(result.average, Some(Seconds { mantissa: 90, exponent: 5, shift: 0 }));
    assert_eq!(result.maxiumum, Some(Seconds { mantissa: 110, exponent: 5, shift: 0 }));
    assert!((seconds_as_f64(result.minimum.unwrap()) - 0.00070).abs() < 1e-12);
    assert!((seconds_as_f64(result.average.unwrap()) - 0.00090).abs() < 1e-12);
    assert!((seconds_as_f64(result.maxiumum.unwrap()) - 0.00110).abs() < 1e-12);
}

#[test]
fn latency_without_fraction() {
    let input = "10.0.0.7 : xmt/rcv/%loss = 5/5/0%, min/avg/max = 12/13./14.5";
    let result = PingResult::parse_line(input).unwrap();
    assert_eq!(result.minimum, Some(Seconds { mantissa: 12, exponent: 3, shift: 0 }));
    assert_eq!(result.average, Some(Seconds { mantissa: 13, exponent: 3, shift: 0 }));
    assert_eq!(result.maxiumum, Some(Seconds { mantissa: 145, exponent: 4, shift: 0 }));
}

#[test]
fn padded_address_is_trimmed() {
    let input = "10.1.2.3     : xmt/rcv/%loss = 5/4/20%, min/avg/max = 1.01/2.02/3.03";
    let result = PingResult::parse_line(input).unwrap();
    assert_eq!(result.ip_address, Address::V4(10, 1, 2, 3));
    assert_eq!((result.sent, result.received, result.lost), (5, 4, 20));
}

#[test]
fn zero_probes_sent() {
    let result = PingResult::parse_line("192.168.0.1 : xmt/rcv/%loss = 0/0/0%").unwrap();
    assert_eq!(result.sent, 0);
    assert_eq!(result.received, 0);
    assert_eq!(result.lost, 0);
    assert_eq!(result.minimum, None);
}

#[test]
fn missing_percent_is_malformed() {
    let r = PingResult::parse_line("1.1.1.1 : xmt/rcv/%loss = 2/2/0, min/avg/max = 0.70/0.90/1.10");
    assert_eq!(r, Err(FpingParseError::MalformedLine));
}

#[test]
fn non_numeric_count_is_malformed() {
    let r = PingResult::parse_line("1.1.1.1 : xmt/rcv/%loss = two/2/0%");
    assert_eq!(r, Err(FpingParseError::MalformedLine));
    let r = PingResult::parse_line("1.1.1.1 : xmt/rcv/%loss = 2/x/0%");
    assert_eq!(r, Err(FpingParseError::MalformedLine));
}

#[test]
fn empty_and_unrelated_lines_are_malformed() {
    assert_eq!(PingResult::parse_line(""), Err(FpingParseError::MalformedLine));
    assert_eq!(
        PingResult::parse_line("ICMP Host Unreachable from 10.0.0.1 for ICMP Echo sent to 10.0.0.9"),
        Err(FpingParseError::MalformedLine)
    );
}

#[test]
fn bad_address_is_classified() {
    let r = PingResult::parse_line("1.1.256.1 : xmt/rcv/%loss = 2/2/0%");
    assert_eq!(r, Err(FpingParseError::InvalidAddress { raw: "1.1.256.1".to_string() }));
    let r = PingResult::parse_line("  host.example  : xmt/rcv/%loss = 2/2/0%");
    assert_eq!(r, Err(FpingParseError::InvalidAddress { raw: "host.example".to_string() }));
    let r = PingResult::parse_line("01.1.1.1 : xmt/rcv/%loss = 2/2/0%");
    assert_eq!(r, Err(FpingParseError::InvalidAddress { raw: "01.1.1.1".to_string() }));
}

#[test]
fn oversized_counts_are_classified() {
    let r = PingResult::parse_line("1.1.1.1 : xmt/rcv/%loss = 300/2/0%");
    assert_eq!(
        r,
        Err(FpingParseError::InvalidCount { field: CountField::Sent, raw: "300".to_string() })
    );
    let r = PingResult::parse_line("1.1.1.1 : xmt/rcv/%loss = 3/256/0%");
    assert_eq!(
        r,
        Err(FpingParseError::InvalidCount { field: CountField::Received, raw: "256".to_string() })
    );
    let r = PingResult::parse_line("1.1.1.1 : xmt/rcv/%loss = 3/2/99999999999999999999999%");
    assert_eq!(
        r,
        Err(FpingParseError::InvalidCount {
            field: CountField::Lost,
            raw: "99999999999999999999999".to_string()
        })
    );
}

#[test]
fn long_latencies_keep_their_leading_digits() {
    let r = PingResult::parse_line(
        "1.1.1.1 : xmt/rcv/%loss = 2/2/0%, min/avg/max = 0000000000000000000000001.5/123456789012345678901.5/2.0",
    )
    .unwrap();
    assert_eq!(r.minimum, Some(Seconds { mantissa: 15, shift: 0, exponent: 4 }));
    assert_eq!(r.average, Some(Seconds { mantissa: 1234567890123456789, shift: 3, exponent: 4 }));
    assert_eq!(r.maxiumum, Some(Seconds { mantissa: 20, shift: 0, exponent: 4 }));
}

#[test]
fn unicode_whitespace_is_trimmed() {
    let r = PingResult::parse_line("\u{a0}\u{3000}10.0.0.1\u{2003} : xmt/rcv/%loss = 1/1/0%").unwrap();
    assert_eq!(r.ip_address, Address::V4(10, 0, 0, 1));
    let r = PingResult::parse_line("\u{85}bad\u{2028} : xmt/rcv/%loss = 1/1/0%");
    assert_eq!(r, Err(FpingParseError::InvalidAddress { raw: "bad".to_string() }));
}

#[test]
fn ipv6_with_ipv4_tail_is_read() {
    let r = PingResult::parse_line("::ffff:1.2.3.4 : xmt/rcv/%loss = 2/2/0%, min/avg/max = 0.70/0.90/1.10")
        .unwrap();
    assert_eq!(r.ip_address, Address::V6([0, 0, 0, 0, 0, 0xffff, 0x0102, 0x0304]));
    assert!(r.minimum.is_some() && r.average.is_some() && r.maxiumum.is_some());
    let r = PingResult::parse_line("::ffff:1.2.3.4 : xmt/rcv/%loss = 2/0/100%").unwrap();
    assert_eq!((r.sent, r.received, r.lost), (2, 0, 100));
    assert!(r.minimum.is_none());
    let r = PingResult::parse_line("1:2:3:4:5:6:10.0.0.255 : xmt/rcv/%loss = 1/0/100%").unwrap();
    assert_eq!(r.ip_address, Address::V6([1, 2, 3, 4, 5, 6, 0x0a00, 0x00ff]));
    let r = PingResult::parse_line("::1.2.3.4 : xmt/rcv/%loss = 1/0/100%").unwrap();
    assert_eq!(r.ip_address, Address::V6([0, 0, 0, 0, 0, 0, 0x0102, 0x0304]));
    for raw in ["1.2.3.4::", "1:2:3:4:5:6:7:1.2.3.4", "::1.2.3.4:5", "::ffff:1.2.3.256", "::ffff:01.2.3.4"] {
        let line = format!("{} : xmt/rcv/%loss = 1/0/100%", raw);
        assert_eq!(
            PingResult::parse_line(&line),
            Err(FpingParseError::InvalidAddress { raw: raw.to_string() })
        );
    }
}

#[test]
fn incomplete_latency_part_is_malformed() {
    let r = PingResult::parse_line("1.1.1.1 : xmt/rcv/%loss = 2/2/0%, min/avg/max = 0.70/0.90");
    assert_eq!(r, Err(FpingParseError::MalformedLine));
}

#[test]
fn ipv6_lines_are_read() {
    let r = PingResult::parse_line("2001:db8::1 : xmt/rcv/%loss = 5/5/0%, min/avg/max = 0.05/0.06/0.09")
        .unwrap();
    assert_eq!(r.ip_address, Address::V6([0x2001, 0xdb8, 0, 0, 0, 0, 0, 1]));
    let r = PingResult::parse_line("FE80:0:0:0:0:0:0:Ab : xmt/rcv/%loss = 1/0/100%").unwrap();
    assert_eq!(r.ip_address, Address::V6([0xfe80, 0, 0, 0, 0, 0, 0, 0xab]));
    let r = PingResult::parse_line(":: : xmt/rcv/%loss = 1/0/100%").unwrap();
    assert_eq!(r.ip_address, Address::V6([0; 8]));
    let r = PingResult::parse_line("1:: : xmt/rcv/%loss = 1/0/100%").unwrap();
    assert_eq!(r.ip_address, Address::V6([1, 0, 0, 0, 0, 0, 0, 0]));
}

#[test]
fn bad_ipv6_addresses_are_classified() {
    for raw in ["1::2::3", "12345::1", "1:2:3:4:5:6:7", "1:2:3:4:5:6:7:8:9", ":1::2", "1:2:3:4::5:6:7:8"] {
        let line = format!("{} : xmt/rcv/%loss = 1/0/100%", raw);
        assert_eq!(
            PingResult::parse_line(&line),
            Err(FpingParseError::InvalidAddress { raw: raw.to_string() })
        );
    }
}

#[test]
fn fields_are_found_as_the_pattern_reads_them() {
    let r = PingResult::parse_line(" ::1 : xmt/rcv/%loss = 1/1/0%").unwrap();
    assert_eq!(r.ip_address, Address::V6([0, 0, 0, 0, 0, 0, 0, 1]));
    let r = PingResult::parse_line("1.1.1.1 : a = b = 2/2/0%").unwrap();
    assert_eq!(r.ip_address, Address::V4(1, 1, 1, 1));
    assert_eq!((r.sent, r.received, r.lost), (2, 2, 0));
    let r = PingResult::parse_line("1.1.1.1 : x = 1/1/1% = 2/2/0%, a = b = 1.5/2.5/3.5").unwrap();
    assert_eq!((r.sent, r.received, r.lost), (2, 2, 0));
    assert_eq!(r.minimum, Some(Seconds { mantissa: 15, shift: 0, exponent: 4 }));
    let r = PingResult::parse_line("x : 1.1.1.1 : xmt/rcv/%loss = 1/1/0%");
    assert_eq!(r, Err(FpingParseError::InvalidAddress { raw: "x : 1.1.1.1".to_string() }));
}

#[test]
fn line_breaks_inside_a_line_are_malformed() {
    let r = PingResult::parse_line("1.1.1.1 : xmt/rcv/%loss\n = 2/2/0%");
    assert_eq!(r, Err(FpingParseError::MalformedLine));
}

#[test]
fn from_str_reads_as_parse_line() {
    let line = "10.9.8.7 : xmt/rcv/%loss = 4/3/25%, min/avg/max = 1.0/2.0/3.0";
    let a: PingResult = line.parse().unwrap();
    assert_eq!(Ok(a), PingResult::parse_line(line));
}
