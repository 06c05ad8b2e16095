use fping_exporter::address::Address;
use fping_exporter::metrics::{render_metrics, render_results};
use fping_exporter::ping_result::{PingResult, Seconds};
use fping_exporter::poller::{
    after_sweep, next_sleep_seconds, startup_delay_seconds, PollStep, INTERVAL_SECONDS,
    SWEEP_FAILED_EXIT_CODE,
};
use fping_exporter::store::ResultStore;
use fping_exporter::ping_result::FpingParseError;
use fping_exporter::sweep::{read_report, sweep_arguments, sweep_report, sweep_results, SweepError};

const HEADERS: &str = "# HELP ping_rtt_seconds Ping round trip time in seconds\n\
# TYPE ping_rtt_seconds gauge\n\
\n\
# HELP ping_packets_sent Number of ping packets sent\n\
# TYPE ping_packets_sent gauge\n\
\n\
# HELP ping_packets_received Number of ping packets received\n\
# TYPE ping_packets_received gauge\n\
\n\
# HELP ping_packet_loss_percent Percent of ping packets lost\n\
# TYPE ping_packet_loss_percent gauge\n";

fn reachable() -> PingResult {
    PingResult::parse_line("1.1.1.1 : xmt/rcv/%loss = 2/2/0%, min/avg/max = 0.70/0.90/1.10")
        .unwrap()
}

fn lost() -> PingResult {
    PingResult::parse_line("202.12.11.1 : xmt/rcv/%loss = 2/0/100%").unwrap()
}

#[test]
fn empty_snapshot_renders_headers_only() {
    assert_eq!(render_metrics(&Vec::new()), HEADERS);
}

#[test]
fn two_addresses_render_exactly() {
    let snap = vec![("10.0.0.0/24".to_string(), vec![reachable(), lost()])];
    let text = render_metrics(&snap);
    let expected = "# HELP ping_rtt_seconds Ping round trip time in seconds\n\
# TYPE ping_rtt_seconds gauge\n\
ping_rtt_seconds{address=\"1.1.1.1\",sample=\"minimum\"} 0.00070\n\
ping_rtt_seconds{address=\"1.1.1.1\",sample=\"average\"} 0.00090\n\
ping_rtt_seconds{address=\"1.1.1.1\",sample=\"maximum\"} 0.00110\n\
\n\
# HELP ping_packets_sent Number of ping packets sent\n\
# TYPE ping_packets_sent gauge\n\
ping_packets_sent{address=\"1.1.1.1\"} 2\n\
ping_packets_sent{address=\"202.12.11.1\"} 2\n\
\n\
# HELP ping_packets_received Number of ping packets received\n\
# TYPE ping_packets_received gauge\n\
ping_packets_received{address=\"1.1.1.1\"} 2\n\
ping_packets_received{address=\"202.12.11.1\"} 0\n\
\n\
# HELP ping_packet_loss_percent Percent of ping packets lost\n\
# TYPE ping_packet_loss_percent gauge\n\
ping_packet_loss_percent{address=\"1.1.1.1\"} 0\n\
ping_packet_loss_percent{address=\"202.12.11.1\"} 100\n";
    assert_eq!(text, expected);
    assert_eq!(text.matches("ping_rtt_seconds{").count(), 3);
    assert_eq!(text.matches("202.12.11.1\",sample").count(), 0);
}

#[test]
fn small_and_large_seconds_render() {
    let p = PingResult {
        ip_address: Address::V4(10, 0, 0, 1),
        sent: 5,
        received: 5,
        lost: 0,
        minimum: Some(Seconds { mantissa: 12, exponent: 3, shift: 0 }),
        average: Some(Seconds { mantissa: 12345, exponent: 4, shift: 0 }),
        maxiumum: Some(Seconds { mantissa: 7, exponent: 0, shift: 0 }),
    };
    let text = render_results(&vec![p]);
    assert!(text.contains("sample=\"minimum\"} 0.012\n"));
    assert!(text.contains("sample=\"average\"} 1.2345\n"));
    assert!(text.contains("sample=\"maximum\"} 7\n"));
}

#[test]
fn publish_then_snapshot_sees_results() {
    let mut store = ResultStore::new();
    assert!(store.snapshot().is_empty());
    store.publish("10.0.0.0/24".to_string(), vec![lost()]);
    store.publish("192.168.1.0/30".to_string(), vec![reachable()]);
    store.publish("10.0.0.0/24".to_string(), vec![reachable(), lost()]);
    let snap = store.snapshot();
    assert_eq!(snap.len(), 2);
    let entry = snap.iter().find(|(k, _)| k == "10.0.0.0/24").unwrap();
    assert_eq!(entry.1, vec![reachable(), lost()]);
    let entry = snap.iter().find(|(k, _)| k == "192.168.1.0/30").unwrap();
    assert_eq!(entry.1, vec![reachable()]);
}

#[test]
fn sweep_arguments_are_fixed() {
    let args = sweep_arguments("10.0.0.0/24");
    assert_eq!(args, vec!["-q", "-r", "0", "-c", "5", "-g", "10.0.0.0/24"]);
}

#[test]
fn failed_sweep_is_reported() {
    let r = sweep_results(Some(4), "fping: can't create socket\n");
    assert_eq!(
        r,
        Err(SweepError::CommandFailed { diagnostic_text: "fping: can't create socket\n".to_string() })
    );
}

#[test]
fn sweep_skips_unreadable_lines() {
    let report = "1.1.1.1 : xmt/rcv/%loss = 2/2/0%, min/avg/max = 0.70/0.90/1.10\r\n\
ICMP Host Unreachable from 10.0.0.1\n\
\n\
202.12.11.1 : xmt/rcv/%loss = 2/0/100%";
    let r = sweep_results(Some(1), report).unwrap();
    assert_eq!(r, vec![reachable(), lost()]);
    let r = sweep_results(None, "").unwrap();
    assert!(r.is_empty());
}

#[test]
fn cadence_corrects_for_sweep_time() {
    assert_eq!(next_sleep_seconds(60, 0), 60);
    assert_eq!(next_sleep_seconds(60, 13), 47);
    assert_eq!(next_sleep_seconds(60, 60), 0);
    assert_eq!(next_sleep_seconds(60, 95), 0);
}

#[test]
fn startup_delay_is_below_a_minute() {
    for _ in 0..200 {
        assert!(startup_delay_seconds() < 60);
    }
}

#[test]
fn step_after_sweep() {
    assert_eq!(INTERVAL_SECONDS, 60);
    let step = after_sweep(Ok(vec![lost()]), 20);
    assert_eq!(step, PollStep::Publish { results: vec![lost()], sleep_seconds: 40 });
    let step = after_sweep(
        Err(SweepError::CommandFailed { diagnostic_text: String::new() }),
        1,
    );
    assert_eq!(step, PollStep::Exit { code: SWEEP_FAILED_EXIT_CODE });
}

#[test]
fn ipv6_labels_are_compressed() {
    let results = vec![
        PingResult::parse_line("2001:db8:0:0:1:0:0:1 : xmt/rcv/%loss = 3/3/0%").unwrap(),
        PingResult::parse_line("0:0:0:0:0:0:0:0 : xmt/rcv/%loss = 3/3/0%").unwrap(),
        PingResult::parse_line("1:0:2:0:3:0:4:0 : xmt/rcv/%loss = 3/3/0%").unwrap(),
        PingResult::parse_line("fe80::1:0:0:0:5 : xmt/rcv/%loss = 3/3/0%").unwrap(),
    ];
    let text = render_results(&results);
    assert!(text.contains("ping_packets_sent{address=\"2001:db8::1:0:0:1\"} 3\n"));
    assert!(text.contains("ping_packets_sent{address=\"::\"} 3\n"));
    assert!(text.contains("ping_packets_sent{address=\"1:0:2:0:3:0:4:0\"} 3\n"));
    assert!(text.contains("ping_packets_sent{address=\"fe80:0:0:1::5\"} 3\n"));
}

#[test]
fn mapped_ipv4_labels_are_dotted() {
    let results = vec![
        PingResult::parse_line("::ffff:102:304 : xmt/rcv/%loss = 3/3/0%").unwrap(),
        PingResult::parse_line("::102:304 : xmt/rcv/%loss = 3/3/0%").unwrap(),
    ];
    let text = render_results(&results);
    assert!(text.contains("ping_packets_sent{address=\"::ffff:1.2.3.4\"} 3\n"));
    assert!(text.contains("ping_packets_sent{address=\"::102:304\"} 3\n"));
}

#[test]
fn shifted_seconds_render_all_digits() {
    let p = PingResult {
        ip_address: Address::V4(10, 0, 0, 1),
        sent: 1,
        received: 1,
        lost: 0,
        minimum: Some(Seconds { mantissa: 12, exponent: 3, shift: 5 }),
        average: Some(Seconds { mantissa: 1234567890123456789, exponent: 4, shift: 3 }),
        maxiumum: Some(Seconds { mantissa: 0, exponent: 3, shift: 0 }),
    };
    let text = render_results(&vec![p]);
    assert!(text.contains("sample=\"minimum\"} 1200.000\n"));
    assert!(text.contains("sample=\"average\"} 123456789012345678.9000\n"));
    assert!(text.contains("sample=\"maximum\"} 0.000\n"));
}

#[test]
fn skipped_lines_are_reported_in_order() {
    let report = "1.1.1.1 : xmt/rcv/%loss = 2/2/0%\n\
garbage\n\
999.1.1.1 : xmt/rcv/%loss = 2/2/0%\n\
202.12.11.1 : xmt/rcv/%loss = 2/0/100%\n\
1.1.1.2 : xmt/rcv/%loss = 700/2/0%";
    let (records, errors) = read_report(report);
    assert_eq!(records.len(), 2);
    assert_eq!(
        errors,
        vec![
            FpingParseError::MalformedLine,
            FpingParseError::InvalidAddress { raw: "999.1.1.1".to_string() },
            FpingParseError::InvalidCount {
                field: fping_exporter::ping_result::CountField::Sent,
                raw: "700".to_string()
            },
        ]
    );
    let (records, errors) = sweep_report(Some(1), report).unwrap();
    assert_eq!((records.len(), errors.len()), (2, 3));
    assert!(sweep_report(Some(4), report).is_err());
}
