use pcap_analysis::cli::window_to_nanos;
use pcap_analysis::flows::FlowLogs;
use pcap_analysis::flows::PacketSnapshot;
use pcap_analysis::flows::PcapAnalyzer;
use pcap_analysis::output::five_tuple_rows;
use pcap_analysis::output::CsvFlowletPath;
use pcap_analysis::switch::str_lex_lt;
use pcap_analysis::switch::switch_label_of_filename;
use pcap_analysis::switch::MininetSwitch;

const MS: u64 = 1_000_000;

fn obs(ts_ns: u64, sw: &str) -> PacketSnapshot {
    PacketSnapshot {
        timestamp: ts_ns,
        ip_protocol: String::from("Tcp"),
        tcp_src_port: 1000,
        tcp_dst_port: 2000,
        sw_name: MininetSwitch::new(String::from(sw)),
    }
}

fn labels(path: &[MininetSwitch]) -> Vec<String> {
    path.iter().map(|m| m.get().to_string()).collect()
}

#[test]
fn drain_yields_ascending_timestamps() {
    let mut log = FlowLogs::new();
    for ts in [30u64, 10, 50, 20, 40] {
        log.add_packet(obs(ts, "s1"));
    }
    let drained = log.drain_ascending();
    let times: Vec<u64> = drained.iter().map(|p| p.timestamp).collect();
    assert_eq!(times, vec![10, 20, 30, 40, 50]);
    assert_eq!(log.inspect_packets().len(), 0);
}

#[test]
fn empty_log_reports_no_data() {
    let mut log = FlowLogs::new();
    assert!(log.aggregate_flowlets(100 * MS).is_none());
    log.add_packet(obs(0, "s1"));
    let agg = log.aggregate_flowlets(100 * MS).unwrap();
    assert_eq!(agg.len(), 1);
    assert_eq!(agg[0].1, 1);
}

#[test]
fn canonicalization_is_order_independent() {
    let mut a = FlowLogs::new();
    a.add_packet(obs(0, "s2"));
    a.add_packet(obs(1, "s1"));
    let mut b = FlowLogs::new();
    b.add_packet(obs(0, "s1"));
    b.add_packet(obs(1, "s2"));
    let ea = a.aggregate_flowlets(100 * MS).unwrap();
    let eb = b.aggregate_flowlets(100 * MS).unwrap();
    assert_eq!(ea.len(), 1);
    assert_eq!(eb.len(), 1);
    assert_eq!(labels(&ea[0].0), vec!["s1", "s2"]);
    assert_eq!(labels(&ea[0].0), labels(&eb[0].0));
}

#[test]
fn tail_run_is_flushed() {
    let mut log = FlowLogs::new();
    log.add_packet(obs(0, "s1"));
    log.add_packet(obs(5 * MS, "s1"));
    log.add_packet(obs(10 * MS, "s1"));
    let agg = log.aggregate_flowlets(100 * MS).unwrap();
    assert_eq!(agg.len(), 1);
    assert_eq!(agg[0].1, 3);
}

#[test]
fn gap_equal_to_timeout_keeps_one_flowlet() {
    let mut log = FlowLogs::new();
    log.add_packet(obs(0, "s1"));
    log.add_packet(obs(100 * MS, "s2"));
    let agg = log.aggregate_flowlets(100 * MS).unwrap();
    assert_eq!(agg.len(), 1);
    assert_eq!(agg[0].1, 2);
    assert_eq!(labels(&agg[0].0), vec!["s1", "s2"]);
}

#[test]
fn gap_one_past_timeout_splits() {
    let mut log = FlowLogs::new();
    log.add_packet(obs(0, "s1"));
    log.add_packet(obs(100 * MS + 1, "s2"));
    let agg = log.aggregate_flowlets(100 * MS).unwrap();
    assert_eq!(agg.len(), 2);
    for (path, hits) in &agg {
        assert_eq!(*hits, 1);
        assert_eq!(path.len(), 1);
    }
}

#[test]
fn two_captures_close_in_time_give_one_row() {
    let src: u32 = u32::from_be_bytes([10, 0, 0, 1]);
    let dst: u32 = u32::from_be_bytes([10, 0, 0, 2]);
    let mut tracker = PcapAnalyzer::new();
    tracker.record(obs(0, "s1"), src, dst);
    tracker.record(obs(2 * MS, "s1"), src, dst);
    tracker.record(obs(5 * MS, "s2"), src, dst);
    tracker.record(obs(9 * MS, "s2"), src, dst);
    assert_eq!(tracker.flows.len(), 1);
    let timeout = window_to_nanos(50).unwrap();
    let agg = tracker.flows[0].1.aggregate_flowlets(timeout).unwrap();
    assert_eq!(agg.len(), 1);
    let row = CsvFlowletPath::new(src, dst, agg[0].1, &agg[0].0);
    assert_eq!(row.source_ip, src);
    assert_eq!(row.dest_ip, dst);
    assert_eq!(row.hits, 4);
    assert_eq!(row.switches, "s1 s2");
}

#[test]
fn two_captures_far_apart_give_two_rows() {
    let src: u32 = u32::from_be_bytes([10, 0, 0, 1]);
    let dst: u32 = u32::from_be_bytes([10, 0, 0, 2]);
    let mut tracker = PcapAnalyzer::new();
    tracker.record(obs(0, "s1"), src, dst);
    tracker.record(obs(2 * MS, "s1"), src, dst);
    tracker.record(obs(200 * MS, "s2"), src, dst);
    tracker.record(obs(202 * MS, "s2"), src, dst);
    let timeout = window_to_nanos(50).unwrap();
    let agg = tracker.flows[0].1.aggregate_flowlets(timeout).unwrap();
    assert_eq!(agg.len(), 2);
    for (path, hits) in &agg {
        assert_eq!(*hits, 2);
        assert_eq!(path.len(), 1);
    }
    let mut seen: Vec<String> = agg.iter().map(|e| e.0[0].get().to_string()).collect();
    seen.sort();
    assert_eq!(seen, vec!["s1", "s2"]);
}

#[test]
fn identical_five_tuples_accumulate_across_files() {
    let src: u32 = u32::from_be_bytes([10, 0, 0, 1]);
    let dst: u32 = u32::from_be_bytes([10, 0, 0, 2]);
    let mut tracker = PcapAnalyzer::new();
    // two capture files, two identical five-tuples in each
    tracker.record(obs(0, "s1"), src, dst);
    tracker.record(obs(1, "s1"), src, dst);
    tracker.record(obs(2, "s2"), src, dst);
    tracker.record(obs(3, "s2"), src, dst);
    let rows = five_tuple_rows(&tracker);
    assert_eq!(rows.len(), 1);
    assert_eq!(rows[0].source_ip, src);
    assert_eq!(rows[0].dest_ip, dst);
    assert_eq!(rows[0].protocol, "Tcp");
    assert_eq!(rows[0].src_port, 1000);
    assert_eq!(rows[0].dst_port, 2000);
    assert_eq!(rows[0].freq, Some(4));
}

#[test]
fn distinct_five_tuples_get_their_own_rows() {
    let src: u32 = u32::from_be_bytes([10, 0, 0, 1]);
    let dst: u32 = u32::from_be_bytes([10, 0, 0, 2]);
    let mut tracker = PcapAnalyzer::new();
    tracker.record(obs(0, "s1"), src, dst);
    let mut other = obs(1, "s1");
    other.tcp_src_port = 4242;
    tracker.record(other, src, dst);
    let rows = five_tuple_rows(&tracker);
    assert_eq!(rows.len(), 2);
    for row in &rows {
        assert_eq!(row.freq, Some(1));
    }
}

#[test]
fn switch_label_is_the_part_before_the_first_dash() {
    assert_eq!(switch_label_of_filename("s1-eth0").get(), "s1");
    assert_eq!(switch_label_of_filename("s12-eth3-extra").get(), "s12");
    assert_eq!(switch_label_of_filename("nodash").get(), "nodash");
    assert_eq!(switch_label_of_filename("-leading").get(), "");
}

#[test]
fn window_conversion_checks_for_overflow() {
    assert_eq!(window_to_nanos(50), Some(50 * MS));
    assert_eq!(window_to_nanos(0), Some(0));
    assert_eq!(window_to_nanos(u64::MAX), None);
}

#[test]
fn label_order_is_lexicographic() {
    assert!(str_lex_lt("s1", "s2"));
    assert!(!str_lex_lt("s2", "s1"));
    assert!(!str_lex_lt("s1", "s1"));
    assert!(str_lex_lt("s", "s1"));
}
