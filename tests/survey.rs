use network_mapper::addr::{format_ip, parse_ip, parse_range};
use network_mapper::done::DoneSet;
use network_mapper::graph::Graph;
use network_mapper::probe::{next_pending, settle_target};
use network_mapper::sample::{sample_ranges, sample_targets, MAX_RANGES, MAX_TARGETS};
use network_mapper::store::{decode_done, encode_done};
use std::collections::HashSet;

fn ip(s: &str) -> u32 {
    parse_ip(s).unwrap()
}

/// One sequential pass over the ranges, with `trace` standing in for the tracer.
fn run_pass(graph: &mut Graph, done: &mut DoneSet, ranges: &Vec<(u32, u32)>, trace: &mut dyn FnMut(u32) -> Option<Vec<u32>>) {
    for (start, end) in sample_ranges(ranges) {
        let targets = sample_targets(start, end);
        let mut pos = 0;
        loop {
            pos = next_pending(done, &targets, pos);
            if pos == targets.len() {
                break;
            }
            let target = targets[pos];
            let outcome = trace(target);
            settle_target(graph, done, target, outcome.as_ref());
            pos += 1;
        }
    }
}

fn edge_set(g: &Graph) -> HashSet<(u32, u32, u64)> {
    g.edges().into_iter().collect()
}

#[test]
fn parses_dotted_quads() {
    assert_eq!(parse_ip("192.168.1.0"), Some(0xC0A8_0100));
    assert_eq!(parse_ip("0.0.0.0"), Some(0));
    assert_eq!(parse_ip("255.255.255.255"), Some(u32::MAX));
    assert_eq!(parse_ip("01.2.3.4"), Some(0x0102_0304));
    assert_eq!(parse_ip("+1.2.3.4"), Some(0x0102_0304));
}

#[test]
fn rejects_malformed_addresses() {
    assert_eq!(parse_ip(""), None);
    assert_eq!(parse_ip("1.2.3"), None);
    assert_eq!(parse_ip("1.2.3.4.5"), None);
    assert_eq!(parse_ip("1.2.3.256"), None);
    assert_eq!(parse_ip("1..3.4"), None);
    assert_eq!(parse_ip("1.2.3.x"), None);
    assert_eq!(parse_ip("1.2.3.+"), None);
    assert_eq!(parse_ip(" 1.2.3.4"), None);
}

#[test]
fn parses_ranges() {
    assert_eq!(parse_range("10.0.0.1", "10.0.0.9"), Some((ip("10.0.0.1"), ip("10.0.0.9"))));
    assert_eq!(parse_range("10.0.0.1", "bad"), None);
}

#[test]
fn formats_addresses() {
    assert_eq!(format_ip(ip("10.0.0.254")), b"10.0.0.254".to_vec());
    assert_eq!(format_ip(0), b"0.0.0.0".to_vec());
    assert_eq!(format_ip(u32::MAX), b"255.255.255.255".to_vec());
    assert_eq!(format_ip(ip("8.8.8.8")), b"8.8.8.8".to_vec());
}

#[test]
fn mark_done_is_idempotent() {
    let mut d = DoneSet::new();
    let t = ip("10.0.0.1");
    assert!(!d.is_done(t));
    d.mark_done(t);
    assert!(d.is_done(t));
    let before = d.addresses().clone();
    d.mark_done(t);
    assert!(d.is_done(t));
    assert_eq!(d.addresses(), &before);
    assert_eq!(before, vec![t]);
}

#[test]
fn three_hops_record_three_edges() {
    let (t, h1, h2, h3) = (ip("10.0.0.1"), ip("10.0.0.254"), ip("1.1.1.1"), ip("8.8.8.8"));
    let mut g = Graph::new();
    g.record_trace(t, &vec![h1, h2, h3]);
    assert_eq!(g.edges().len(), 3);
    assert_eq!(g.count(h1, t), 1);
    assert_eq!(g.count(h2, h1), 1);
    assert_eq!(g.count(h3, h2), 1);
    assert_eq!(g.count(t, h1), 0);
    g.record_trace(t, &vec![h1, h2, h3]);
    assert_eq!(g.edges().len(), 3);
    assert_eq!(g.count(h1, t), 2);
    assert_eq!(g.count(h2, h1), 2);
    assert_eq!(g.count(h3, h2), 2);
}

#[test]
fn record_edge_creates_then_increments() {
    let mut g = Graph::new();
    g.record_edge(1, 2);
    assert_eq!(g.count(2, 1), 1);
    assert_eq!(g.count(1, 2), 0);
    g.record_edge(1, 2);
    assert_eq!(g.count(2, 1), 2);
    assert_eq!(g.edges(), vec![(2, 1, 2)]);
}

#[test]
fn counts_stop_at_the_largest_value() {
    let mut g = Graph::from_edges(&vec![(2, 1, u64::MAX)]);
    g.record_edge(1, 2);
    assert_eq!(g.count(2, 1), u64::MAX);
}

#[test]
fn empty_trace_records_nothing() {
    let mut g = Graph::new();
    g.record_trace(7, &vec![]);
    assert!(g.edges().is_empty());
}

#[test]
fn samples_at_most_two_hundred_ranges() {
    let ranges: Vec<(u32, u32)> = (0..500u32).map(|i| (i * 16, i * 16 + 15)).collect();
    let picked = sample_ranges(&ranges);
    assert_eq!(picked.len(), MAX_RANGES);
    let distinct: HashSet<(u32, u32)> = picked.iter().cloned().collect();
    assert_eq!(distinct.len(), MAX_RANGES);
    assert!(picked.iter().all(|r| ranges.contains(r)));
}

#[test]
fn samples_all_of_few_ranges() {
    let ranges = vec![(1, 5), (9, 9), (20, 10)];
    let mut picked = sample_ranges(&ranges);
    picked.sort();
    let mut expected = ranges.clone();
    expected.sort();
    assert_eq!(picked, expected);
    assert!(sample_ranges(&vec![]).is_empty());
}

#[test]
fn samples_ten_distinct_addresses_of_a_large_range() {
    let (start, end) = (ip("10.0.0.0"), ip("10.0.255.255"));
    let targets = sample_targets(start, end);
    assert_eq!(targets.len(), MAX_TARGETS);
    let distinct: HashSet<u32> = targets.iter().cloned().collect();
    assert_eq!(distinct.len(), MAX_TARGETS);
    assert!(targets.iter().all(|&t| start <= t && t <= end));
    assert_eq!(sample_targets(0, u32::MAX).len(), MAX_TARGETS);
}

#[test]
fn small_ranges_yield_every_address() {
    let mut targets = sample_targets(100, 104);
    targets.sort();
    assert_eq!(targets, vec![100, 101, 102, 103, 104]);
    assert_eq!(sample_targets(7, 7), vec![7]);
    assert!(sample_targets(9, 3).is_empty());
}

#[test]
fn next_pending_skips_done_targets() {
    let mut d = DoneSet::new();
    d.mark_done(2);
    d.mark_done(3);
    let targets = vec![1, 2, 3, 4];
    assert_eq!(next_pending(&d, &targets, 0), 0);
    assert_eq!(next_pending(&d, &targets, 1), 3);
    assert_eq!(next_pending(&d, &targets, 4), 4);
    d.mark_done(4);
    assert_eq!(next_pending(&d, &targets, 1), 4);
}

#[test]
fn failed_trace_changes_nothing() {
    let mut g = Graph::new();
    let mut d = DoneSet::new();
    settle_target(&mut g, &mut d, 5, None);
    assert!(g.edges().is_empty());
    assert!(!d.is_done(5));
    settle_target(&mut g, &mut d, 5, Some(&vec![6]));
    assert_eq!(g.count(6, 5), 1);
    assert!(d.is_done(5));
}

#[test]
fn done_file_round_trip() {
    let (a, c) = (ip("10.0.0.1"), ip("192.168.7.20"));
    let mut d = DoneSet::new();
    d.mark_done(a);
    d.mark_done(c);
    let text = encode_done(d.addresses());
    assert_eq!(text, b"10.0.0.1\n192.168.7.20\n".to_vec());
    let back = decode_done(&text);
    let got: HashSet<u32> = back.addresses().iter().cloned().collect();
    assert_eq!(got, [a, c].into_iter().collect());
}

#[test]
fn done_file_skips_bad_lines() {
    let back = decode_done(b"1.2.3.4\n\nnot an address\n5.6.7.8");
    let got: HashSet<u32> = back.addresses().iter().cloned().collect();
    assert_eq!(got, [ip("1.2.3.4"), ip("5.6.7.8")].into_iter().collect());
    assert!(decode_done(b"").addresses().is_empty());
}

#[test]
fn graph_and_done_set_round_trip() {
    let (a, b, c) = (ip("1.0.0.1"), ip("2.0.0.2"), ip("3.0.0.3"));
    let g = Graph::from_edges(&vec![(a, b, 3), (c, a, 1)]);
    let mut d = DoneSet::new();
    d.mark_done(a);
    d.mark_done(c);
    let g2 = Graph::from_edges(&g.edges());
    assert_eq!(edge_set(&g2), [(a, b, 3), (c, a, 1)].into_iter().collect());
    assert_eq!(g2.count(a, b), 3);
    assert_eq!(g2.count(c, a), 1);
    let d2 = decode_done(&encode_done(d.addresses()));
    let got: HashSet<u32> = d2.addresses().iter().cloned().collect();
    assert_eq!(got, [a, c].into_iter().collect());
}

#[test]
fn from_edges_ignores_zero_counts_and_keeps_the_last() {
    let g = Graph::from_edges(&vec![(1, 2, 0), (3, 4, 5), (3, 4, 6)]);
    assert_eq!(g.edges(), vec![(3, 4, 6)]);
}

#[test]
fn graph_only_grows_across_runs() {
    let mut g = Graph::new();
    let mut d = DoneSet::new();
    let ranges = vec![(ip("10.1.0.0"), ip("10.1.0.20")), (ip("10.2.0.0"), ip("10.2.0.3"))];
    let mut tracer = |t: u32| Some(vec![ip("10.0.0.254"), t ^ 0xFF]);
    run_pass(&mut g, &mut d, &ranges, &mut tracer);
    let first = g.edges();
    let g_loaded = Graph::from_edges(&first);
    let mut g = g_loaded;
    let mut d = decode_done(&encode_done(d.addresses()));
    run_pass(&mut g, &mut d, &ranges, &mut tracer);
    for (c, p, n) in first {
        assert!(g.count(c, p) >= n);
    }
}

#[test]
fn single_address_scenario() {
    let target = ip("10.0.0.1");
    let (h1, h2) = (ip("10.0.0.254"), ip("8.8.8.8"));
    let ranges = vec![parse_range("10.0.0.1", "10.0.0.1").unwrap()];
    let mut g = Graph::new();
    let mut d = DoneSet::new();
    let mut calls = 0;
    let mut first = |t: u32| {
        calls += 1;
        assert_eq!(t, target);
        Some(vec![h1, h2])
    };
    run_pass(&mut g, &mut d, &ranges, &mut first);
    assert_eq!(calls, 1);
    let expected: HashSet<(u32, u32, u64)> = [(h1, target, 1), (h2, h1, 1)].into_iter().collect();
    assert_eq!(edge_set(&g), expected);
    assert_eq!(d.addresses(), &vec![target]);

    let mut never = |_t: u32| -> Option<Vec<u32>> { panic!("a done target was traced again") };
    run_pass(&mut g, &mut d, &ranges, &mut never);
    assert_eq!(edge_set(&g), expected);
    assert_eq!(d.addresses(), &vec![target]);
}
