use ipfrs_tensorlogic::distributed_backward_chainer::{absorb_providers, DistributedBackwardChainer};

fn strings(xs: &[&str]) -> Vec<String> {
    xs.iter().map(|s| s.to_string()).collect()
}

#[test]
fn default_parameters() {
    let c = DistributedBackwardChainer::default();
    assert_eq!(c.max_depth, 10);
    assert_eq!(c.max_remote_peers, 3);
    assert_eq!(c.timeout_ms, 5000);
}

#[test]
fn new_keeps_parameters() {
    let c = DistributedBackwardChainer::new(4, 2, 250);
    assert_eq!(c, DistributedBackwardChainer { max_depth: 4, max_remote_peers: 2, timeout_ms: 250 });
}

#[test]
fn providers_are_taken_in_order_without_repeats() {
    let c = DistributedBackwardChainer::new(10, 5, 100);
    let mut chosen = strings(&["p1"]);
    absorb_providers(&c, &mut chosen, strings(&["p2", "p1", "p3", "p2"]));
    assert_eq!(chosen, strings(&["p1", "p2", "p3"]));
}

#[test]
fn choice_stops_at_the_peer_limit() {
    let c = DistributedBackwardChainer::new(10, 2, 100);
    let mut chosen = Vec::new();
    absorb_providers(&c, &mut chosen, strings(&["a", "b", "c"]));
    assert_eq!(chosen, strings(&["a", "b"]));
    assert!(!c.wants_more_peers(&chosen));
}

#[test]
fn more_peers_wanted_below_the_limit() {
    let c = DistributedBackwardChainer::new(10, 3, 100);
    let mut chosen = Vec::new();
    absorb_providers(&c, &mut chosen, strings(&["a", "a"]));
    assert_eq!(chosen, strings(&["a"]));
    assert!(c.wants_more_peers(&chosen));
}
