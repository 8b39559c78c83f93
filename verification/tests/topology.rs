use rustdis::broadcast::{handle_broadcast_request, propagate_broadcast};
use rustdis::toplogy::{TopologyState, TopologyTrait};
use rustdis::{Broadcast, BroadcastPayload, RequestPayload, ResponsePayload, Sync, Topology};

fn table(entries: &[(&str, &[&str])]) -> Vec<(String, Vec<String>)> {
    entries
        .iter()
        .map(|(k, v)| (k.to_string(), v.iter().map(|s| s.to_string()).collect()))
        .collect()
}

#[test]
fn nearby_nodes_leave_out_the_node_itself() {
    let state = TopologyState(table(&[("n0", &["n1", "n0", "n2"]), ("n1", &["n0"])]));
    assert_eq!(state.get_nearby_nodes("n0"), vec!["n1".to_string(), "n2".to_string()]);
    assert_eq!(state.get_nearby_nodes("n1"), vec!["n0".to_string()]);
}

#[test]
fn unknown_node_has_no_neighbours() {
    let state = TopologyState(table(&[("n0", &["n1"])]));
    assert!(state.get_nearby_nodes("n9").is_empty());
    assert!(TopologyState::default().get_nearby_nodes("n0").is_empty());
}

#[test]
fn first_entry_of_a_name_counts() {
    let state = TopologyState(table(&[("n0", &["n1"]), ("n0", &["n2"])]));
    assert_eq!(state.get_nearby_nodes("n0"), vec!["n1".to_string()]);
}

#[test]
fn handle_toplogy_replaces_the_table() {
    let mut state = TopologyState(table(&[("n0", &["n1"])]));
    let reply = state.handle_toplogy(Topology { topology: table(&[("n0", &["n3", "n4"])]) });
    assert!(matches!(reply, ResponsePayload::TopologyOk));
    assert_eq!(state.get_nearby_nodes("n0"), vec!["n3".to_string(), "n4".to_string()]);
}

#[test]
fn propagate_skips_sender_and_self() {
    let state = TopologyState(table(&[("n0", &["n1", "n2", "n0", "n3"])]));
    let requests = propagate_broadcast("n0", "n2", &state, &Broadcast { message: 42 });
    let dests: Vec<String> = requests.iter().map(|r| r.dest.clone()).collect();
    assert_eq!(dests, vec!["n1".to_string(), "n3".to_string()]);
    for r in requests {
        match r.sync {
            BroadcastPayload::Broadcast(b) => assert_eq!(b.message, 42),
            BroadcastPayload::Sync(_) => panic!("expected a broadcast"),
        }
    }
}

#[test]
fn propagate_with_no_neighbours_sends_nothing() {
    let state = TopologyState(table(&[("n0", &["n1"])]));
    assert!(propagate_broadcast("n0", "n1", &state, &Broadcast { message: 1 }).is_empty());
}

#[test]
fn broadcast_request_payload_is_kept() {
    match handle_broadcast_request(BroadcastPayload::Broadcast(Broadcast { message: 8 })) {
        RequestPayload::Broadcast(b) => assert_eq!(b.message, 8),
        other => panic!("unexpected {:?}", other),
    }
    match handle_broadcast_request(BroadcastPayload::Sync(Sync { message: vec![1, 2] })) {
        RequestPayload::Sync(s) => assert_eq!(s.message, vec![1, 2]),
        other => panic!("unexpected {:?}", other),
    }
}

#[test]
fn topology_names_checked_for_repeats() {
    assert!(Topology { topology: table(&[("n0", &["n1"]), ("n1", &[])]) }.has_distinct_names());
    assert!(Topology { topology: vec![] }.has_distinct_names());
    assert!(!Topology { topology: table(&[("n0", &["n1"]), ("n1", &[]), ("n0", &[])]) }.has_distinct_names());
}
