use rustdis::broadcast::{BroadcastConsumer, BroadcastState};
use rustdis::ResponsePayload;

fn read(state: &BroadcastState) -> Vec<u32> {
    match state.handle_read() {
        ResponsePayload::ReadOk { messages } => messages,
        other => panic!("unexpected reply {:?}", other),
    }
}

#[test]
fn new_state_reads_nothing() {
    let state = BroadcastState::default();
    assert_eq!(read(&state), Vec::<u32>::new());
}

#[test]
fn consume_reports_whether_new() {
    let mut state = BroadcastState::default();
    assert!(state.consume_broadcast(5));
    assert!(!state.consume_broadcast(5));
    assert!(state.consume_broadcast(7));
    assert_eq!(read(&state), vec![5, 7]);
}

#[test]
fn read_gives_back_what_was_consumed_in_arrival_order() {
    let mut state = BroadcastState::default();
    for m in [3, 1, 2, 1, 3] {
        state.consume_broadcast(m);
    }
    assert_eq!(read(&state), vec![3, 1, 2]);
}

#[test]
fn sync_adds_only_unseen_messages() {
    let mut state = BroadcastState::default();
    state.consume_broadcast(2);
    state.sync(vec![1, 2, 3, 1]);
    assert_eq!(read(&state), vec![2, 1, 3]);
}

#[test]
fn sync_twice_changes_nothing() {
    let mut state = BroadcastState::default();
    state.sync(vec![4, 5]);
    state.sync(vec![4, 5]);
    assert_eq!(read(&state), vec![4, 5]);
}

#[test]
fn sync_of_empty_batch_changes_nothing() {
    let mut state = BroadcastState::default();
    state.consume_broadcast(9);
    state.sync(vec![]);
    assert_eq!(read(&state), vec![9]);
}

#[test]
fn extreme_values_are_kept() {
    let mut state = BroadcastState::default();
    assert!(state.consume_broadcast(0));
    assert!(state.consume_broadcast(u32::MAX));
    assert!(!state.consume_broadcast(0));
    assert_eq!(read(&state), vec![0, u32::MAX]);
}
