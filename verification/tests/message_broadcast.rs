use rustdis::broadcast::{MessageBroadcast, Syncable};
use rustdis::{
    Broadcast, RequestBody, RequestMessage, RequestPayload, Sync, SyncGossip,
};

fn broadcast_to(dest: &str, msg_id: u32, message: u32) -> RequestMessage {
    RequestMessage {
        src: "n0".to_string(),
        dest: dest.to_string(),
        body: RequestBody { msg_id, payload: RequestPayload::Broadcast(Broadcast { message }) },
        id: msg_id,
    }
}

fn batches(out: &[SyncGossip]) -> Vec<(String, Vec<u32>)> {
    out.iter()
        .map(|g| match &g.sync {
            RequestPayload::Sync(s) => (g.dest.clone(), s.message.clone()),
            other => panic!("unexpected {:?}", other),
        })
        .collect()
}

#[test]
fn nothing_sent_nothing_to_retry() {
    let mut mb = MessageBroadcast::default();
    assert_eq!(mb.retry_batches(), 0);
    assert!(mb.sync().is_empty());
}

#[test]
fn unacknowledged_broadcasts_are_retried() {
    let mut mb = MessageBroadcast::default();
    mb.sent(&broadcast_to("n1", 1, 10));
    mb.sent(&broadcast_to("n2", 2, 10));
    mb.sent(&broadcast_to("n1", 3, 11));
    mb.sent(&broadcast_to("n1", 4, 10));
    assert_eq!(mb.retry_batches(), 2);
    let out = mb.sync();
    assert_eq!(
        batches(&out),
        vec![("n1".to_string(), vec![10, 11]), ("n2".to_string(), vec![10])]
    );
    // The queues stay until acknowledged.
    assert_eq!(mb.retry_batches(), 2);
    assert_eq!(batches(&mb.sync()), batches(&out));
}

#[test]
fn acknowledged_broadcast_is_not_retried() {
    let mut mb = MessageBroadcast::default();
    mb.sent(&broadcast_to("n1", 1, 10));
    mb.sent(&broadcast_to("n1", 2, 11));
    mb.ack(&"n1".to_string(), 1);
    assert_eq!(batches(&mb.sync()), vec![("n1".to_string(), vec![11])]);
}

#[test]
fn ack_from_unknown_node_changes_nothing() {
    let mut mb = MessageBroadcast::default();
    mb.sent(&broadcast_to("n1", 1, 10));
    mb.ack(&"n9".to_string(), 1);
    mb.ack(&"n1".to_string(), 7);
    assert_eq!(batches(&mb.sync()), vec![("n1".to_string(), vec![10])]);
}

#[test]
fn ack_then_nothing_pending_sends_nothing() {
    let mut mb = MessageBroadcast::default();
    mb.sent(&broadcast_to("n1", 1, 10));
    mb.ack(&"n1".to_string(), 1);
    assert_eq!(mb.retry_batches(), 0);
    assert!(mb.sync().is_empty());
}

#[test]
fn ack_sync_removes_the_batch_from_the_queue() {
    let mut mb = MessageBroadcast::default();
    mb.sent(&broadcast_to("n1", 1, 10));
    mb.sent(&broadcast_to("n1", 2, 11));
    mb.sent(&broadcast_to("n2", 3, 10));
    mb.sync();
    mb.ack_sync("n1".to_string(), vec![10]);
    assert_eq!(
        batches(&mb.sync()),
        vec![("n1".to_string(), vec![11]), ("n2".to_string(), vec![10])]
    );
    mb.ack_sync("n1".to_string(), vec![11, 99]);
    assert_eq!(batches(&mb.sync()), vec![("n2".to_string(), vec![10])]);
}

#[test]
fn sent_sync_request_is_not_tracked() {
    let mut mb = MessageBroadcast::default();
    let req = RequestMessage {
        src: "n0".to_string(),
        dest: "n1".to_string(),
        body: RequestBody { msg_id: 5, payload: RequestPayload::Sync(Sync { message: vec![1] }) },
        id: 5,
    };
    mb.sent(&req);
    assert!(mb.sync().is_empty());
}

#[test]
fn ack_sync_twice_or_in_either_order_gives_the_same_queues() {
    let setup = || {
        let mut mb = MessageBroadcast::default();
        for (k, m) in [(1, 10), (2, 11), (3, 12)] {
            mb.sent(&broadcast_to("n1", k, m));
        }
        mb.sync();
        mb
    };
    let mut once = setup();
    once.ack_sync("n1".to_string(), vec![10]);
    let mut twice = setup();
    twice.ack_sync("n1".to_string(), vec![10]);
    twice.ack_sync("n1".to_string(), vec![10]);
    assert_eq!(batches(&once.sync()), batches(&twice.sync()));

    let mut vw = setup();
    vw.ack_sync("n1".to_string(), vec![10]);
    vw.ack_sync("n1".to_string(), vec![12]);
    let mut wv = setup();
    wv.ack_sync("n1".to_string(), vec![12]);
    wv.ack_sync("n1".to_string(), vec![10]);
    assert_eq!(batches(&vw.sync()), vec![("n1".to_string(), vec![11])]);
    assert_eq!(batches(&vw.sync()), batches(&wv.sync()));
}
