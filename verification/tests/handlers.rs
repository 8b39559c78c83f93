use rustdis::broadcast::{BroadcastConsumer, BroadcastState, MessageBroadcast};
use rustdis::init::{accept_init, accept_topology};
use rustdis::message_consumer::handle_request_message;
use rustdis::socket_consumer::handle_socket_message;
use rustdis::toplogy::{TopologyState, TopologyTrait};
use rustdis::{
    Broadcast, BroadcastPayload, BroadcastRequest, Log, Message, RequestBody, RequestMessage,
    RequestPayload, ResponseBody, ResponseMessage, ResponsePayload, Sync, Topology,
};

fn request(src: &str, msg_id: u32, payload: RequestPayload) -> RequestMessage {
    RequestMessage { src: src.to_string(), dest: "n0".to_string(), body: RequestBody { msg_id, payload }, id: 1 }
}

fn ring() -> TopologyState {
    TopologyState(vec![(
        "n0".to_string(),
        vec!["n1".to_string(), "n2".to_string()],
    )])
}

fn forwards(out: &[Message]) -> Vec<(String, u32)> {
    out[..out.len() - 1]
        .iter()
        .map(|m| match m {
            Message::Request(BroadcastRequest { dest, sync: BroadcastPayload::Broadcast(b) }) => {
                (dest.clone(), b.message)
            }
            other => panic!("unexpected {:?}", other),
        })
        .collect()
}

fn reply(out: &[Message]) -> &ResponsePayload {
    match out.last() {
        Some(Message::Response { payload, .. }) => payload,
        other => panic!("unexpected {:?}", other),
    }
}

#[test]
fn echo_is_answered_with_the_same_text() {
    let mut state = BroadcastState::default();
    let out = handle_request_message(&mut state, &ring(), "n0", request("c1", 3, RequestPayload::Echo { echo: "hi".to_string() })).unwrap();
    assert_eq!(out.len(), 1);
    match reply(&out) {
        ResponsePayload::EchoOk { echo } => assert_eq!(echo, "hi"),
        other => panic!("unexpected {:?}", other),
    }
    match &out[0] {
        Message::Response { request, .. } => assert_eq!(request.body.msg_id, 3),
        _ => unreachable!(),
    }
}

#[test]
fn new_broadcast_is_forwarded_to_all_but_sender() {
    let mut state = BroadcastState::default();
    let out = handle_request_message(&mut state, &ring(), "n0", request("n1", 1, RequestPayload::Broadcast(Broadcast { message: 7 }))).unwrap();
    assert_eq!(forwards(&out), vec![("n2".to_string(), 7)]);
    assert!(matches!(reply(&out), ResponsePayload::BroadcastOk));
}

#[test]
fn repeated_broadcast_is_not_forwarded() {
    let mut state = BroadcastState::default();
    handle_request_message(&mut state, &ring(), "n0", request("c1", 1, RequestPayload::Broadcast(Broadcast { message: 7 }))).unwrap();
    let out = handle_request_message(&mut state, &ring(), "n0", request("c1", 2, RequestPayload::Broadcast(Broadcast { message: 7 }))).unwrap();
    assert!(forwards(&out).is_empty());
    assert!(matches!(reply(&out), ResponsePayload::BroadcastOk));
}

#[test]
fn read_returns_received_messages() {
    let mut state = BroadcastState::default();
    handle_request_message(&mut state, &ring(), "n0", request("c1", 1, RequestPayload::Broadcast(Broadcast { message: 4 }))).unwrap();
    let out = handle_request_message(&mut state, &ring(), "n0", request("c1", 2, RequestPayload::Read)).unwrap();
    match reply(&out) {
        ResponsePayload::ReadOk { messages } => assert_eq!(messages, &vec![4]),
        other => panic!("unexpected {:?}", other),
    }
}

#[test]
fn sync_forwards_each_new_message() {
    let mut state = BroadcastState::default();
    state.consume_broadcast(2);
    let out = handle_request_message(&mut state, &ring(), "n0", request("n2", 5, RequestPayload::Sync(Sync { message: vec![1, 2, 3, 1] }))).unwrap();
    assert_eq!(forwards(&out), vec![("n1".to_string(), 1), ("n1".to_string(), 3)]);
    match reply(&out) {
        ResponsePayload::SyncOk { messages } => assert_eq!(messages, &vec![1, 2, 3, 1]),
        other => panic!("unexpected {:?}", other),
    }
}

#[test]
fn generate_answers_with_node_prefix() {
    let mut state = BroadcastState::default();
    let out = handle_request_message(&mut state, &ring(), "n0", request("c1", 1, RequestPayload::Generate)).unwrap();
    match reply(&out) {
        ResponsePayload::GenerateOk { id } => assert!(id.starts_with("n0-")),
        other => panic!("unexpected {:?}", other),
    }
}

#[test]
fn log_event_passes_text_through() {
    let mut mb = MessageBroadcast::default();
    let mut id = 3;
    match handle_socket_message(Message::Log("x".to_string()), "n0", &mut id, &mut mb) {
        Some(Log::Log(text)) => assert_eq!(text, "x"),
        other => panic!("unexpected {:?}", other),
    }
    assert_eq!(id, 3);
}

#[test]
fn outgoing_request_is_numbered_and_tracked() {
    let mut mb = MessageBroadcast::default();
    let mut id = 10;
    let ev = Message::Request(BroadcastRequest { dest: "n1".to_string(), sync: BroadcastPayload::Broadcast(Broadcast { message: 5 }) });
    match handle_socket_message(ev, "n0", &mut id, &mut mb) {
        Some(Log::Request(req)) => {
            assert_eq!(req.src, "n0");
            assert_eq!(req.dest, "n1");
            assert_eq!(req.body.msg_id, 10);
        }
        other => panic!("unexpected {:?}", other),
    }
    assert_eq!(id, 11);
    assert_eq!(mb.retry_batches(), 1);
}

#[test]
fn reply_is_numbered_and_addressed_to_requester() {
    let mut mb = MessageBroadcast::default();
    let mut id = 0;
    let ev = Message::Response { payload: ResponsePayload::BroadcastOk, request: request("c4", 9, RequestPayload::Read) };
    match handle_socket_message(ev, "n0", &mut id, &mut mb) {
        Some(Log::Response(r)) => {
            assert_eq!(r.src, "n0");
            assert_eq!(r.dest, "c4");
            assert_eq!(r.body.msg_id, 0);
            assert_eq!(r.body.in_reply_to, 9);
        }
        other => panic!("unexpected {:?}", other),
    }
    assert_eq!(id, 1);
}

#[test]
fn ack_and_retry_cycle() {
    let mut mb = MessageBroadcast::default();
    let mut id = 0;
    for (dest, m) in [("n1", 5), ("n2", 6)] {
        let ev = Message::Request(BroadcastRequest { dest: dest.to_string(), sync: BroadcastPayload::Broadcast(Broadcast { message: m }) });
        handle_socket_message(ev, "n0", &mut id, &mut mb);
    }
    // n1 acknowledges its broadcast (number 0).
    let ack = ResponseMessage { src: "n1".to_string(), dest: "n0".to_string(), body: ResponseBody { msg_id: 0, in_reply_to: 0, payload: ResponsePayload::BroadcastOk } };
    match handle_socket_message(Message::Ack(ack), "n0", &mut id, &mut mb) {
        Some(Log::Log(line)) => assert_eq!(
            line,
            r#"<- {"src":"n1","dest":"n0","body":{"msg_id":0,"in_reply_to":0,"type":"broadcast_ok"}}"#
        ),
        other => panic!("unexpected {:?}", other),
    }
    match handle_socket_message(Message::Retry, "n0", &mut id, &mut mb) {
        Some(Log::Requests(reqs)) => {
            assert_eq!(reqs.len(), 1);
            assert_eq!(reqs[0].dest, "n2");
            assert_eq!(reqs[0].body.msg_id, 2);
            match &reqs[0].body.payload {
                RequestPayload::Sync(s) => assert_eq!(s.message, vec![6]),
                other => panic!("unexpected {:?}", other),
            }
        }
        other => panic!("unexpected {:?}", other),
    }
    assert_eq!(id, 3);
    // n2 acknowledges the batch: nothing is left to retry.
    let ack = ResponseMessage { src: "n2".to_string(), dest: "n0".to_string(), body: ResponseBody { msg_id: 1, in_reply_to: 2, payload: ResponsePayload::SyncOk { messages: vec![6] } } };
    handle_socket_message(Message::Ack(ack), "n0", &mut id, &mut mb);
    match handle_socket_message(Message::Retry, "n0", &mut id, &mut mb) {
        Some(Log::Requests(reqs)) => assert!(reqs.is_empty()),
        other => panic!("unexpected {:?}", other),
    }
    assert_eq!(id, 3);
}

#[test]
fn init_message_names_the_node() {
    let msg = request("c1", 1, RequestPayload::Init { node_id: "n3".to_string(), node_ids: vec!["n3".to_string()] });
    match accept_init(msg) {
        Some((node, Message::Response { payload: ResponsePayload::InitOk, request })) => {
            assert_eq!(node, "n3");
            assert_eq!(request.body.msg_id, 1);
        }
        other => panic!("unexpected {:?}", other),
    }
    assert!(accept_init(request("c1", 1, RequestPayload::Read)).is_none());
}

#[test]
fn topology_message_is_adopted() {
    let mut state = TopologyState::default();
    let topo = Topology { topology: vec![("n0".to_string(), vec!["n5".to_string()])] };
    match accept_topology(&mut state, request("c1", 2, RequestPayload::Topology(topo))) {
        Some(Message::Response { payload: ResponsePayload::TopologyOk, .. }) => {}
        other => panic!("unexpected {:?}", other),
    }
    assert_eq!(state.get_nearby_nodes("n0"), vec!["n5".to_string()]);
    assert_eq!(state.0.len(), 1);
    assert!(accept_topology(&mut state, request("c1", 3, RequestPayload::Generate)).is_none());
    assert_eq!(state.get_nearby_nodes("n0"), vec!["n5".to_string()]);
}

#[test]
fn default_sync_batch_is_empty() {
    assert!(Sync::default().message.is_empty());
}

#[test]
fn retry_numbers_each_batch_in_turn() {
    let mut mb = MessageBroadcast::default();
    let mut id = 7;
    for (dest, m) in [("n1", 1), ("n2", 2), ("n3", 3)] {
        let ev = Message::Request(BroadcastRequest { dest: dest.to_string(), sync: BroadcastPayload::Broadcast(Broadcast { message: m }) });
        handle_socket_message(ev, "n0", &mut id, &mut mb);
    }
    assert_eq!(id, 10);
    match handle_socket_message(Message::Retry, "n0", &mut id, &mut mb) {
        Some(Log::Requests(reqs)) => {
            let numbers: Vec<u32> = reqs.iter().map(|r| r.body.msg_id).collect();
            assert_eq!(numbers, vec![10, 11, 12]);
            let dests: Vec<&str> = reqs.iter().map(|r| r.dest.as_str()).collect();
            assert_eq!(dests, vec!["n1", "n2", "n3"]);
            assert!(reqs.iter().all(|r| r.src == "n0"));
        }
        other => panic!("unexpected {:?}", other),
    }
    assert_eq!(id, 13);
}

#[test]
fn topology_with_an_empty_list_is_stored_as_is() {
    let mut state = TopologyState::default();
    let topo = Topology { topology: vec![("n0".to_string(), vec![])] };
    assert!(accept_topology(&mut state, request("c1", 1, RequestPayload::Topology(topo))).is_some());
    assert_eq!(state.0, vec![("n0".to_string(), Vec::<String>::new())]);
}

#[test]
fn numbers_run_on_across_events() {
    let mut mb = MessageBroadcast::default();
    let mut id = 5;
    let mut numbers = Vec::new();
    let events = vec![
        Message::Log("x".to_string()),
        Message::Request(BroadcastRequest { dest: "n1".to_string(), sync: BroadcastPayload::Broadcast(Broadcast { message: 1 }) }),
        Message::Response { payload: ResponsePayload::BroadcastOk, request: request("c1", 4, RequestPayload::Read) },
        Message::Request(BroadcastRequest { dest: "n2".to_string(), sync: BroadcastPayload::Broadcast(Broadcast { message: 2 }) }),
        Message::Retry,
        Message::Retry,
    ];
    for ev in events {
        match handle_socket_message(ev, "n0", &mut id, &mut mb) {
            Some(Log::Request(r)) => numbers.push(r.body.msg_id),
            Some(Log::Response(r)) => numbers.push(r.body.msg_id),
            Some(Log::Requests(rs)) => numbers.extend(rs.iter().map(|r| r.body.msg_id)),
            Some(Log::Log(_)) => {}
            None => panic!("every event has an output"),
        }
    }
    assert_eq!(numbers, (5..12).collect::<Vec<u32>>());
    assert_eq!(id, 12);
}
