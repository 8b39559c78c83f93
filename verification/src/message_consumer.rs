use vstd::prelude::*;

use crate::broadcast::{propagate_broadcast, BroadcastConsumer, BroadcastState};
use crate::gossip::{extend_unseen, forward_targets};
use crate::table::reversed;
use crate::toplogy::{TopologyState, TopologyTrait};
use crate::unique_ids::{handle_generate, id_text, GenerateError};
use crate::{
    Broadcast, BroadcastPayload, Message, RequestMessage, RequestPayload, ResponsePayload,
};

verus! {

broadcast use vstd::string::group_string_axioms;

/// Each message of `messages` sent to each destination of `dests`: message
/// by message, and for each message destination by destination.
pub open spec fn fanout(dests: Seq<Seq<char>>, messages: Seq<u32>) -> Seq<(Seq<char>, u32)>
    decreases messages.len(),
{
    if messages.len() == 0 {
        Seq::empty()
    } else {
        fanout(dests, messages.drop_last()) + dests.map_values(
            |d: Seq<char>| (d, messages.last()),
        )
    }
}

/// `out` asks, in order, for each (destination, message) of `forwards` to
/// be sent.
pub open spec fn forwards_are(out: Seq<Message>, forwards: Seq<(Seq<char>, u32)>) -> bool {
    &&& out.len() == forwards.len()
    &&& forall|i: int|
        0 <= i < out.len() ==> {
            &&& #[trigger] out[i] matches Message::Request(r)
            &&& r.dest@ == forwards[i].0
            &&& r.sync == BroadcastPayload::Broadcast(Broadcast { message: forwards[i].1 })
        }
}

/// The reply to `payload` at node `node`, where `received` are the messages
/// the node holds once it handled the request.
pub open spec fn is_reply(
    payload: RequestPayload,
    node: Seq<char>,
    received: Seq<u32>,
    reply: ResponsePayload,
) -> bool {
    match payload {
        RequestPayload::Echo { echo } => reply == ResponsePayload::EchoOk { echo },
        RequestPayload::Generate => reply matches ResponsePayload::GenerateOk { id } && exists|
            n: u32,
        | id@ == id_text(node, n),
        RequestPayload::Broadcast(_) => reply is BroadcastOk,
        RequestPayload::Read => reply matches ResponsePayload::ReadOk { messages } && messages@
            == received,
        RequestPayload::Sync(s) => reply matches ResponsePayload::SyncOk { messages } && messages@
            == s.message@,
        _ => false,
    }
}

/// The messages a request hands this node.
pub open spec fn delivered(payload: RequestPayload) -> Seq<u32> {
    match payload {
        RequestPayload::Broadcast(b) => seq![b.message],
        RequestPayload::Sync(s) => s.message@,
        _ => Seq::empty(),
    }
}

/// A broadcast message that a node holds already is forwarded to nobody;
/// a new one is forwarded once to each target.
pub proof fn law_forwarded_once_when_new(received: Seq<u32>, message: u32, targets: Seq<Seq<char>>)
    ensures
        fanout(targets, extend_unseen(received, seq![message]).skip(received.len() as int)) == (if received.contains(
            message,
        ) {
            Seq::<(Seq<char>, u32)>::empty()
        } else {
            targets.map_values(|d: Seq<char>| (d, message))
        }),
{
    assert(seq![message].drop_last() =~= Seq::<u32>::empty());
    assert(extend_unseen(received, Seq::<u32>::empty()) == received);
    let now = extend_unseen(received, seq![message]).skip(received.len() as int);
    if received.contains(message) {
        assert(now =~= Seq::<u32>::empty());
    } else {
        assert(now =~= seq![message]);
        assert(now.drop_last() =~= Seq::<u32>::empty());
        assert(fanout(targets, Seq::<u32>::empty()) == Seq::<(Seq<char>, u32)>::empty());
        assert(fanout(targets, now) =~= targets.map_values(|d: Seq<char>| (d, message)));
    }
}

/// Appends, in order, a request for each of `targets`.
fn forward_all(out: &mut Vec<Message>, targets: Vec<crate::BroadcastRequest>)
    ensures
        final(out)@.take(old(out)@.len() as int) == old(out)@,
        final(out)@.len() == old(out)@.len() + targets@.len(),
        forall|i: int|
            0 <= i < targets@.len() ==> final(out)@[old(out)@.len() + i] == Message::Request(
                #[trigger] targets@[i],
            ),
{
    let ghost start = out@;
    let ghost all = targets@;
    let total = targets.len();
    let mut rest = reversed(targets);
    let mut k: usize = 0;
    while rest.len() > 0
        invariant
            all.len() == rest@.len() + k,
            all.len() == total,
            rest@ == all.skip(k as int).reverse(),
            out@.len() == start.len() + k,
            out@.take(start.len() as int) == start,
            forall|i: int| 0 <= i < k ==> out@[start.len() + i] == Message::Request(#[trigger] all[i]),
        decreases rest@.len(),
    {
        let r = rest.pop().unwrap();
        assert(all.skip(k as int).reverse().last() == all[k as int]);
        assert(all.skip(k as int + 1).reverse() =~= all.skip(k as int).reverse().drop_last());
        let ghost before = out@;
        out.push(Message::Request(r));
        assert(out@.take(start.len() as int) =~= before.take(start.len() as int));
        k = k + 1;
    }
}

/// Appending the requests for one message extends what `out` asks for.
proof fn lemma_forwarded(
    before: Seq<Message>,
    after: Seq<Message>,
    requests: Seq<crate::BroadcastRequest>,
    forwards: Seq<(Seq<char>, u32)>,
    dests: Seq<Seq<char>>,
    message: u32,
)
    requires
        forwards_are(before, forwards),
        after.take(before.len() as int) == before,
        after.len() == before.len() + requests.len(),
        forall|i: int|
            0 <= i < requests.len() ==> after[before.len() + i] == Message::Request(
                #[trigger] requests[i],
            ),
        crate::broadcast::forwards_to(requests, dests, message),
    ensures
        forwards_are(after, forwards + dests.map_values(|d: Seq<char>| (d, message))),
{
    let all = forwards + dests.map_values(|d: Seq<char>| (d, message));
    assert forall|i: int| 0 <= i < after.len() implies {
        &&& #[trigger] after[i] matches Message::Request(r)
        &&& r.dest@ == all[i].0
        &&& r.sync == BroadcastPayload::Broadcast(Broadcast { message: all[i].1 })
    } by {
        if i < before.len() {
            assert(after[i] == after.take(before.len() as int)[i]);
            assert(before[i] matches Message::Request(_));
        } else {
            let k = i - before.len();
            assert(after[before.len() + k] == Message::Request(requests[k]));
        }
    }
}

/// Handles a request from a client or a neighbour: records what it
/// delivers, forwards each message that is new here to the neighbours other
/// than the sender, and ends with the reply. Only a request for an
/// identifier can fail, when the system's random source does.
pub fn handle_request_message(
    broadcast_state: &mut BroadcastState,
    topology_state: &TopologyState,
    node_id: &str,
    msg: RequestMessage,
) -> (res: Result<Vec<Message>, GenerateError>)
    requires
        old(broadcast_state).well_formed(),
        !(msg.body.payload is Init),
        !(msg.body.payload is Topology),
    ensures
        final(broadcast_state).well_formed(),
        final(broadcast_state).received() == extend_unseen(
            old(broadcast_state).received(),
            delivered(msg.body.payload),
        ),
        !(msg.body.payload is Generate) ==> res is Ok,
        res matches Err(e) ==> e == GenerateError::NoRandomness,
        res matches Ok(out) ==> {
            &&& out@.len() > 0
            &&& forwards_are(
                out@.drop_last(),
                fanout(
                    forward_targets(topology_state.neighbours(node_id@), node_id@, msg.src@),
                    final(broadcast_state).received().skip(
                        old(broadcast_state).received().len() as int,
                    ),
                ),
            )
            &&& out@.last() matches Message::Response { payload, request } && request == msg
                && is_reply(msg.body.payload, node_id@, final(broadcast_state).received(), payload)
        },
{
    let ghost start = broadcast_state.received();
    let ghost targets = forward_targets(
        topology_state.neighbours(node_id@),
        node_id@,
        msg.src@,
    );
    let mut out: Vec<Message> = Vec::new();
    let response_payload: ResponsePayload = match &msg.body.payload {
        RequestPayload::Echo { echo } => {
            assert(start.skip(start.len() as int) =~= Seq::<u32>::empty());
            assert(broadcast_state.received() == extend_unseen(start, delivered(msg.body.payload)));
            ResponsePayload::EchoOk { echo: echo.clone() }
        },
        RequestPayload::Generate => {
            assert(start.skip(start.len() as int) =~= Seq::<u32>::empty());
            assert(broadcast_state.received() == extend_unseen(start, delivered(msg.body.payload)));
            match handle_generate(node_id.to_string()) {
                Ok(reply) => reply,
                Err(e) => {
                    return Err(e);
                },
            }
        },
        RequestPayload::Read => {
            assert(start.skip(start.len() as int) =~= Seq::<u32>::empty());
            assert(broadcast_state.received() == extend_unseen(start, delivered(msg.body.payload)));
            broadcast_state.handle_read()
        },
        RequestPayload::Broadcast(broadcast) => {
            let was_inserted = broadcast_state.consume_broadcast(broadcast.message);
            assert(seq![broadcast.message].drop_last() =~= Seq::<u32>::empty());
            assert(extend_unseen(start, Seq::<u32>::empty()) == start);
            assert(delivered(msg.body.payload) == seq![broadcast.message]);
            if was_inserted {
                let requests = propagate_broadcast(node_id, &msg.src, topology_state, broadcast);
                let ghost before = out@;
                forward_all(&mut out, requests);
                assert(broadcast_state.received().skip(start.len() as int) =~= seq![
                    broadcast.message,
                ]);
                assert(fanout(targets, Seq::<u32>::empty()) == Seq::<(Seq<char>, u32)>::empty());
                assert(fanout(targets, seq![broadcast.message]) =~= Seq::<(Seq<char>, u32)>::empty()
                    + targets.map_values(|d: Seq<char>| (d, broadcast.message)));
                proof {
                    lemma_forwarded(
                        before,
                        out@,
                        requests@,
                        Seq::empty(),
                        targets,
                        broadcast.message,
                    );
                }
            } else {
                assert(broadcast_state.received().skip(start.len() as int) =~= Seq::<u32>::empty());
            }
            assert(broadcast_state.received() == extend_unseen(start, delivered(msg.body.payload)));
            ResponsePayload::BroadcastOk
        },
        RequestPayload::Sync(sync) => {
            let mut i: usize = 0;
            assert(start.skip(start.len() as int) =~= Seq::<u32>::empty());
            while i < sync.message.len()
                invariant
                    i <= sync.message@.len(),
                    broadcast_state.well_formed(),
                    broadcast_state.received() == extend_unseen(start, sync.message@.take(i as int)),
                    start.len() <= broadcast_state.received().len(),
                    start == broadcast_state.received().take(start.len() as int),
                    forwards_are(
                        out@,
                        fanout(targets, broadcast_state.received().skip(start.len() as int)),
                    ),
                    targets == forward_targets(
                        topology_state.neighbours(node_id@),
                        node_id@,
                        msg.src@,
                    ),
                decreases sync.message.len() - i,
            {
                let message = sync.message[i];
                assert(sync.message@.take(i as int + 1).drop_last() =~= sync.message@.take(i as int));
                let ghost before = broadcast_state.received();
                if broadcast_state.consume_broadcast(message) {
                    let requests = propagate_broadcast(
                        node_id,
                        &msg.src,
                        topology_state,
                        &Broadcast { message },
                    );
                    let ghost out_before = out@;
                    forward_all(&mut out, requests);
                    let ghost now = broadcast_state.received().skip(start.len() as int);
                    assert(now.drop_last() =~= before.skip(start.len() as int));
                    assert(now.last() == message);
                    proof {
                        lemma_forwarded(
                            out_before,
                            out@,
                            requests@,
                            fanout(targets, before.skip(start.len() as int)),
                            targets,
                            message,
                        );
                    }
                }
                assert(broadcast_state.received().take(start.len() as int) =~= start);
                i = i + 1;
            }
            assert(sync.message@.take(sync.message.len() as int) =~= sync.message@);
            assert(broadcast_state.received() == extend_unseen(start, delivered(msg.body.payload)));
            ResponsePayload::SyncOk { messages: sync.message.clone() }
        },
        RequestPayload::Init { .. } => {
            proof {
                assert(false);
            }
            ResponsePayload::InitOk
        },
        RequestPayload::Topology(_) => {
            proof {
                assert(false);
            }
            ResponsePayload::TopologyOk
        },
    };
    out.push(Message::Response { payload: response_payload, request: msg });
    Ok(out)
}

} // verus!
