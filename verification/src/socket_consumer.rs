use vstd::prelude::*;

use crate::broadcast::{handle_broadcast_request, MessageBroadcast, Syncable};
use crate::gossip::{
    cleared, gossip_after, gossip_after_ack, outgoing, pending_after_ack, pending_after_sent,
    retry_count,
};
use crate::json::{json_response, render_response};
use crate::table::reversed;
use crate::{
    BroadcastPayload, Log, Message, RequestBody, RequestMessage, RequestPayload, ResponseBody,
    ResponseMessage, ResponsePayload,
};

verus! {

broadcast use vstd::string::group_string_axioms;

/// The payload a forwarded request carries.
pub open spec fn forwarded(sync: BroadcastPayload) -> RequestPayload {
    match sync {
        BroadcastPayload::Broadcast(b) => RequestPayload::Broadcast(b),
        BroadcastPayload::Sync(s) => RequestPayload::Sync(s),
    }
}

/// `requests` are the retransmission batches of `table`, sent from `node`
/// and numbered upwards from `first`.
pub open spec fn batch_requests(
    requests: Seq<RequestMessage>,
    node: Seq<char>,
    first: u32,
    table: Seq<(Seq<char>, Seq<u32>)>,
) -> bool {
    &&& requests.len() == table.len()
    &&& forall|i: int|
        0 <= i < requests.len() ==> {
            &&& (#[trigger] requests[i]).src@ == node
            &&& requests[i].dest@ == table[i].0
            &&& requests[i].body.msg_id == first + i
            &&& requests[i].id == first + i
            &&& requests[i].body.payload matches RequestPayload::Sync(batch)
            &&& batch.message@ == table[i].1
        }
}

/// The message numbers an output carries, in the order they go out.
pub open spec fn out_numbers(out: Option<Log>) -> Seq<u32> {
    match out {
        Some(Log::Request(r)) => seq![r.body.msg_id],
        Some(Log::Response(r)) => seq![r.body.msg_id],
        Some(Log::Requests(rs)) => rs@.map_values(|r: RequestMessage| r.body.msg_id),
        _ => Seq::empty(),
    }
}

/// `numbers` count up by one from `first`.
pub open spec fn counts_from(first: int, numbers: Seq<u32>) -> bool {
    forall|i: int| 0 <= i < numbers.len() ==> #[trigger] numbers[i] == first + i
}

/// The message numbers of a sequence of outputs, one after the other.
pub open spec fn all_numbers(outs: Seq<Option<Log>>) -> Seq<u32>
    decreases outs.len(),
{
    if outs.len() == 0 {
        Seq::empty()
    } else {
        all_numbers(outs.drop_last()) + out_numbers(outs.last())
    }
}

/// Over any sequence of events handled with one counter, the messages that
/// go out carry the numbers `c0`, `c0 + 1`, ... in the order they go out,
/// so no two carry the same number, and the counter ends at `c0` plus the
/// number of messages sent. `counters[j]` is the counter before the `j`-th
/// event and `outs[j]` that event's output; the `requires` is what
/// `handle_socket_message` ensures of each call.
pub proof fn law_numbers_consecutive(counters: Seq<u32>, outs: Seq<Option<Log>>)
    requires
        counters.len() == outs.len() + 1,
        forall|j: int|
            0 <= j < outs.len() ==> counts_from(counters[j] as int, #[trigger] out_numbers(outs[j]))
                && counters[j + 1] == counters[j] + out_numbers(outs[j]).len(),
    ensures
        counts_from(counters[0] as int, all_numbers(outs)),
        counters.last() == counters[0] + all_numbers(outs).len(),
        all_numbers(outs).no_duplicates(),
    decreases outs.len(),
{
    if outs.len() > 0 {
        let k = outs.len() - 1;
        let init = outs.drop_last();
        let cs = counters.drop_last();
        assert forall|j: int|
            0 <= j < init.len() implies counts_from(cs[j] as int, #[trigger] out_numbers(init[j]))
                && cs[j + 1] == cs[j] + out_numbers(init[j]).len() by {
            assert(init[j] == outs[j]);
            assert(out_numbers(outs[j]) == out_numbers(init[j]));
        }
        law_numbers_consecutive(cs, init);
        let before = all_numbers(init);
        let last = out_numbers(outs[k]);
        assert(out_numbers(outs[k]) == out_numbers(outs.last()));
        assert(counts_from(counters[k] as int, last));
        assert(counters[k] == counters[0] + before.len());
        assert forall|i: int| 0 <= i < all_numbers(outs).len() implies #[trigger] all_numbers(
            outs,
        )[i] == counters[0] + i by {
            if i >= before.len() {
                assert(all_numbers(outs)[i] == last[i - before.len()]);
            } else {
                assert(all_numbers(outs)[i] == before[i]);
            }
        }
    }
    let all = all_numbers(outs);
    assert forall|a: int, b: int| 0 <= a < b < all.len() implies all[a] != all[b] by {
        assert(all[a] == counters[0] + a);
        assert(all[b] == counters[0] + b);
    }
}

/// The requests of one retransmission all carry different numbers.
pub proof fn law_batch_numbers_distinct(
    requests: Seq<RequestMessage>,
    node: Seq<char>,
    first: u32,
    table: Seq<(Seq<char>, Seq<u32>)>,
)
    requires
        batch_requests(requests, node, first, table),
    ensures
        forall|i: int, j: int|
            0 <= i < j < requests.len() ==> #[trigger] requests[i].body.msg_id
                != #[trigger] requests[j].body.msg_id,
{
}

/// Handles one event of the node's output loop: stamps outgoing requests
/// and replies with the next message number, records what awaits an
/// acknowledgement, takes acknowledgements into account, and on a retry
/// sends every unacknowledged batch again.
///
/// An acknowledgement is logged as `<- ` and its JSON text.
pub fn handle_socket_message(
    message: Message,
    node_id: &str,
    local_msg_id: &mut u32,
    message_broadcast: &mut MessageBroadcast,
) -> (out: Option<Log>)
    requires
        old(message_broadcast).well_formed(),
        (message is Request || message is Response) ==> *old(local_msg_id) < u32::MAX,
        message is Retry ==> *old(local_msg_id) + retry_count(
            old(message_broadcast).pending(),
            old(message_broadcast).gossip(),
        ) <= u32::MAX,
    ensures
        final(message_broadcast).well_formed(),
        out is Some,
        counts_from(*old(local_msg_id) as int, out_numbers(out)),
        *final(local_msg_id) == *old(local_msg_id) + out_numbers(out).len(),
        match message {
            Message::Log(text) => {
                &&& out == Some(Log::Log(text))
                &&& *final(local_msg_id) == *old(local_msg_id)
                &&& final(message_broadcast).pending() == old(message_broadcast).pending()
                &&& final(message_broadcast).gossip() == old(message_broadcast).gossip()
            },
            Message::Request(req) => {
                &&& out matches Some(Log::Request(sent))
                &&& sent.src@ == node_id@
                &&& sent.dest == req.dest
                &&& sent.id == *old(local_msg_id)
                &&& sent.body.msg_id == *old(local_msg_id)
                &&& sent.body.payload == forwarded(req.sync)
                &&& *final(local_msg_id) == *old(local_msg_id) + 1
                &&& final(message_broadcast).gossip() == old(message_broadcast).gossip()
                &&& final(message_broadcast).pending() == (match req.sync {
                    BroadcastPayload::Broadcast(b) => pending_after_sent(
                        old(message_broadcast).pending(),
                        req.dest@,
                        *old(local_msg_id),
                        b.message,
                    ),
                    _ => old(message_broadcast).pending(),
                })
            },
            Message::Response { payload, request } => {
                &&& out matches Some(Log::Response(reply))
                &&& reply.src@ == node_id@
                &&& reply.dest == request.src
                &&& reply.body.msg_id == *old(local_msg_id)
                &&& reply.body.in_reply_to == request.body.msg_id
                &&& reply.body.payload == payload
                &&& *final(local_msg_id) == *old(local_msg_id) + 1
                &&& final(message_broadcast).pending() == old(message_broadcast).pending()
                &&& final(message_broadcast).gossip() == old(message_broadcast).gossip()
            },
            Message::Ack(ack) => {
                &&& out matches Some(Log::Log(line))
                &&& line@ == "<- "@ + json_response(ack)
                &&& *final(local_msg_id) == *old(local_msg_id)
                &&& final(message_broadcast).pending() == pending_after_ack(
                    old(message_broadcast).pending(),
                    ack.src@,
                    ack.body.in_reply_to,
                )
                &&& final(message_broadcast).gossip() == (match ack.body.payload {
                    ResponsePayload::SyncOk { messages } => gossip_after_ack(
                        old(message_broadcast).gossip(),
                        ack.src@,
                        messages@,
                    ),
                    _ => old(message_broadcast).gossip(),
                })
            },
            Message::Retry => {
                let table = outgoing(
                    gossip_after(old(message_broadcast).gossip(), old(message_broadcast).pending()),
                );
                &&& out matches Some(Log::Requests(requests))
                &&& batch_requests(requests@, node_id@, *old(local_msg_id), table)
                &&& *final(local_msg_id) == *old(local_msg_id) + table.len()
                &&& final(message_broadcast).pending() == cleared(old(message_broadcast).pending())
                &&& final(message_broadcast).gossip() == gossip_after(
                    old(message_broadcast).gossip(),
                    old(message_broadcast).pending(),
                )
            },
        },
{
    match message {
        Message::Log(log) => Some(Log::Log(log)),
        Message::Request(request) => {
            let payload = handle_broadcast_request(request.sync);
            let message = RequestMessage {
                src: node_id.to_string(),
                dest: request.dest,
                body: RequestBody { msg_id: *local_msg_id, payload },
                id: *local_msg_id,
            };
            message_broadcast.sent(&message);
            *local_msg_id = *local_msg_id + 1;
            Some(Log::Request(message))
        },
        Message::Response { payload, request } => {
            let message = ResponseMessage {
                src: node_id.to_string(),
                dest: request.src,
                body: ResponseBody {
                    msg_id: *local_msg_id,
                    in_reply_to: request.body.msg_id,
                    payload,
                },
            };
            *local_msg_id = *local_msg_id + 1;
            Some(Log::Response(message))
        },
        Message::Ack(msg) => {
            message_broadcast.ack(&msg.src, msg.body.in_reply_to);
            if let ResponsePayload::SyncOk { messages } = &msg.body.payload {
                let acked = messages.clone();
                assert(acked@ =~= messages@);
                message_broadcast.ack_sync(msg.src.clone(), acked);
            }
            let mut line = String::new();
            line.append("<- ");
            let text = render_response(&msg);
            line.append(text.as_str());
            Some(Log::Log(line))
        },
        Message::Retry => {
            let ghost first = *local_msg_id;
            let batches = message_broadcast.sync();
            let ghost table = outgoing(message_broadcast.gossip());
            let ghost all = batches@;
            let ghost pending = message_broadcast.pending();
            let ghost gossip = message_broadcast.gossip();
            let mut rest = reversed(batches);
            let mut requests: Vec<RequestMessage> = Vec::new();
            let mut k: usize = 0;
            while rest.len() > 0
                invariant
                    crate::broadcast::batches_are(all, table),
                    all.len() == rest@.len() + k,
                    rest@ == all.skip(k as int).reverse(),
                    first + table.len() <= u32::MAX,
                    *local_msg_id == first + k,
                    message_broadcast.well_formed(),
                    message_broadcast.pending() == pending,
                    message_broadcast.gossip() == gossip,
                    batch_requests(requests@, node_id@, first, table.take(k as int)),
                decreases rest@.len(),
            {
                let batch = rest.pop().unwrap();
                assert(all.skip(k as int).reverse().last() == all[k as int]);
                assert(all.skip(k as int + 1).reverse() =~= all.skip(k as int).reverse().drop_last());
                let message = RequestMessage {
                    src: node_id.to_string(),
                    dest: batch.dest,
                    body: RequestBody { msg_id: *local_msg_id, payload: batch.sync },
                    id: *local_msg_id,
                };
                message_broadcast.sent(&message);
                *local_msg_id = *local_msg_id + 1;
                requests.push(message);
                assert(table.take(k as int + 1).drop_last() =~= table.take(k as int));
                k = k + 1;
            }
            assert(table.take(table.len() as int) =~= table);
            Some(Log::Requests(requests))
        },
    }
}

} // verus!
