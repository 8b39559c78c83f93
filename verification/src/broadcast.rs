use std::collections::HashSet;

use vstd::prelude::*;

use crate::gossip::{
    after_consume, cleared, count_flagged, extend_unseen, first_with_id, flag_with, flags,
    forward_targets,
    gossip_after, gossip_after_ack, gossip_with, keys, lemma_extend_unseen, lemma_outgoing_count,
    lemma_retry_step, lemma_without_values_distinct, message_values, outgoing, pending_after_ack,
    pending_after_sent, retry_count, swap_removed, without_values,
};
use crate::table::{find_entry, first_named, names};
use crate::toplogy::{without_name, TopologyState, TopologyTrait};
use crate::{
    Broadcast, BroadcastPayload, BroadcastRequest, RequestMessage, RequestPayload, ResponsePayload,
    Sync, SyncGossip,
};

verus! {

broadcast use vstd::std_specs::hash::group_hash_axioms;

/// Forwarding requests: one per destination in `dests`, in order, each
/// carrying `message`.
pub open spec fn forwards_to(requests: Seq<BroadcastRequest>, dests: Seq<Seq<char>>, message: u32) -> bool {
    &&& requests.len() == dests.len()
    &&& forall|i: int|
        0 <= i < requests.len() ==> {
            &&& (#[trigger] requests[i]).dest@ == dests[i]
            &&& requests[i].sync == BroadcastPayload::Broadcast(Broadcast { message })
        }
}

/// The requests that pass `broadcast` on from `current_node_id` to each of
/// its neighbours, except `exclude_node_id` and itself.
pub fn propagate_broadcast(
    current_node_id: &str,
    exclude_node_id: &str,
    topology_state: &TopologyState,
    broadcast: &Broadcast,
) -> (requests: Vec<BroadcastRequest>)
    ensures
        forwards_to(
            requests@,
            forward_targets(
                topology_state.neighbours(current_node_id@),
                current_node_id@,
                exclude_node_id@,
            ),
            broadcast.message,
        ),
{
    let nearby = topology_state.get_nearby_nodes(current_node_id);
    let exclude = exclude_node_id.to_string();
    let ghost all = crate::toplogy::views(nearby@);
    let mut requests: Vec<BroadcastRequest> = Vec::new();
    let mut i: usize = 0;
    while i < nearby.len()
        invariant
            i <= nearby@.len(),
            all == crate::toplogy::views(nearby@),
            exclude@ == exclude_node_id@,
            forwards_to(requests@, without_name(all.take(i as int), exclude@), broadcast.message),
        decreases nearby.len() - i,
    {
        proof {
            assert(all.take(i as int + 1).drop_last() =~= all.take(i as int));
        }
        if nearby[i] != exclude {
            let dest = nearby[i].clone();
            requests.push(
                BroadcastRequest {
                    dest,
                    sync: BroadcastPayload::Broadcast(Broadcast { message: broadcast.message }),
                },
            );
        }
        i = i + 1;
    }
    assert(all.take(nearby.len() as int) =~= all);
    requests
}

/// What a request to forward becomes once it is sent.
pub fn handle_broadcast_request(broadcast_payload: BroadcastPayload) -> (payload: RequestPayload)
    ensures
        payload == (match broadcast_payload {
            BroadcastPayload::Broadcast(b) => RequestPayload::Broadcast(b),
            BroadcastPayload::Sync(s) => RequestPayload::Sync(s),
        }),
{
    match broadcast_payload {
        BroadcastPayload::Broadcast(broadcast) => RequestPayload::Broadcast(broadcast),
        BroadcastPayload::Sync(sync) => RequestPayload::Sync(sync),
    }
}

/// Produces the requests that spread a broadcast to some neighbours.
pub trait BroadcastProducer {
    fn notify_nodes(&mut self, broadcast: &Broadcast, neighbors: &Vec<String>) -> Vec<
        BroadcastRequest,
    >;
}

/// Keeps the messages that reach this node.
pub trait BroadcastConsumer {
    /// The messages received so far, in the order of their first arrival.
    spec fn received(&self) -> Seq<u32>;

    /// The state's own invariant.
    spec fn well_formed(&self) -> bool;

    /// Records `message`; tells whether it was new.
    fn consume_broadcast(&mut self, message: u32) -> (inserted: bool)
        requires
            old(self).well_formed(),
        ensures
            final(self).well_formed(),
            inserted == !old(self).received().contains(message),
            final(self).received() == after_consume(old(self).received(), message),
    ;

    /// The reply to a read: every message received so far.
    fn handle_read(&self) -> (res: ResponsePayload)
        requires
            self.well_formed(),
        ensures
            res matches ResponsePayload::ReadOk { messages } && messages@ == self.received(),
    ;

    /// Records each of `msgs` in turn.
    fn sync(&mut self, msgs: Vec<u32>)
        requires
            old(self).well_formed(),
        ensures
            final(self).well_formed(),
            final(self).received() == extend_unseen(old(self).received(), msgs@),
    ;
}

/// The messages a node has received, in order and as a set.
pub struct BroadcastState {
    msgs: Vec<u32>,
    msg_ids: HashSet<u32>,
}

impl BroadcastConsumer for BroadcastState {
    closed spec fn received(&self) -> Seq<u32> {
        self.msgs@
    }

    closed spec fn well_formed(&self) -> bool {
        &&& self.msgs@.no_duplicates()
        &&& self.msg_ids@ == self.msgs@.to_set()
    }

    fn consume_broadcast(&mut self, message: u32) -> (inserted: bool) {
        if self.msg_ids.insert(message) {
            proof {
                self.msgs@.lemma_push_to_set_commute(message);
                assert(!self.msgs@.contains(message));
            }
            let ghost before = self.msgs@;
            self.msgs.push(message);
            proof {
                assert forall|a: int, b: int|
                    0 <= a < b < self.msgs@.len() implies self.msgs@[a] != self.msgs@[b] by {
                    if b == before.len() {
                        assert(before.contains(before[a]));
                    }
                }
            }
            assert(self.msg_ids@ =~= self.msgs@.to_set());
            true
        } else {
            assert(self.msg_ids@ =~= self.msgs@.to_set());
            false
        }
    }

    fn handle_read(&self) -> (res: ResponsePayload) {
        ResponsePayload::ReadOk { messages: self.msgs.clone() }
    }

    fn sync(&mut self, msgs: Vec<u32>) {
        let mut i: usize = 0;
        while i < msgs.len()
            invariant
                i <= msgs.len(),
                self.well_formed(),
                self.received() == extend_unseen(old(self).received(), msgs@.take(i as int)),
            decreases msgs.len() - i,
        {
            proof {
                assert(msgs@.take(i as int + 1).drop_last() == msgs@.take(i as int));
            }
            self.consume_broadcast(msgs[i]);
            i = i + 1;
        }
        proof {
            assert(msgs@.take(msgs.len() as int) == msgs@);
        }
    }
}

impl Default for BroadcastState {
    fn default() -> (s: Self)
        ensures
            s.well_formed(),
            s.received() == Seq::<u32>::empty(),
    {
        let s = BroadcastState { msgs: Vec::new(), msg_ids: HashSet::new() };
        assert(s.msgs@.to_set() =~= Set::<u32>::empty());
        s
    }
}

/// `batches` holds, in order, one batch per entry of `table`, for the
/// entry's destination and with the entry's messages.
pub open spec fn batches_are(batches: Seq<SyncGossip>, table: Seq<(Seq<char>, Seq<u32>)>) -> bool {
    &&& batches.len() == table.len()
    &&& forall|i: int|
        0 <= i < batches.len() ==> {
            &&& (#[trigger] batches[i]).dest@ == table[i].0
            &&& batches[i].sync matches RequestPayload::Sync(batch)
            &&& batch.message@ == table[i].1
        }
}

/// Keeps track of what each neighbour has not acknowledged yet.
pub trait Syncable {
    /// The state's own invariant.
    spec fn well_formed(&self) -> bool;

    /// Per destination, the (request number, message) pairs sent to it and
    /// not acknowledged yet.
    spec fn pending(&self) -> Seq<(Seq<char>, Seq<(u32, u32)>)>;

    /// Per destination, the messages to hand it again in a batch.
    spec fn gossip(&self) -> Seq<(Seq<char>, Seq<u32>)>;

    /// Moves every pending message into the gossip of its destination and
    /// returns one batch per destination whose gossip is not empty.
    fn sync(&mut self) -> (res: Vec<SyncGossip>)
        requires
            old(self).well_formed(),
        ensures
            final(self).well_formed(),
            final(self).pending() == cleared(old(self).pending()),
            final(self).gossip() == gossip_after(old(self).gossip(), old(self).pending()),
            batches_are(res@, outgoing(final(self).gossip())),
    ;

    /// Records that `from` answered the request numbered `msg_id`.
    fn ack(&mut self, from: &String, msg_id: u32)
        requires
            old(self).well_formed(),
        ensures
            final(self).well_formed(),
            final(self).pending() == pending_after_ack(old(self).pending(), from@, msg_id),
            final(self).gossip() == old(self).gossip(),
    ;

    /// Records that `request_message` went out: a broadcast stays pending
    /// until its destination answers it.
    fn sent(&mut self, request_message: &RequestMessage)
        requires
            old(self).well_formed(),
        ensures
            final(self).well_formed(),
            final(self).gossip() == old(self).gossip(),
            final(self).pending() == (match request_message.body.payload {
                RequestPayload::Broadcast(b) => pending_after_sent(
                    old(self).pending(),
                    request_message.dest@,
                    request_message.body.msg_id,
                    b.message,
                ),
                _ => old(self).pending(),
            }),
    ;

    /// Records that `from` received the batch `messages`.
    fn ack_sync(&mut self, from: String, messages: Vec<u32>)
        requires
            old(self).well_formed(),
        ensures
            final(self).well_formed(),
            final(self).pending() == old(self).pending(),
            final(self).gossip() == gossip_after_ack(old(self).gossip(), from@, messages@),
    ;
}

/// A message sent to a neighbour and not acknowledged yet.
#[derive(Debug, Clone, Copy, PartialEq, Eq, Hash)]
struct Msg {
    id: u32,
    msg: u32,
}

/// What this node has sent and its neighbours have not acknowledged.
#[derive(Debug)]
pub struct MessageBroadcast {
    pending_acknowledgment: Vec<(String, Vec<Msg>)>,
    gossip: Vec<(String, Sync)>,
}

/// Whether `list` holds `x`.
fn holds(list: &Vec<u32>, x: u32) -> (res: bool)
    ensures
        res == list@.contains(x),
{
    let mut i: usize = 0;
    while i < list.len()
        invariant
            i <= list@.len(),
            forall|j: int| 0 <= j < i ==> list@[j] != x,
        decreases list.len() - i,
    {
        if list[i] == x {
            return true;
        }
        i = i + 1;
    }
    false
}

/// The pending pairs of a list of messages.
spec fn msg_pairs(list: Seq<Msg>) -> Seq<(u32, u32)> {
    list.map_values(|m: Msg| (m.id, m.msg))
}

/// The model of a pending table.
spec fn pending_model(entries: Seq<(String, Vec<Msg>)>) -> Seq<(Seq<char>, Seq<(u32, u32)>)> {
    entries.map_values(|e: (String, Vec<Msg>)| (e.0@, msg_pairs(e.1@)))
}

/// The first position of the message numbered `msg_id`.
fn position_of_id(list: &Vec<Msg>, msg_id: u32) -> (found: Option<usize>)
    ensures
        found is None <==> first_with_id(msg_pairs(list@), msg_id) is None,
        found matches Some(p) ==> p < list@.len() && first_with_id(msg_pairs(list@), msg_id) == Some(
            p as int,
        ),
{
    let ghost pairs = msg_pairs(list@);
    let mut p: usize = 0;
    while p < list.len()
        invariant
            p <= list@.len(),
            pairs == msg_pairs(list@),
            forall|q: int| 0 <= q < p ==> pairs[q].0 != msg_id,
        decreases list.len() - p,
    {
        if list[p].id == msg_id {
            proof {
                let c = choose|c: int| 0 <= c < pairs.len() && pairs[c].0 == msg_id
                    && forall|q: int| 0 <= q < c ==> pairs[q].0 != msg_id;
                assert(pairs[p as int].0 == msg_id);
                if c < p {
                    assert(pairs[c].0 != msg_id);
                }
                if (p as int) < c {
                    assert(pairs[p as int].0 != msg_id);
                }
            }
            return Some(p);
        }
        p = p + 1;
    }
    None
}

/// The tables of a well-formed state name each destination once, and no
/// queue holds a message twice.
pub proof fn law_tables_distinct(state: &MessageBroadcast)
    requires
        state.well_formed(),
    ensures
        keys(state.pending()).no_duplicates(),
        keys(state.gossip()).no_duplicates(),
        forall|i: int| 0 <= i < state.gossip().len() ==> (#[trigger] state.gossip()[i]).1.no_duplicates(),
{
}

/// A node never holds a message twice.
pub proof fn law_received_distinct(state: &BroadcastState)
    requires
        state.well_formed(),
    ensures
        state.received().no_duplicates(),
{
}

impl Syncable for MessageBroadcast {
    closed spec fn well_formed(&self) -> bool {
        &&& keys(self.pending()).no_duplicates()
        &&& keys(self.gossip()).no_duplicates()
        &&& forall|i: int|
            0 <= i < self.gossip().len() ==> (#[trigger] self.gossip()[i]).1.no_duplicates()
    }

    closed spec fn pending(&self) -> Seq<(Seq<char>, Seq<(u32, u32)>)> {
        pending_model(self.pending_acknowledgment@)
    }

    closed spec fn gossip(&self) -> Seq<(Seq<char>, Seq<u32>)> {
        self.gossip@.map_values(|e: (String, Sync)| (e.0@, e.1.message@))
    }

    fn sync(&mut self) -> (res: Vec<SyncGossip>) {
        let ghost p0 = self.pending();
        let ghost g0 = self.gossip();
        let mut i: usize = 0;
        while i < self.pending_acknowledgment.len()
            invariant
                self.pending() == p0,
                keys(p0).no_duplicates(),
                i <= p0.len(),
                p0.len() == self.pending_acknowledgment@.len(),
                self.gossip() == gossip_after(g0, p0.take(i as int)),
                keys(self.gossip()).no_duplicates(),
                forall|e: int|
                    0 <= e < self.gossip().len() ==> (#[trigger] self.gossip()[e]).1.no_duplicates(),
            decreases p0.len() - i,
        {
            let ghost g_before = self.gossip();
            let ghost vals = message_values(p0[i as int].1);
            let dest = self.pending_acknowledgment[i].0.clone();
            assert(names(self.gossip@) =~= keys(self.gossip()));
            let gi: usize = match find_entry(&self.gossip, &dest) {
                Some(j) => j,
                None => {
                    self.gossip.push((dest.clone(), Sync { message: Vec::new() }));
                    assert(keys(self.gossip()) =~= keys(g_before).push(dest@));
                    assert forall|a: int, c: int|
                        0 <= a < c < keys(self.gossip()).len() implies keys(self.gossip())[a]
                        != keys(self.gossip())[c] by {
                        if c == keys(g_before).len() {
                            assert(keys(g_before).contains(keys(g_before)[a]));
                        }
                    }
                    assert(self.gossip()[g_before.len() as int].1 =~= Seq::<u32>::empty());
                    self.gossip.len() - 1
                },
            };
            let ghost g_mid = self.gossip();
            let ghost base = g_mid[gi as int].1;
            assert(g_mid =~= g_mid.update(gi as int, (dest@, extend_unseen(base, vals.take(0)))));
            let n = self.pending_acknowledgment[i].1.len();
            let mut k: usize = 0;
            while k < n
                invariant
                    self.pending() == p0,
                    i < p0.len(),
                    p0.len() == self.pending_acknowledgment@.len(),
                    n == self.pending_acknowledgment@[i as int].1@.len(),
                    vals == message_values(p0[i as int].1),
                    k <= n,
                    gi < g_mid.len(),
                    self.gossip@.len() == g_mid.len(),
                    g_mid[gi as int].0 == dest@,
                    base.no_duplicates(),
                    self.gossip() == g_mid.update(gi as int, (dest@, extend_unseen(base, vals.take(k as int)))),
                decreases n - k,
            {
                let m = self.pending_acknowledgment[i].1[k].msg;
                assert(vals[k as int] == m);
                assert(vals.take(k as int + 1).drop_last() =~= vals.take(k as int));
                let ghost prefix = extend_unseen(base, vals.take(k as int));
                proof {
                    assert(self.gossip()[gi as int].1 == self.gossip@[gi as int].1.message@);
                    assert(self.gossip@[gi as int].1.message@ == prefix);
                    assert(vals.take(k as int + 1).last() == m);
                    assert(extend_unseen(base, vals.take(k as int + 1)) == (if prefix.contains(m) {
                        prefix
                    } else {
                        prefix.push(m)
                    }));
                }
                let ghost gv_before = self.gossip@;
                let ghost model_before = self.gossip();
                if !holds(&self.gossip[gi].1.message, m) {
                    self.gossip[gi].1.message.push(m);
                }
                assert(self.gossip@.len() == gv_before.len());
                assert(forall|e: int| 0 <= e < gv_before.len() && e != gi ==> self.gossip@[e] == gv_before[e]);
                assert(self.gossip@[gi as int].0 == gv_before[gi as int].0);
                assert(self.gossip@[gi as int].1.message@ == extend_unseen(base, vals.take(k as int + 1)));
                assert forall|e: int| 0 <= e < g_mid.len() implies #[trigger] self.gossip()[e] == g_mid.update(
                    gi as int,
                    (dest@, extend_unseen(base, vals.take(k as int + 1))),
                )[e] by {
                    assert(model_before[e] == (gv_before[e].0@, gv_before[e].1.message@));
                    if e != gi {
                        assert(model_before[e] == g_mid[e]);
                    } else {
                        assert(model_before[e].0 == dest@);
                    }
                }
                assert(self.gossip() =~= g_mid.update(gi as int, (dest@, extend_unseen(base, vals.take(k as int + 1)))));
                k = k + 1;
            }
            assert(vals.take(n as int) =~= vals);
            assert(p0.take(i as int + 1).drop_last() =~= p0.take(i as int));
            assert(self.gossip() =~= gossip_with(g_before, dest@, vals));
            proof {
                lemma_extend_unseen(base, vals);
                assert(keys(self.gossip()) =~= keys(g_mid));
            }
            i = i + 1;
        }
        assert(p0.take(p0.len() as int) =~= p0);
        let mut emptied: Vec<(String, Vec<Msg>)> = Vec::new();
        let mut j: usize = 0;
        while j < self.pending_acknowledgment.len()
            invariant
                self.pending() == p0,
                j <= p0.len(),
                p0.len() == self.pending_acknowledgment@.len(),
                emptied@.len() == j,
                pending_model(emptied@) =~= cleared(p0.take(j as int)),
            decreases p0.len() - j,
        {
            let name = self.pending_acknowledgment[j].0.clone();
            let none: Vec<Msg> = Vec::new();
            let ghost before = emptied@;
            emptied.push((name, none));
            assert(msg_pairs(none@) =~= Seq::<(u32, u32)>::empty());
            assert(emptied@ == before.push((name, none)));
            assert(p0.take(j as int + 1) =~= p0.take(j as int).push(p0[j as int]));
            assert(name@ == p0[j as int].0);
            assert forall|x: int| 0 <= x <= j implies #[trigger] pending_model(emptied@)[x] == cleared(p0.take(j as int + 1))[x] by {
                if x < j {
                    assert(emptied@[x] == before[x]);
                    assert(cleared(p0.take(j as int + 1))[x] == cleared(p0.take(j as int))[x]);
                }
            }
            assert(pending_model(emptied@) =~= cleared(
                p0.take(j as int + 1),
            ));
            j = j + 1;
        }
        assert(p0.take(p0.len() as int) =~= p0);
        self.pending_acknowledgment = emptied;
        assert(keys(self.pending()) =~= keys(p0));
        let ghost g1 = self.gossip();
        let mut res: Vec<SyncGossip> = Vec::new();
        let mut e: usize = 0;
        while e < self.gossip.len()
            invariant
                self.gossip() == g1,
                e <= g1.len(),
                g1.len() == self.gossip@.len(),
                batches_are(res@, outgoing(g1.take(e as int))),
            decreases g1.len() - e,
        {
            assert(g1.take(e as int + 1).drop_last() =~= g1.take(e as int));
            if self.gossip[e].1.message.len() > 0 {
                let dest = self.gossip[e].0.clone();
                let batch = self.gossip[e].1.message.clone();
                assert(batch@ =~= self.gossip@[e as int].1.message@);
                res.push(SyncGossip { dest, sync: RequestPayload::Sync(Sync { message: batch }) });
            }
            e = e + 1;
        }
        assert(g1.take(g1.len() as int) =~= g1);
        res
    }

    fn ack(&mut self, from: &String, msg_id: u32) {
        assert(names(self.pending_acknowledgment@) =~= keys(self.pending()));
        if let Some(i) = find_entry(&self.pending_acknowledgment, from) {
            if let Some(p) = position_of_id(&self.pending_acknowledgment[i].1, msg_id) {
                let ghost before = self.pending();
                let ghost gossip_before = self.gossip();
                proof {
                    crate::table::lemma_first_named_found(keys(before), from@);
                }
                assert(keys(before)[i as int] == from@);
                self.pending_acknowledgment[i].1.swap_remove(p);
                assert(self.gossip() == gossip_before);
                assert(self.pending() =~= pending_after_ack(before, from@, msg_id)) by {
                    assert(msg_pairs(self.pending_acknowledgment@[i as int].1@) =~= swap_removed(
                        before[i as int].1,
                        p as int,
                    ));
                }
                assert(keys(self.pending()) =~= keys(before));
            }
        }
    }

    fn sent(&mut self, request_message: &RequestMessage) {
        match &request_message.body.payload {
            RequestPayload::Broadcast(b) => {
                let msg = Msg { id: request_message.body.msg_id, msg: b.message };
                let ghost before = self.pending();
                assert(names(self.pending_acknowledgment@) =~= keys(before));
                match find_entry(&self.pending_acknowledgment, &request_message.dest) {
                    Some(i) => {
                        self.pending_acknowledgment[i].1.push(msg);
                        assert(msg_pairs(self.pending_acknowledgment@[i as int].1@) =~= before[i as int].1.push(
                            (msg.id, msg.msg),
                        ));
                        assert(self.pending() =~= pending_after_sent(
                            before,
                            request_message.dest@,
                            request_message.body.msg_id,
                            b.message,
                        ));
                        assert(keys(self.pending()) =~= keys(before));
                    },
                    None => {
                        let mut list: Vec<Msg> = Vec::new();
                        list.push(msg);
                        let dest = request_message.dest.clone();
                        self.pending_acknowledgment.push((dest, list));
                        assert(msg_pairs(list@) =~= seq![(msg.id, msg.msg)]);
                        assert(self.pending() =~= pending_after_sent(
                            before,
                            request_message.dest@,
                            request_message.body.msg_id,
                            b.message,
                        ));
                        assert(keys(self.pending()) =~= keys(before).push(request_message.dest@));
                        assert(!keys(before).contains(request_message.dest@));
                        assert forall|a: int, c: int|
                            0 <= a < c < keys(self.pending()).len() implies keys(self.pending())[a]
                            != keys(self.pending())[c] by {
                            if c == keys(before).len() {
                                assert(keys(before).contains(keys(before)[a]));
                            }
                        }
                    },
                }
            },
            _ => {},
        }
    }

    fn ack_sync(&mut self, from: String, messages: Vec<u32>) {
        let mut set: HashSet<u32> = HashSet::new();
        let mut k: usize = 0;
        while k < messages.len()
            invariant
                k <= messages@.len(),
                set@ == messages@.take(k as int).to_set(),
            decreases messages.len() - k,
        {
            proof {
                messages@.take(k as int).lemma_push_to_set_commute(messages@[k as int]);
                assert(messages@.take(k as int + 1) =~= messages@.take(k as int).push(messages@[k as int]));
            }
            set.insert(messages[k]);
            k = k + 1;
        }
        assert(messages@.take(messages.len() as int) =~= messages@);
        assert(names(self.gossip@) =~= keys(self.gossip()));
        if let Some(i) = find_entry(&self.gossip, &from) {
            let ghost before = self.gossip();
            let ghost list = before[i as int].1;
            let mut kept: Vec<u32> = Vec::new();
            let mut j: usize = 0;
            let n = self.gossip[i].1.message.len();
            while j < n
                invariant
                    i < self.gossip@.len(),
                    n == self.gossip@[i as int].1.message@.len(),
                    list == self.gossip@[i as int].1.message@,
                    j <= n,
                    set@ == messages@.to_set(),
                    kept@ == without_values(list.take(j as int), messages@),
                decreases n - j,
            {
                proof {
                    assert(list.take(j as int + 1).drop_last() =~= list.take(j as int));
                }
                let x = self.gossip[i].1.message[j];
                if !set.contains(&x) {
                    kept.push(x);
                }
                j = j + 1;
            }
            assert(list.take(n as int) =~= list);
            proof {
                lemma_without_values_distinct(list, messages@);
            }
            self.gossip[i].1.message = kept;
            assert(self.gossip() =~= gossip_after_ack(before, from@, messages@));
            assert(keys(self.gossip()) =~= keys(before));
        }
    }
}

spec fn flag_model(sim: Seq<(String, bool)>) -> Seq<(Seq<char>, bool)> {
    sim.map_values(|e: (String, bool)| (e.0@, e.1))
}

impl MessageBroadcast {
    /// How many batches the next retry sends: one per destination that
    /// has something queued or pending.
    pub fn retry_batches(&self) -> (n: usize)
        requires
            self.well_formed(),
        ensures
            n == retry_count(self.pending(), self.gossip()),
    {
        let ghost p0 = self.pending();
        let ghost g0 = self.gossip();
        let mut sim: Vec<(String, bool)> = Vec::new();
        let mut e: usize = 0;
        while e < self.gossip.len()
            invariant
                e <= g0.len(),
                g0 == self.gossip(),
                g0.len() == self.gossip@.len(),
                flag_model(sim@) =~= flags(g0.take(e as int)),
            decreases g0.len() - e,
        {
            let name = self.gossip[e].0.clone();
            let some = self.gossip[e].1.message.len() > 0;
            let ghost before = sim@;
            sim.push((name, some));
            assert(g0.take(e as int + 1) =~= g0.take(e as int).push(g0[e as int]));
            assert(flag_model(sim@) =~= flag_model(before).push((g0[e as int].0, some)));
            assert(flags(g0.take(e as int + 1)) =~= flags(g0.take(e as int)).push(
                (g0[e as int].0, g0[e as int].1.len() > 0),
            ));
            e = e + 1;
        }
        assert(g0.take(g0.len() as int) =~= g0);
        let mut i: usize = 0;
        while i < self.pending_acknowledgment.len()
            invariant
                i <= p0.len(),
                p0 == self.pending(),
                p0.len() == self.pending_acknowledgment@.len(),
                flag_model(sim@) =~= flags(gossip_after(g0, p0.take(i as int))),
            decreases p0.len() - i,
        {
            let ghost before = flag_model(sim@);
            let name = &self.pending_acknowledgment[i].0;
            let some = self.pending_acknowledgment[i].1.len() > 0;
            assert(names(sim@) =~= keys(flag_model(sim@)));
            let ghost sim_before = sim@;
            match find_entry(&sim, name) {
                Some(j) => {
                    if some {
                        sim[j].1 = true;
                    }
                    proof {
                        crate::table::lemma_first_named_found(names(sim_before), name@);
                        assert(names(sim_before)[j as int] == name@);
                        assert(flag_model(sim@) =~= before.update(
                            j as int,
                            (name@, before[j as int].1 || some),
                        ));
                    }
                },
                None => {
                    sim.push((name.clone(), some));
                    proof {
                        assert(flag_model(sim@) =~= before.push((name@, some)));
                    }
                },
            }
            proof {
                assert(flag_model(sim@) == flag_with(before, name@, some));
                lemma_retry_step(g0, p0, i as int);
            }
            i = i + 1;
        }
        assert(p0.take(p0.len() as int) =~= p0);
        let ghost all = flag_model(sim@);
        let mut n: usize = 0;
        let mut k: usize = 0;
        while k < sim.len()
            invariant
                k <= sim@.len(),
                all == flag_model(sim@),
                n == count_flagged(all.take(k as int)),
                n <= k,
            decreases sim@.len() - k,
        {
            assert(all.take(k as int + 1).drop_last() =~= all.take(k as int));
            if sim[k].1 {
                n = n + 1;
            }
            k = k + 1;
        }
        assert(all.take(sim@.len() as int) =~= all);
        proof {
            lemma_outgoing_count(gossip_after(g0, p0));
        }
        n
    }
}

impl Default for MessageBroadcast {
    fn default() -> (s: Self)
        ensures
            s.well_formed(),
            s.pending() == Seq::<(Seq<char>, Seq<(u32, u32)>)>::empty(),
            s.gossip() == Seq::<(Seq<char>, Seq<u32>)>::empty(),
    {
        let s = MessageBroadcast { pending_acknowledgment: Vec::new(), gossip: Vec::new() };
        assert(keys(s.pending()) =~= Seq::<Seq<char>>::empty());
        assert(keys(s.gossip()) =~= Seq::<Seq<char>>::empty());
        s
    }
}

} // verus!
