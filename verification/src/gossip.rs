//! The pure model of the node's bookkeeping: what a node holds after
//! messages arrive, and how the pending and queued tables of its
//! retransmissions change. The laws of that bookkeeping are proved here.

use vstd::prelude::*;

use crate::table::first_named;
use crate::toplogy::without_name;

verus! {

/// The messages held once `message` arrived: unchanged if it was there
/// already, else with `message` at the end.
pub open spec fn after_consume(received: Seq<u32>, message: u32) -> Seq<u32> {
    if received.contains(message) {
        received
    } else {
        received.push(message)
    }
}

/// `base` followed by each element of `add` that is not already there, in
/// the order of first occurrence.
pub open spec fn extend_unseen(base: Seq<u32>, add: Seq<u32>) -> Seq<u32>
    decreases add.len(),
{
    if add.len() == 0 {
        base
    } else {
        after_consume(extend_unseen(base, add.drop_last()), add.last())
    }
}

/// The nodes that a message reaching `current` from `exclude` goes on to:
/// the neighbours of `current`, other than `current` and `exclude`.
pub open spec fn forward_targets(topology: Seq<Seq<char>>, current: Seq<char>, exclude: Seq<char>) -> Seq<
    Seq<char>,
> {
    without_name(without_name(topology, current), exclude)
}

/// The names of a model table's entries, in order.
pub open spec fn keys<V>(table: Seq<(Seq<char>, V)>) -> Seq<Seq<char>> {
    table.map_values(|e: (Seq<char>, V)| e.0)
}

/// The first position in `list` of a pending message numbered `msg_id`.
pub open spec fn first_with_id(list: Seq<(u32, u32)>, msg_id: u32) -> Option<int> {
    if exists|p: int| 0 <= p < list.len() && list[p].0 == msg_id {
        Some(choose|p: int| 0 <= p < list.len() && list[p].0 == msg_id
            && forall|q: int| 0 <= q < p ==> list[q].0 != msg_id)
    } else {
        None
    }
}

/// `list` without its element at `p`, whose place the last element takes.
pub open spec fn swap_removed<A>(list: Seq<A>, p: int) -> Seq<A> {
    list.update(p, list.last()).drop_last()
}

/// `list` without the elements that occur in `gone`.
pub open spec fn without_values(list: Seq<u32>, gone: Seq<u32>) -> Seq<u32>
    decreases list.len(),
{
    if list.len() == 0 {
        list
    } else {
        let rest = without_values(list.drop_last(), gone);
        if gone.contains(list.last()) {
            rest
        } else {
            rest.push(list.last())
        }
    }
}

/// The pending table once the message `(msg_id, message)` was sent to `dest`.
pub open spec fn pending_after_sent(
    pending: Seq<(Seq<char>, Seq<(u32, u32)>)>,
    dest: Seq<char>,
    msg_id: u32,
    message: u32,
) -> Seq<(Seq<char>, Seq<(u32, u32)>)> {
    match first_named(keys(pending), dest) {
        Some(i) => pending.update(i, (dest, pending[i].1.push((msg_id, message)))),
        None => pending.push((dest, seq![(msg_id, message)])),
    }
}

/// The pending table once `from` acknowledged the request numbered `msg_id`:
/// the first such message pending for `from` is gone, and the last one
/// pending for `from` takes its place.
pub open spec fn pending_after_ack(
    pending: Seq<(Seq<char>, Seq<(u32, u32)>)>,
    from: Seq<char>,
    msg_id: u32,
) -> Seq<(Seq<char>, Seq<(u32, u32)>)> {
    match first_named(keys(pending), from) {
        Some(i) => match first_with_id(pending[i].1, msg_id) {
            Some(p) => pending.update(i, (from, swap_removed(pending[i].1, p))),
            None => pending,
        },
        None => pending,
    }
}

/// The gossip table once `from` acknowledged the batch `messages`.
pub open spec fn gossip_after_ack(
    gossip: Seq<(Seq<char>, Seq<u32>)>,
    from: Seq<char>,
    messages: Seq<u32>,
) -> Seq<(Seq<char>, Seq<u32>)> {
    match first_named(keys(gossip), from) {
        Some(i) => gossip.update(i, (from, without_values(gossip[i].1, messages))),
        None => gossip,
    }
}

/// The messages of a list of pending (request number, message) pairs.
pub open spec fn message_values(list: Seq<(u32, u32)>) -> Seq<u32> {
    list.map_values(|m: (u32, u32)| m.1)
}

/// The gossip table once the messages `add` were queued for `dest`.
pub open spec fn gossip_with(gossip: Seq<(Seq<char>, Seq<u32>)>, dest: Seq<char>, add: Seq<u32>) -> Seq<
    (Seq<char>, Seq<u32>),
> {
    match first_named(keys(gossip), dest) {
        Some(i) => gossip.update(i, (dest, extend_unseen(gossip[i].1, add))),
        None => gossip.push((dest, extend_unseen(Seq::empty(), add))),
    }
}

/// The gossip table once every pending message was queued for its
/// destination, destination by destination.
pub open spec fn gossip_after(
    gossip: Seq<(Seq<char>, Seq<u32>)>,
    pending: Seq<(Seq<char>, Seq<(u32, u32)>)>,
) -> Seq<(Seq<char>, Seq<u32>)>
    decreases pending.len(),
{
    if pending.len() == 0 {
        gossip
    } else {
        gossip_with(
            gossip_after(gossip, pending.drop_last()),
            pending.last().0,
            message_values(pending.last().1),
        )
    }
}

/// The pending table with every destination kept and every list emptied.
pub open spec fn cleared(pending: Seq<(Seq<char>, Seq<(u32, u32)>)>) -> Seq<
    (Seq<char>, Seq<(u32, u32)>),
> {
    pending.map_values(|e: (Seq<char>, Seq<(u32, u32)>)| (e.0, Seq::<(u32, u32)>::empty()))
}

/// The entries of a gossip table that hold at least one message.
pub open spec fn outgoing(gossip: Seq<(Seq<char>, Seq<u32>)>) -> Seq<(Seq<char>, Seq<u32>)>
    decreases gossip.len(),
{
    if gossip.len() == 0 {
        gossip
    } else {
        let rest = outgoing(gossip.drop_last());
        if gossip.last().1.len() > 0 {
            rest.push(gossip.last())
        } else {
            rest
        }
    }
}

/// Every element of `without_values(list, gone)` is in `list`, and none is
/// in `gone`.
proof fn lemma_without_values_subset(list: Seq<u32>, gone: Seq<u32>, x: u32)
    ensures
        without_values(list, gone).contains(x) ==> list.contains(x) && !gone.contains(x),
    decreases list.len(),
{
    if list.len() > 0 {
        lemma_without_values_subset(list.drop_last(), gone, x);
        let rest = without_values(list.drop_last(), gone);
        if without_values(list, gone).contains(x) {
            if rest.contains(x) {
                let k = choose|k: int| 0 <= k < list.drop_last().len() && list.drop_last()[k] == x;
                assert(list[k] == x);
            } else {
                assert(list[list.len() - 1] == x);
            }
        }
    }
}

/// Leaving elements out keeps a list free of repetitions.
pub(crate) proof fn lemma_without_values_distinct(list: Seq<u32>, gone: Seq<u32>)
    requires
        list.no_duplicates(),
    ensures
        without_values(list, gone).no_duplicates(),
    decreases list.len(),
{
    if list.len() > 0 {
        let init = list.drop_last();
        assert(init.no_duplicates());
        lemma_without_values_distinct(init, gone);
        if !gone.contains(list.last()) {
            let rest = without_values(init, gone);
            lemma_without_values_subset(init, gone, list.last());
            if init.contains(list.last()) {
                let k = choose|k: int| 0 <= k < init.len() && init[k] == list.last();
                assert(list[k] == list[list.len() - 1]);
            }
            assert forall|a: int, b: int|
                0 <= a < b < rest.push(list.last()).len() implies rest.push(list.last())[a]
                != rest.push(list.last())[b] by {
                if b == rest.len() {
                    assert(rest.contains(rest[a]));
                }
            }
        }
    }
}

/// A sync leaves a node holding exactly the messages it held and those of
/// the batch.
pub proof fn law_sync_holds_both(base: Seq<u32>, add: Seq<u32>)
    ensures
        forall|x: u32|
            #[trigger] extend_unseen(base, add).contains(x) <==> base.contains(x) || add.contains(x),
    decreases add.len(),
{
    if add.len() > 0 {
        let init = add.drop_last();
        law_sync_holds_both(base, init);
        let prefix = extend_unseen(base, init);
        assert forall|x: u32|
            #[trigger] extend_unseen(base, add).contains(x) <==> base.contains(x) || add.contains(
                x,
            ) by {
            if init.contains(x) {
                let k = choose|k: int| 0 <= k < init.len() && init[k] == x;
                assert(add[k] == x);
            }
            if add.contains(x) && x != add.last() {
                let k = choose|k: int| 0 <= k < add.len() && add[k] == x;
                assert(init[k] == x);
            }
            if extend_unseen(base, add).contains(x) && !prefix.contains(x) {
                let k = choose|k: int|
                    0 <= k < extend_unseen(base, add).len() && extend_unseen(base, add)[k] == x;
                if k < prefix.len() {
                    assert(prefix[k] == x);
                }
            }
            if prefix.contains(x) && !prefix.contains(add.last()) {
                let k = choose|k: int| 0 <= k < prefix.len() && prefix[k] == x;
                assert(prefix.push(add.last())[k] == x);
            }
            if x == add.last() && !prefix.contains(add.last()) {
                assert(prefix.push(add.last())[prefix.len() as int] == x);
            }
        }
    }
}

/// `extend_unseen` keeps a list free of repetitions.
pub(crate) proof fn lemma_extend_unseen(base: Seq<u32>, add: Seq<u32>)
    requires
        base.no_duplicates(),
    ensures
        extend_unseen(base, add).no_duplicates(),
        forall|x: u32|
            #[trigger] extend_unseen(base, add).contains(x) <==> base.contains(x) || add.contains(x),
    decreases add.len(),
{
    law_sync_holds_both(base, add);
    if add.len() > 0 {
        let init = add.drop_last();
        lemma_extend_unseen(base, init);
        let prefix = extend_unseen(base, init);
        if !prefix.contains(add.last()) {
            assert forall|a: int, b: int|
                0 <= a < b < prefix.push(add.last()).len() implies prefix.push(add.last())[a]
                != prefix.push(add.last())[b] by {
                if b == prefix.len() {
                    assert(prefix.contains(prefix[a]));
                }
            }
        }
    }
}

/// The first position of a message numbered `msg_id` is the smallest one.
pub(crate) proof fn lemma_first_with_id(list: Seq<(u32, u32)>, msg_id: u32, p: int)
    requires
        0 <= p < list.len(),
        list[p].0 == msg_id,
        forall|q: int| 0 <= q < p ==> list[q].0 != msg_id,
    ensures
        first_with_id(list, msg_id) == Some(p),
{
    let c = choose|c: int| 0 <= c < list.len() && list[c].0 == msg_id
        && forall|q: int| 0 <= q < c ==> list[q].0 != msg_id;
    if c < p {
        assert(list[c].0 != msg_id);
    }
    if p < c {
        assert(list[p].0 != msg_id);
    }
}

/// Acknowledging the request that was just sent to `dest` undoes the
/// sending: the pending table is as it was, except that a destination seen
/// for the first time stays listed, with nothing pending.
pub proof fn law_ack_undoes_sent(
    pending: Seq<(Seq<char>, Seq<(u32, u32)>)>,
    dest: Seq<char>,
    msg_id: u32,
    message: u32,
)
    requires
        keys(pending).no_duplicates(),
        forall|i: int, p: int|
            0 <= i < pending.len() && pending[i].0 == dest && 0 <= p < pending[i].1.len()
                ==> #[trigger] pending[i].1[p].0 != msg_id,
    ensures
        pending_after_ack(pending_after_sent(pending, dest, msg_id, message), dest, msg_id) == (if keys(
            pending,
        ).contains(dest) {
            pending
        } else {
            pending.push((dest, Seq::empty()))
        }),
{
    crate::table::lemma_first_named_found(keys(pending), dest);
    let sent = pending_after_sent(pending, dest, msg_id, message);
    match first_named(keys(pending), dest) {
        Some(i) => {
            let list = pending[i].1;
            assert(keys(sent) =~= keys(pending));
            assert(sent[i].1 == list.push((msg_id, message)));
            assert forall|q: int| 0 <= q < list.len() implies list.push((msg_id, message))[q].0
                != msg_id by {
                assert(pending[i].1[q].0 != msg_id);
            }
            lemma_first_with_id(list.push((msg_id, message)), msg_id, list.len() as int);
            assert(swap_removed(list.push((msg_id, message)), list.len() as int) =~= list);
            assert(keys(pending)[i] == dest);
            assert(pending.update(i, (dest, list)) =~= pending);
        },
        None => {
            assert(!keys(pending).contains(dest)) by {
                if keys(pending).contains(dest) {
                    crate::table::lemma_first_named_found(keys(pending), dest);
                }
            }
            assert(keys(sent) =~= keys(pending).push(dest));
            crate::table::lemma_first_named(keys(sent), dest, pending.len() as int);
            lemma_first_with_id(seq![(msg_id, message)], msg_id, 0);
            assert(swap_removed(seq![(msg_id, message)], 0) =~= Seq::<(u32, u32)>::empty());
            assert(sent.update(pending.len() as int, (dest, Seq::<(u32, u32)>::empty())) =~= pending.push(
                (dest, Seq::empty()),
            ));
        },
    }
}

/// Whether `table` queues the message `x` for `dest`.
pub open spec fn queued(table: Seq<(Seq<char>, Seq<u32>)>, dest: Seq<char>, x: u32) -> bool {
    exists|k: int| 0 <= k < table.len() && table[k].0 == dest && #[trigger] table[k].1.contains(x)
}

/// Once `from` acknowledged a batch, none of the batch's messages stays
/// queued for `from`; the queues of other destinations do not change, and
/// no destination is added or dropped.
pub proof fn law_ack_sync_forgets(
    gossip: Seq<(Seq<char>, Seq<u32>)>,
    from: Seq<char>,
    messages: Seq<u32>,
)
    requires
        keys(gossip).no_duplicates(),
    ensures
        keys(gossip_after_ack(gossip, from, messages)) == keys(gossip),
        forall|k: int|
            0 <= k < gossip.len() && gossip[k].0 != from ==> #[trigger] gossip_after_ack(
                gossip,
                from,
                messages,
            )[k] == gossip[k],
        forall|x: u32| messages.contains(x) ==> !queued(gossip_after_ack(gossip, from, messages), from, x),
{
    crate::table::lemma_first_named_found(keys(gossip), from);
    let after = gossip_after_ack(gossip, from, messages);
    match first_named(keys(gossip), from) {
        Some(i) => {
            assert(keys(after) =~= keys(gossip));
            assert forall|x: u32| messages.contains(x) implies !queued(after, from, x) by {
                if queued(after, from, x) {
                    let k = choose|k: int|
                        0 <= k < after.len() && after[k].0 == from && #[trigger] after[k].1.contains(x);
                    if k != i {
                        assert(keys(gossip)[k] == keys(gossip)[i]);
                    }
                    lemma_without_values_subset(gossip[i].1, messages, x);
                }
            }
        },
        None => {
            assert forall|x: u32| messages.contains(x) implies !queued(after, from, x) by {
                if queued(after, from, x) {
                    let k = choose|k: int|
                        0 <= k < after.len() && after[k].0 == from && #[trigger] after[k].1.contains(x);
                    assert(keys(gossip)[k] == from);
                    crate::table::lemma_not_named_converse(keys(gossip), from, k);
                }
            }
        },
    }
}

/// Queuing `add` for `dest` keeps everything queued, and queues each
/// message of `add` for `dest`.
proof fn lemma_gossip_with_queues(gossip: Seq<(Seq<char>, Seq<u32>)>, dest: Seq<char>, add: Seq<u32>)
    ensures
        forall|d: Seq<char>, x: u32|
            #[trigger] queued(gossip, d, x) ==> queued(gossip_with(gossip, dest, add), d, x),
        forall|x: u32| #[trigger] add.contains(x) ==> queued(gossip_with(gossip, dest, add), dest, x),
{
    crate::table::lemma_first_named_found(keys(gossip), dest);
    let after = gossip_with(gossip, dest, add);
    match first_named(keys(gossip), dest) {
        Some(i) => {
            law_sync_holds_both(gossip[i].1, add);
            assert forall|d: Seq<char>, x: u32| #[trigger] queued(gossip, d, x) implies queued(
                after,
                d,
                x,
            ) by {
                let k = choose|k: int|
                    0 <= k < gossip.len() && gossip[k].0 == d && #[trigger] gossip[k].1.contains(x);
                assert(after[k].0 == d && after[k].1.contains(x));
            }
            assert forall|x: u32| #[trigger] add.contains(x) implies queued(after, dest, x) by {
                assert(after[i].0 == dest && after[i].1.contains(x));
            }
        },
        None => {
            law_sync_holds_both(Seq::empty(), add);
            assert forall|d: Seq<char>, x: u32| #[trigger] queued(gossip, d, x) implies queued(
                after,
                d,
                x,
            ) by {
                let k = choose|k: int|
                    0 <= k < gossip.len() && gossip[k].0 == d && #[trigger] gossip[k].1.contains(x);
                assert(after[k].0 == d && after[k].1.contains(x));
            }
            assert forall|x: u32| #[trigger] add.contains(x) implies queued(after, dest, x) by {
                assert(after[gossip.len() as int].0 == dest && after[gossip.len() as int].1.contains(
                    x,
                ));
            }
        },
    }
}

/// A retry loses nothing: whatever was queued stays queued, and every
/// message pending for a destination is queued for it afterwards, so it is
/// sent again until acknowledged.
pub proof fn law_sync_keeps_unacknowledged(
    gossip: Seq<(Seq<char>, Seq<u32>)>,
    pending: Seq<(Seq<char>, Seq<(u32, u32)>)>,
)
    ensures
        forall|d: Seq<char>, x: u32|
            #[trigger] queued(gossip, d, x) ==> queued(gossip_after(gossip, pending), d, x),
        forall|i: int, j: int|
            0 <= i < pending.len() && 0 <= j < pending[i].1.len() ==> queued(
                gossip_after(gossip, pending),
                pending[i].0,
                #[trigger] pending[i].1[j].1,
            ),
    decreases pending.len(),
{
    if pending.len() > 0 {
        let init = pending.drop_last();
        law_sync_keeps_unacknowledged(gossip, init);
        let mid = gossip_after(gossip, init);
        let vals = message_values(pending.last().1);
        lemma_gossip_with_queues(mid, pending.last().0, vals);
        assert forall|i: int, j: int|
            0 <= i < pending.len() && 0 <= j < pending[i].1.len() implies queued(
                gossip_after(gossip, pending),
                pending[i].0,
                #[trigger] pending[i].1[j].1,
            ) by {
            if i < init.len() {
                assert(init[i] == pending[i]);
                assert(queued(mid, init[i].0, init[i].1[j].1));
            } else {
                assert(vals[j] == pending[i].1[j].1);
                assert(vals.contains(pending[i].1[j].1));
            }
        }
    }
}

/// Queuing for `dest` keeps every name, and adds `dest` if it was new.
proof fn lemma_gossip_with_keys(gossip: Seq<(Seq<char>, Seq<u32>)>, dest: Seq<char>, add: Seq<u32>)
    ensures
        keys(gossip_with(gossip, dest, add)).contains(dest),
        forall|k: Seq<char>|
            #[trigger] keys(gossip).contains(k) ==> keys(gossip_with(gossip, dest, add)).contains(k),
{
    crate::table::lemma_first_named_found(keys(gossip), dest);
    let after = gossip_with(gossip, dest, add);
    match first_named(keys(gossip), dest) {
        Some(i) => {
            assert(keys(after) =~= keys(gossip));
            assert(keys(gossip)[i] == dest);
        },
        None => {
            assert(keys(after) =~= keys(gossip).push(dest));
            assert(keys(after)[gossip.len() as int] == dest);
            assert forall|k: Seq<char>| #[trigger] keys(gossip).contains(k) implies keys(after).contains(
                k,
            ) by {
                let j = choose|j: int| 0 <= j < keys(gossip).len() && keys(gossip)[j] == k;
                assert(keys(after)[j] == k);
            }
        },
    }
}

/// After a retry, every destination that had pending messages has a queue.
proof fn lemma_gossip_after_keys(
    gossip: Seq<(Seq<char>, Seq<u32>)>,
    pending: Seq<(Seq<char>, Seq<(u32, u32)>)>,
)
    ensures
        forall|i: int|
            0 <= i < pending.len() ==> keys(gossip_after(gossip, pending)).contains(
                #[trigger] pending[i].0,
            ),
    decreases pending.len(),
{
    if pending.len() > 0 {
        let init = pending.drop_last();
        lemma_gossip_after_keys(gossip, init);
        let mid = gossip_after(gossip, init);
        lemma_gossip_with_keys(mid, pending.last().0, message_values(pending.last().1));
        assert forall|i: int| 0 <= i < pending.len() implies keys(
            gossip_after(gossip, pending),
        ).contains(#[trigger] pending[i].0) by {
            if i < init.len() {
                assert(init[i] == pending[i]);
                assert(keys(mid).contains(init[i].0));
            }
        }
    }
}

/// Moving nothing into queues that already exist changes nothing.
proof fn lemma_gossip_after_nothing(
    gossip: Seq<(Seq<char>, Seq<u32>)>,
    pending: Seq<(Seq<char>, Seq<(u32, u32)>)>,
)
    requires
        forall|i: int|
            0 <= i < pending.len() ==> (#[trigger] pending[i]).1.len() == 0 && keys(
                gossip,
            ).contains(pending[i].0),
    ensures
        gossip_after(gossip, pending) == gossip,
    decreases pending.len(),
{
    if pending.len() > 0 {
        let init = pending.drop_last();
        assert forall|i: int| 0 <= i < init.len() implies (#[trigger] init[i]).1.len() == 0 && keys(
            gossip,
        ).contains(init[i].0) by {
            assert(init[i] == pending[i]);
        }
        lemma_gossip_after_nothing(gossip, init);
        let last = pending[pending.len() - 1];
        assert(message_values(last.1) =~= Seq::<u32>::empty());
        crate::table::lemma_first_named_found(keys(gossip), last.0);
        let i = first_named(keys(gossip), last.0)->0;
        assert(keys(gossip)[i] == last.0);
        assert(gossip.update(i, (last.0, extend_unseen(gossip[i].1, Seq::<u32>::empty()))) =~= gossip);
    }
}

/// A second retry, with nothing new sent in between, changes nothing: the
/// pending lists stay empty and the queues, hence the batches sent, stay
/// the same.
pub proof fn law_second_sync_changes_nothing(
    gossip: Seq<(Seq<char>, Seq<u32>)>,
    pending: Seq<(Seq<char>, Seq<(u32, u32)>)>,
)
    ensures
        cleared(cleared(pending)) == cleared(pending),
        gossip_after(gossip_after(gossip, pending), cleared(pending)) == gossip_after(gossip, pending),
{
    assert(cleared(cleared(pending)) =~= cleared(pending));
    lemma_gossip_after_keys(gossip, pending);
    let after = gossip_after(gossip, pending);
    assert forall|i: int| 0 <= i < cleared(pending).len() implies (#[trigger] cleared(
        pending,
    )[i]).1.len() == 0 && keys(after).contains(cleared(pending)[i].0) by {
        assert(cleared(pending)[i].0 == pending[i].0);
    }
    lemma_gossip_after_nothing(after, cleared(pending));
}

/// Leaving out the same messages twice is leaving them out once.
proof fn lemma_without_values_twice(list: Seq<u32>, gone: Seq<u32>)
    ensures
        without_values(without_values(list, gone), gone) == without_values(list, gone),
    decreases list.len(),
{
    if list.len() > 0 {
        let init = list.drop_last();
        lemma_without_values_twice(init, gone);
        let rest = without_values(init, gone);
        if !gone.contains(list.last()) {
            assert(rest.push(list.last()).drop_last() =~= rest);
        }
    }
}

/// Leaving out two sets of messages does not depend on their order.
proof fn lemma_without_values_commute(list: Seq<u32>, a: Seq<u32>, b: Seq<u32>)
    ensures
        without_values(without_values(list, a), b) == without_values(without_values(list, b), a),
    decreases list.len(),
{
    if list.len() > 0 {
        let init = list.drop_last();
        let x = list.last();
        lemma_without_values_commute(init, a, b);
        let ra = without_values(init, a);
        let rb = without_values(init, b);
        if !a.contains(x) {
            assert(ra.push(x).drop_last() =~= ra);
        }
        if !b.contains(x) {
            assert(rb.push(x).drop_last() =~= rb);
        }
    }
}

/// Acknowledging a batch a second time changes nothing, and two batch
/// acknowledgements from one node may come in either order.
pub proof fn law_ack_sync_idempotent_and_commutes(
    gossip: Seq<(Seq<char>, Seq<u32>)>,
    from: Seq<char>,
    v: Seq<u32>,
    w: Seq<u32>,
)
    ensures
        gossip_after_ack(gossip_after_ack(gossip, from, v), from, v) == gossip_after_ack(
            gossip,
            from,
            v,
        ),
        gossip_after_ack(gossip_after_ack(gossip, from, v), from, w) == gossip_after_ack(
            gossip_after_ack(gossip, from, w),
            from,
            v,
        ),
{
    crate::table::lemma_first_named_found(keys(gossip), from);
    match first_named(keys(gossip), from) {
        Some(i) => {
            assert(keys(gossip)[i] == from);
            let l = gossip[i].1;
            assert(keys(gossip_after_ack(gossip, from, v)) =~= keys(gossip));
            assert(keys(gossip_after_ack(gossip, from, w)) =~= keys(gossip));
            lemma_without_values_twice(l, v);
            lemma_without_values_commute(l, v, w);
            assert(gossip_after_ack(gossip_after_ack(gossip, from, v), from, v) =~= gossip_after_ack(
                gossip,
                from,
                v,
            ));
            assert(gossip_after_ack(gossip_after_ack(gossip, from, v), from, w) =~= gossip_after_ack(
                gossip_after_ack(gossip, from, w),
                from,
                v,
            ));
        },
        None => {},
    }
}

/// Handing messages over in two syncs is handing them over in one; and
/// receiving one message is a sync of that message alone. So any history of
/// receptions from the empty state leaves `extend_unseen(empty, all
/// delivered messages in order)`.
pub proof fn law_history_composes(received: Seq<u32>, a: Seq<u32>, b: Seq<u32>, message: u32)
    ensures
        extend_unseen(extend_unseen(received, a), b) == extend_unseen(received, a + b),
        after_consume(received, message) == extend_unseen(received, seq![message]),
    decreases b.len(),
{
    assert(seq![message].drop_last() =~= Seq::<u32>::empty());
    assert(extend_unseen(received, Seq::<u32>::empty()) == received);
    if b.len() == 0 {
        assert(a + b =~= a);
    } else {
        law_history_composes(received, a, b.drop_last(), message);
        assert((a + b).drop_last() =~= a + b.drop_last());
        assert((a + b).last() == b.last());
    }
}

/// The position of the first delivery of `x` among `delivered`.
pub open spec fn first_seen(delivered: Seq<u32>, x: u32) -> int {
    choose|k: int| 0 <= k < delivered.len() && delivered[k] == x
        && forall|j: int| 0 <= j < k ==> delivered[j] != x
}

proof fn lemma_first_seen(delivered: Seq<u32>, x: u32, k: int)
    requires
        0 <= k < delivered.len(),
        delivered[k] == x,
        forall|j: int| 0 <= j < k ==> delivered[j] != x,
    ensures
        first_seen(delivered, x) == k,
{
    let c = first_seen(delivered, x);
    assert(0 <= c < delivered.len() && delivered[c] == x && forall|j: int| 0 <= j < c ==> delivered[j] != x);
    if c < k {
        assert(delivered[c] != x);
    }
    if k < c {
        assert(delivered[k] != x);
    }
}

proof fn earliest_seen(delivered: Seq<u32>, x: u32, k: int) -> (m: int)
    requires
        0 <= k < delivered.len(),
        delivered[k] == x,
    ensures
        0 <= m <= k,
        delivered[m] == x,
        forall|j: int| 0 <= j < m ==> delivered[j] != x,
    decreases k,
{
    if exists|j: int| 0 <= j < k && delivered[j] == x {
        let j = choose|j: int| 0 <= j < k && delivered[j] == x;
        earliest_seen(delivered, x, j)
    } else {
        k
    }
}

/// What a node reads after any history: each delivered message once, in the
/// order of its first delivery.
pub proof fn law_read_first_seen_order(delivered: Seq<u32>)
    ensures
        extend_unseen(Seq::empty(), delivered).no_duplicates(),
        forall|x: u32|
            #[trigger] extend_unseen(Seq::empty(), delivered).contains(x) <==> delivered.contains(x),
        forall|i: int, j: int|
            0 <= i < j < extend_unseen(Seq::empty(), delivered).len() ==> first_seen(
                delivered,
                #[trigger] extend_unseen(Seq::empty(), delivered)[i],
            ) < first_seen(delivered, #[trigger] extend_unseen(Seq::empty(), delivered)[j]),
    decreases delivered.len(),
{
    lemma_extend_unseen(Seq::empty(), delivered);
    if delivered.len() > 0 {
        let init = delivered.drop_last();
        let m = delivered.last();
        law_read_first_seen_order(init);
        let r0 = extend_unseen(Seq::<u32>::empty(), init);
        let r = extend_unseen(Seq::<u32>::empty(), delivered);
        // First deliveries among `init` stay first deliveries.
        assert forall|x: u32| #[trigger] init.contains(x) implies first_seen(delivered, x)
            == first_seen(init, x) && first_seen(init, x) < init.len() by {
            let k0 = choose|k: int| 0 <= k < init.len() && init[k] == x;
            let k = earliest_seen(init, x, k0);
            lemma_first_seen(init, x, k);
            assert forall|j: int| 0 <= j < k implies delivered[j] != x by {
                assert(init[j] == delivered[j]);
            }
            lemma_first_seen(delivered, x, k);
        }
        assert forall|i: int, j: int|
            0 <= i < j < r.len() implies first_seen(delivered, #[trigger] r[i]) < first_seen(
                delivered,
                #[trigger] r[j],
            ) by {
            assert(r0.contains(r0[i]) || i >= r0.len());
            if j < r0.len() {
                assert(r[i] == r0[i] && r[j] == r0[j]);
                assert(r0.contains(r0[i]) && r0.contains(r0[j]));
                assert(first_seen(init, r0[i]) < first_seen(init, r0[j]));
            } else {
                assert(!r0.contains(m));
                assert(r[j] == m);
                assert(!init.contains(m));
                assert forall|q: int| 0 <= q < delivered.len() - 1 implies delivered[q] != m by {
                    assert(init[q] == delivered[q]);
                }
                lemma_first_seen(delivered, m, delivered.len() - 1);
                assert(r[i] == r0[i]);
                assert(r0.contains(r0[i]));
            }
        }
    }
}

/// A message that arrives is held afterwards, and what was held before
/// stays, in its order.
pub proof fn law_consume_keeps_and_adds(received: Seq<u32>, message: u32)
    ensures
        after_consume(received, message).contains(message),
        after_consume(received, message).take(received.len() as int) == received,
{
    if !received.contains(message) {
        assert(received.push(message)[received.len() as int] == message);
        assert(received.push(message).take(received.len() as int) =~= received);
    } else {
        assert(received.take(received.len() as int) =~= received);
    }
}

/// Receiving a message a second time changes nothing.
pub proof fn law_consume_idempotent(received: Seq<u32>, message: u32)
    ensures
        after_consume(after_consume(received, message), message) == after_consume(received, message),
{
    law_consume_keeps_and_adds(received, message);
}

/// A batch whose messages are all held already changes nothing.
proof fn lemma_extend_held(base: Seq<u32>, add: Seq<u32>)
    requires
        forall|x: u32| add.contains(x) ==> base.contains(x),
    ensures
        extend_unseen(base, add) == base,
    decreases add.len(),
{
    if add.len() > 0 {
        let init = add.drop_last();
        assert forall|x: u32| init.contains(x) implies base.contains(x) by {
            let k = choose|k: int| 0 <= k < init.len() && init[k] == x;
            assert(add[k] == x);
        }
        lemma_extend_held(base, init);
        assert(add.contains(add[add.len() - 1]));
    }
}

/// Receiving the same batch a second time changes nothing.
pub proof fn law_sync_idempotent(received: Seq<u32>, batch: Seq<u32>)
    ensures
        extend_unseen(extend_unseen(received, batch), batch) == extend_unseen(received, batch),
{
    law_sync_holds_both(received, batch);
    lemma_extend_held(extend_unseen(received, batch), batch);
}

/// A message forwarded from a node never goes back to the node itself nor
/// to the node it came from.
pub proof fn law_never_forwarded_back(topology: Seq<Seq<char>>, current: Seq<char>, exclude: Seq<char>)
    ensures
        !forward_targets(topology, current, exclude).contains(current),
        !forward_targets(topology, current, exclude).contains(exclude),
{
    crate::toplogy::law_without_name(topology, current);
    crate::toplogy::law_without_name(without_name(topology, current), exclude);
}

/// How many batches the next retry sends.
pub open spec fn retry_count(
    pending: Seq<(Seq<char>, Seq<(u32, u32)>)>,
    gossip: Seq<(Seq<char>, Seq<u32>)>,
) -> nat {
    outgoing(gossip_after(gossip, pending)).len()
}

/// A gossip table reduced to whether each destination has something queued.
pub open spec fn flags(table: Seq<(Seq<char>, Seq<u32>)>) -> Seq<(Seq<char>, bool)> {
    table.map_values(|e: (Seq<char>, Seq<u32>)| (e.0, e.1.len() > 0))
}

/// How many destinations are flagged.
pub open spec fn count_flagged(f: Seq<(Seq<char>, bool)>) -> nat
    decreases f.len(),
{
    if f.len() == 0 {
        0
    } else {
        count_flagged(f.drop_last()) + if f.last().1 {
            1nat
        } else {
            0nat
        }
    }
}

/// The flags once something, or nothing, was queued for `dest`.
pub open spec fn flag_with(f: Seq<(Seq<char>, bool)>, dest: Seq<char>, some: bool) -> Seq<
    (Seq<char>, bool),
> {
    match first_named(keys(f), dest) {
        Some(i) => f.update(i, (dest, f[i].1 || some)),
        None => f.push((dest, some)),
    }
}

pub(crate) proof fn lemma_outgoing_count(table: Seq<(Seq<char>, Seq<u32>)>)
    ensures
        outgoing(table).len() == count_flagged(flags(table)),
    decreases table.len(),
{
    if table.len() > 0 {
        assert(flags(table).drop_last() =~= flags(table.drop_last()));
        lemma_outgoing_count(table.drop_last());
    }
}

proof fn lemma_extend_unseen_empty(base: Seq<u32>, add: Seq<u32>)
    ensures
        (extend_unseen(base, add).len() > 0) == (base.len() > 0 || add.len() > 0),
{
    law_sync_holds_both(base, add);
    let r = extend_unseen(base, add);
    if base.len() > 0 {
        assert(base.contains(base[0]));
        assert(r.contains(base[0]));
    }
    if add.len() > 0 {
        assert(add.contains(add[0]));
        assert(r.contains(add[0]));
    }
    if r.len() > 0 {
        assert(r.contains(r[0]));
    }
}

proof fn lemma_flags_gossip_with(gossip: Seq<(Seq<char>, Seq<u32>)>, dest: Seq<char>, add: Seq<u32>)
    ensures
        flags(gossip_with(gossip, dest, add)) == flag_with(flags(gossip), dest, add.len() > 0),
{
    assert(keys(flags(gossip)) =~= keys(gossip));
    crate::table::lemma_first_named_found(keys(gossip), dest);
    match first_named(keys(gossip), dest) {
        Some(i) => {
            lemma_extend_unseen_empty(gossip[i].1, add);
        },
        None => {
            lemma_extend_unseen_empty(Seq::empty(), add);
        },
    }
    assert(flags(gossip_with(gossip, dest, add)) =~= flag_with(flags(gossip), dest, add.len() > 0));
}

pub(crate) proof fn lemma_retry_step(
    g0: Seq<(Seq<char>, Seq<u32>)>,
    p0: Seq<(Seq<char>, Seq<(u32, u32)>)>,
    i: int,
)
    requires
        0 <= i < p0.len(),
    ensures
        flags(gossip_after(g0, p0.take(i + 1))) == flag_with(
            flags(gossip_after(g0, p0.take(i))),
            p0[i].0,
            p0[i].1.len() > 0,
        ),
{
    assert(p0.take(i + 1).drop_last() =~= p0.take(i));
    lemma_flags_gossip_with(gossip_after(g0, p0.take(i)), p0[i].0, message_values(p0[i].1));
}

/// A retry sends exactly the queues that are not empty, in table order:
/// one batch for each destination whose queue holds something, with that
/// queue, and none for the others. The batch count that
/// `MessageBroadcast::retry_batches` reports is their number.
pub proof fn law_retry_sends_every_nonempty_queue(table: Seq<(Seq<char>, Seq<u32>)>)
    ensures
        outgoing(table) == table.filter(|e: (Seq<char>, Seq<u32>)| e.1.len() > 0),
        forall|i: int|
            0 <= i < table.len() && table[i].1.len() > 0 ==> #[trigger] outgoing(table).contains(
                table[i],
            ),
        forall|e: (Seq<char>, Seq<u32>)|
            #[trigger] outgoing(table).contains(e) ==> table.contains(e) && e.1.len() > 0,
        count_flagged(flags(table)) == outgoing(table).len(),
    decreases table.len(),
{
    let pred = |e: (Seq<char>, Seq<u32>)| e.1.len() > 0;
    reveal(Seq::filter);
    lemma_outgoing_count(table);
    if table.len() > 0 {
        law_retry_sends_every_nonempty_queue(table.drop_last());
    }
    assert(outgoing(table) == table.filter(pred));
    broadcast use vstd::seq_lib::group_filter_ensures;
    assert forall|e: (Seq<char>, Seq<u32>)| #[trigger] outgoing(table).contains(e) implies table.contains(
        e,
    ) && e.1.len() > 0 by {
        table.lemma_filter_contains_rev(pred, e);
        let k = choose|k: int| 0 <= k < table.filter(pred).len() && table.filter(pred)[k] == e;
        assert(pred(table.filter(pred)[k]));
    }
}

/// After a batch is acknowledged, a queue keeps exactly the messages it
/// held that are not in the batch, in their order.
pub proof fn law_ack_sync_keeps_the_rest(list: Seq<u32>, gone: Seq<u32>)
    ensures
        without_values(list, gone) == list.filter(|x: u32| !gone.contains(x)),
        forall|x: u32|
            #[trigger] without_values(list, gone).contains(x) <==> list.contains(x) && !gone.contains(
                x,
            ),
    decreases list.len(),
{
    let pred = |x: u32| !gone.contains(x);
    reveal(Seq::filter);
    if list.len() > 0 {
        law_ack_sync_keeps_the_rest(list.drop_last(), gone);
    }
    assert(without_values(list, gone) == list.filter(pred));
    broadcast use vstd::seq_lib::group_filter_ensures;
    assert forall|x: u32|
        #[trigger] without_values(list, gone).contains(x) <==> list.contains(x) && !gone.contains(
            x,
        ) by {
        if list.filter(pred).contains(x) {
            list.lemma_filter_contains_rev(pred, x);
            let k = choose|k: int| 0 <= k < list.filter(pred).len() && list.filter(pred)[k] == x;
            assert(pred(list.filter(pred)[k]));
        }
        if list.contains(x) && !gone.contains(x) {
            let k = choose|k: int| 0 <= k < list.len() && list[k] == x;
            list.lemma_filter_contains(pred, k);
        }
    }
}

/// Acknowledging a batch from `from` leaves queued for `from` exactly what
/// was queued for it and is not in the batch; every other destination's
/// queue and every name stay as they were.
pub proof fn law_ack_sync_queue(
    gossip: Seq<(Seq<char>, Seq<u32>)>,
    from: Seq<char>,
    messages: Seq<u32>,
)
    requires
        keys(gossip).no_duplicates(),
    ensures
        gossip_after_ack(gossip, from, messages).len() == gossip.len(),
        forall|k: int|
            0 <= k < gossip.len() ==> (#[trigger] gossip_after_ack(gossip, from, messages)[k]).0
                == gossip[k].0,
        forall|k: int|
            0 <= k < gossip.len() && gossip[k].0 != from ==> #[trigger] gossip_after_ack(
                gossip,
                from,
                messages,
            )[k] == gossip[k],
        forall|k: int, x: u32|
            0 <= k < gossip.len() && gossip[k].0 == from ==> (#[trigger] gossip_after_ack(
                gossip,
                from,
                messages,
            )[k].1.contains(x) <==> gossip[k].1.contains(x) && !messages.contains(x)),
{
    crate::table::lemma_first_named_found(keys(gossip), from);
    match first_named(keys(gossip), from) {
        Some(i) => {
            law_ack_sync_keeps_the_rest(gossip[i].1, messages);
            assert forall|k: int| 0 <= k < gossip.len() && gossip[k].0 == from implies k == i by {
                assert(keys(gossip)[k] == keys(gossip)[i]);
            }
        },
        None => {
            assert forall|k: int| 0 <= k < gossip.len() implies gossip[k].0 != from by {
                if gossip[k].0 == from {
                    assert(keys(gossip)[k] == from);
                    crate::table::lemma_not_named_converse(keys(gossip), from, k);
                }
            }
        },
    }
}

/// Taking one element out by swapping the last one into its place keeps
/// every other element: as a multiset, exactly that element is gone.
proof fn lemma_swap_removed_multiset(list: Seq<(u32, u32)>, p: int)
    requires
        0 <= p < list.len(),
    ensures
        swap_removed(list, p).to_multiset() == list.to_multiset().remove(list[p]),
        swap_removed(list, p).len() == list.len() - 1,
{
    broadcast use vstd::seq_lib::group_to_multiset_ensures;
    broadcast use vstd::multiset::group_multiset_axioms;

    let s = list.update(p, list.last());
    assert(s.drop_last() =~= s.remove(s.len() - 1));
    assert(s.last() == list.last());
    assert(s.to_multiset() == list.to_multiset().insert(list.last()).remove(list[p]));
    assert(s.drop_last().to_multiset() == s.to_multiset().remove(list.last()));
    assert(list.to_multiset().insert(list.last()).remove(list[p]).remove(list.last())
        =~= list.to_multiset().remove(list[p]));
}

/// The smallest position of a message numbered `msg_id` at or before `k`.
proof fn earliest_with_id(list: Seq<(u32, u32)>, msg_id: u32, k: int) -> (m: int)
    requires
        0 <= k < list.len(),
        list[k].0 == msg_id,
    ensures
        0 <= m <= k,
        list[m].0 == msg_id,
        forall|j: int| 0 <= j < m ==> list[j].0 != msg_id,
    decreases k,
{
    if exists|j: int| 0 <= j < k && list[j].0 == msg_id {
        let j = choose|j: int| 0 <= j < k && list[j].0 == msg_id;
        earliest_with_id(list, msg_id, j)
    } else {
        k
    }
}

/// Acknowledging request `msg_id` from `from` removes exactly one pending
/// message for `from`, the first one numbered `msg_id`, and keeps every
/// other pending message of every destination; if none is numbered
/// `msg_id`, nothing changes.
pub proof fn law_ack_removes_exactly_one(
    pending: Seq<(Seq<char>, Seq<(u32, u32)>)>,
    from: Seq<char>,
    msg_id: u32,
)
    requires
        keys(pending).no_duplicates(),
    ensures
        pending_after_ack(pending, from, msg_id).len() == pending.len(),
        forall|k: int|
            0 <= k < pending.len() ==> (#[trigger] pending_after_ack(pending, from, msg_id)[k]).0
                == pending[k].0,
        forall|k: int|
            0 <= k < pending.len() && pending[k].0 != from ==> #[trigger] pending_after_ack(
                pending,
                from,
                msg_id,
            )[k] == pending[k],
        forall|k: int|
            0 <= k < pending.len() && pending[k].0 == from ==> {
                let before = pending[k].1;
                let after = (#[trigger] pending_after_ack(pending, from, msg_id)[k]).1;
                if exists|q: int| 0 <= q < before.len() && before[q].0 == msg_id {
                    exists|p: int|
                        0 <= p < before.len() && before[p].0 == msg_id && (forall|q: int|
                            0 <= q < p ==> before[q].0 != msg_id) && after.len() == before.len() - 1
                            && after.to_multiset() == before.to_multiset().remove(before[p])
                } else {
                    after == before
                }
            },
{
    crate::table::lemma_first_named_found(keys(pending), from);
    match first_named(keys(pending), from) {
        Some(i) => {
            assert forall|k: int| 0 <= k < pending.len() && pending[k].0 == from implies k == i by {
                assert(keys(pending)[k] == keys(pending)[i]);
            }
            let before = pending[i].1;
            if exists|q: int| 0 <= q < before.len() && before[q].0 == msg_id {
                let q0 = choose|q: int| 0 <= q < before.len() && before[q].0 == msg_id;
                let p = earliest_with_id(before, msg_id, q0);
                lemma_first_with_id(before, msg_id, p);
                lemma_swap_removed_multiset(before, p);
            }
        },
        None => {
            assert forall|k: int| 0 <= k < pending.len() implies pending[k].0 != from by {
                if pending[k].0 == from {
                    assert(keys(pending)[k] == from);
                    crate::table::lemma_not_named_converse(keys(pending), from, k);
                }
            }
        },
    }
}

/// A message reaching `current` from `exclude` goes on to exactly the
/// neighbours of `current` other than `current` and `exclude`.
pub proof fn law_forwards_to_every_other_neighbour(
    topology: Seq<Seq<char>>,
    current: Seq<char>,
    exclude: Seq<char>,
)
    ensures
        forall|x: Seq<char>|
            #[trigger] forward_targets(topology, current, exclude).contains(x) <==> topology.contains(
                x,
            ) && x != current && x != exclude,
{
    crate::toplogy::law_without_name_keeps_the_rest(topology, current);
    crate::toplogy::law_without_name_keeps_the_rest(without_name(topology, current), exclude);
}

} // verus!
