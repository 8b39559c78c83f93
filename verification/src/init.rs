use vstd::prelude::*;

use crate::toplogy::{same_table, TopologyState, TopologyTrait};
use crate::{Message, RequestMessage, RequestPayload, ResponsePayload, Topology};

verus! {

/// A copy of a neighbour table.
fn clone_table(table: &Vec<(String, Vec<String>)>) -> (copy: Vec<(String, Vec<String>)>)
    ensures
        same_table(copy@, table@),
{
    let mut copy: Vec<(String, Vec<String>)> = Vec::new();
    let mut i: usize = 0;
    while i < table.len()
        invariant
            i <= table@.len(),
            copy@.len() == i,
            forall|j: int|
                0 <= j < i ==> (#[trigger] copy@[j]).0 == table@[j].0 && copy@[j].1@ == table@[j].1@,
        decreases table.len() - i,
    {
        let name = table[i].0.clone();
        let list = table[i].1.clone();
        assert(list@ =~= table@[i as int].1@);
        copy.push((name, list));
        i = i + 1;
    }
    copy
}

/// Takes the first message a node receives: an init message names the node
/// and is answered with `init_ok`; anything else is refused with `None`.
pub fn accept_init(msg: RequestMessage) -> (accepted: Option<(String, Message)>)
    ensures
        accepted == (match msg.body.payload {
            RequestPayload::Init { node_id, .. } => Some(
                (node_id, Message::Response { payload: ResponsePayload::InitOk, request: msg }),
            ),
            _ => None,
        }),
{
    match &msg.body.payload {
        RequestPayload::Init { node_id, .. } => {
            let node_id = node_id.clone();
            Some((node_id, Message::Response { payload: ResponsePayload::InitOk, request: msg }))
        },
        _ => None,
    }
}

/// Takes the second message a node receives: a topology message is adopted
/// and answered with `topology_ok`; anything else is refused with `None`
/// and leaves the topology as it was.
pub fn accept_topology(topology_state: &mut TopologyState, msg: RequestMessage) -> (reply: Option<
    Message,
>)
    requires
        msg.body.payload matches RequestPayload::Topology(t) ==> t.well_formed(),
    ensures
        match msg.body.payload {
            RequestPayload::Topology(t) => {
                &&& reply == Some(
                    Message::Response { payload: ResponsePayload::TopologyOk, request: msg },
                )
                &&& same_table(final(topology_state).0@, t.topology@)
                &&& final(topology_state).well_formed()
                &&& forall|node: Seq<char>| #[trigger]
                    final(topology_state).neighbours(node) == t.neighbours(node)
            },
            _ => reply is None && *final(topology_state) == *old(topology_state),
        },
{
    match &msg.body.payload {
        RequestPayload::Topology(topology) => {
            let table = clone_table(&topology.topology);
            let ghost t = *topology;
            let ghost copy = table@;
            assert(crate::table::names(copy) =~= crate::table::names(t.topology@));
            topology_state.handle_toplogy(Topology { topology: table });
            assert forall|node: Seq<char>| #[trigger]
                topology_state.neighbours(node) == t.neighbours(node) by {
                let made = Topology { topology: table };
                assert(topology_state.neighbours(node) == crate::toplogy::table_neighbours(copy, node));
                crate::table::lemma_first_named_found(crate::table::names(copy), node);
                match crate::table::first_named(crate::table::names(copy), node) {
                    Some(i) => {
                        assert(0 <= i < copy.len());
                        assert(copy[i].1@ == t.topology@[i].1@);
                    },
                    None => {},
                }
            }
            Some(Message::Response { payload: ResponsePayload::TopologyOk, request: msg })
        },
        _ => None,
    }
}

} // verus!
