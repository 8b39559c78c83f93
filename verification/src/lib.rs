//! A node of a gossip-based broadcast service: it keeps the messages it has
//! seen, forwards new ones to its neighbours, and retransmits what its
//! neighbours have not acknowledged yet.

use vstd::prelude::*;

pub mod broadcast;
pub mod gossip;
pub mod init;
pub mod json;
pub mod message_consumer;
pub mod socket_consumer;
pub mod table;
pub mod toplogy;
pub mod unique_ids;

verus! {

/// A request that arrives at, or leaves, this node.
#[derive(Debug, Clone)]
pub struct RequestMessage {
    pub src: String,
    pub dest: String,
    pub body: RequestBody,
    pub id: u32,
}

/// The body of a request: its number and what it asks for.
#[derive(Debug, Clone)]
pub struct RequestBody {
    pub msg_id: u32,
    pub payload: RequestPayload,
}

/// What a request asks for.
#[derive(Debug, Clone)]
pub enum RequestPayload {
    Echo { echo: String },
    Init { node_id: String, node_ids: Vec<String> },
    Generate,
    Broadcast(Broadcast),
    Read,
    Topology(Topology),
    Sync(Sync),
}

/// The neighbours of each node, one entry per node name.
#[derive(Debug, Clone)]
pub struct Topology {
    pub topology: Vec<(String, Vec<String>)>,
}

/// One message to spread over the network.
#[derive(Debug, Clone, PartialEq, Eq, Hash)]
pub struct Broadcast {
    pub message: u32,
}

/// A batch of messages that one node hands to another.
#[derive(Debug, Clone, PartialEq, Eq, Hash, Default)]
pub struct Sync {
    pub message: Vec<u32>,
}

/// The body of a reply.
#[derive(Debug)]
pub struct ResponseBody {
    pub msg_id: u32,
    pub in_reply_to: u32,
    pub payload: ResponsePayload,
}

/// What a reply says.
#[derive(Debug)]
pub enum ResponsePayload {
    EchoOk { echo: String },
    InitOk,
    GenerateOk { id: String },
    BroadcastOk,
    ReadOk { messages: Vec<u32> },
    TopologyOk,
    SyncOk { messages: Vec<u32> },
}

/// A request this node is to send to `dest`.
#[derive(Debug)]
pub struct BroadcastRequest {
    pub dest: String,
    pub sync: BroadcastPayload,
}

/// What this node forwards to a neighbour.
#[derive(Debug)]
pub enum BroadcastPayload {
    Broadcast(Broadcast),
    Sync(Sync),
}

/// A batch of unacknowledged messages for one neighbour.
#[derive(Debug)]
pub struct SyncGossip {
    pub dest: String,
    pub sync: RequestPayload,
}

/// The events that the node's output loop handles.
#[derive(Debug)]
pub enum Message {
    Response { payload: ResponsePayload, request: RequestMessage },
    Request(BroadcastRequest),
    Ack(ResponseMessage),
    Log(String),
    Retry,
}

/// What the output loop writes out.
#[derive(Debug)]
pub enum Log {
    Response(ResponseMessage),
    Request(RequestMessage),
    Requests(Vec<RequestMessage>),
    Log(String),
}

/// A reply, sent by this node or received from a neighbour.
#[derive(Debug)]
pub struct ResponseMessage {
    pub src: String,
    pub dest: String,
    pub body: ResponseBody,
}

} // verus!
