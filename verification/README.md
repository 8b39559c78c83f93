# rustdis

A node of a gossip-based broadcast service, written in Verus. The node
answers echo, unique-id, broadcast, read and sync requests; it forwards every
broadcast message it sees for the first time to its neighbours, keeps what it
sent until the receiver acknowledges it, and resends unacknowledged messages
in batches on every retry tick.

- `src/` is the verified library: the message types (`lib.rs`), the received
  set and the acknowledgement tables (`broadcast.rs`), the neighbour table
  (`toplogy.rs`), identifier generation (`unique_ids.rs`), the JSON text
  of replies (`json.rs`), request handling
  (`message_consumer.rs`), the output loop's step (`socket_consumer.rs`) and
  the start-up messages (`init.rs`). Tables keyed by node name live in
  `table.rs`; the pure model of the received set and of the retransmission
  tables, with its laws, is `gossip.rs`.
- `app/` is the program around it: JSON reading and writing with serde, the
  tokio tasks, and the retry timer.
- `tests/` runs the library on concrete messages.
