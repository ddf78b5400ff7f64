//! Message handlers for the nodes of a gossip network.
//!
//! Every node is a state machine: it takes one inbound envelope at a time
//! and answers with the envelopes to send. Nothing here reads a clock or
//! writes to a transport; the caller passes the time in and sends what comes
//! back, so each handler is a function of its arguments alone.
//!
//! * [`envelope`]: the addressed wrapper of every message.
//! * [`echo`], [`uid_generation`]: the two nodes without a protocol of
//!   their own.
//! * [`delivered`], [`pending_table`], [`dissemination`]: the dissemination
//!   node, the set of values it has taken in, and the table of its sends.
//! * [`guarantees`], [`network`], [`transport`], [`completion`]: what is
//!   proved of one dissemination node, of many, of many with the messages
//!   between them, and of how a value comes to rest.
//! * [`grow_only_counter`], [`store`]: the counter node, and what it
//!   achieves together with the key-value store.

pub mod completion;
pub mod delivered;
pub mod dissemination;
pub mod echo;
pub mod envelope;
pub mod grow_only_counter;
pub mod guarantees;
pub mod network;
pub mod pending_table;
pub mod store;
pub mod transport;
pub mod uid_generation;
