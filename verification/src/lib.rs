//! Core of a peer-to-peer VPN node: the peer set with its address indices,
//! the claim table that drives forwarding decisions, the reconnect list with
//! exponential backoff, per-peer traffic counters, the wire codec for the UDP
//! message frame, and the engine that binds them into a protocol state
//! machine.  All I/O (sockets, the network device, timers, DNS, signal
//! handling) stays outside: callers hand in received messages, parsed inner
//! addresses and the current time, and get back the sends and writes to
//! perform.

pub mod addr;
pub mod claim_table;
pub mod codec;
pub mod engine;
pub mod peer_list;
pub mod reconnect;
mod rng;
pub mod seq_help;
pub mod traffic;
