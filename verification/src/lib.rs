//! Session establishment and multipath transport core of an obfuscated,
//! encrypted datagram tunnel over unreliable channels.
//!
//! A client handshakes with a known server (cookie-protected hellos, retried
//! under exponential backoff, judged by [`handshake`]), then sustains the
//! session over several parallel physical paths ("shards"), each of which
//! periodically re-announces itself and rotates its socket ([`backhaul`]).
//! The server routes inbound datagrams through a two-level registry from
//! physical address to resumption token to session ([`table`]), and outbound
//! emission is throttled by a drift-free timer ([`pacer`]).
//!
//! This crate holds the decision and bookkeeping logic with its proofs; the
//! sockets, clocks, locks and task spawning that drive it live with the
//! surrounding program, which feeds clock readings and raced events in and
//! performs the planned actions.

pub mod backhaul;
pub mod handshake;
pub mod keys;
pub mod pacer;
pub mod table;
pub mod shard_map;
pub mod types;
