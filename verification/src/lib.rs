//! The connection-handling core of a small fleet control plane.
//!
//! A root process admits nodes that connect, say `HELLO <id>` and come from
//! the address that the allow-list pairs with that id; it keeps a registry of
//! the nodes that are connected, and answers an operator's commands on a
//! local channel. This crate holds the decisions: [`handshake`] reads and
//! checks the handshake, [`session`] takes a connection from admission to
//! its end, [`registry`] is the record of who is connected, and [`control`]
//! answers the operator. Sockets, threads, locks and log files are the
//! caller's.

pub mod address;
mod clock;
pub mod config;
pub mod control;
pub mod handshake;
pub mod registry;
pub mod session;
pub mod text;
