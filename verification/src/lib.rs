//! A read-only TFTP server library for network boot.
//!
//! The protocol engine lives here: the wire-format codec for TFTP
//! packets, the path normalizer that prevents directory traversal, and
//! the pure per-connection state machine that drives a transfer.  All
//! I/O (sockets, clocks, the real filesystem) stays with the caller,
//! which feeds events in and carries responses out.

pub mod bytes;
pub mod path;
pub mod simple_fs;
pub mod simple_proto;
pub mod tftp;
pub mod tftp_proto;
