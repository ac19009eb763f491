//! Reachability of the bootstrap nodes of a peer-to-peer network.
//!
//! A run reads a list of nodes, probes each node with a short-lived network
//! session, collects the nodes worth reporting and may send the report by
//! mail. This crate holds the decisions of such a run: reading node records
//! out of text, deciding when a probe is over and how it ended, collecting
//! the report and composing the mail. Network sessions, files and mail
//! transport belong to the caller, which feeds what they give in as plain
//! values.

mod clock;
pub mod mail;
pub mod node;
pub mod probe;
pub mod report;
pub mod text;
