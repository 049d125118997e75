//! Two-party commit-reveal negotiation of a shared match seed over a
//! peer-to-peer overlay.
//!
//! The crate is organised around three components:
//!
//! * [`codec`] — the framed wire format: a tagged union of five payload
//!   variants, length-prefixed on the substream.
//! * [`handler`] — the per-connection state machine that turns behaviour
//!   commands into outbound frames and inbound frames into events.
//! * [`behaviour`] — the process-wide challenge state machine: per-peer
//!   inbound and outbound challenge slots, the commit-reveal logic,
//!   timeouts, and the queue of actions for the overlay runtime.
//!
//! Supporting modules: [`crypto`] (digest and random-draw primitives),
//! [`peer_table`] (a small association table keyed by peer id), and
//! [`api`] (control-surface response types).

pub mod api;
pub mod behaviour;
pub mod codec;
pub mod crypto;
pub mod handler;
pub mod peer_table;
