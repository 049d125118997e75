//! Response types of the local control surface.
//!
//! The control surface itself (transport, subscriptions, request routing)
//! lives outside this crate; these are the replies its requests carry.

use vstd::prelude::*;

verus! {

/// Reply to an `is_connected` request.
#[derive(Debug, Clone, Copy, PartialEq, Eq, Structural)]
pub struct IsConnectedResponse(pub bool);

/// Acknowledgement of a `challenge_peer` request.
#[derive(Debug, Clone, Copy, PartialEq, Eq, Structural)]
pub struct ChallengePeerResponse;

/// Acknowledgement of an `accept_peer_challenge` request.
#[derive(Debug, Clone, Copy, PartialEq, Eq, Structural)]
pub struct AcceptPeerChallengeResponse;

} // verus!
