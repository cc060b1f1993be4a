//! What the handshake learns from the authentication collaborator.
//!
//! Issuing and checking credentials happens elsewhere. This core sees only
//! the outcome: the identity of the remote, or none.

use vstd::prelude::*;

verus! {

/// Who is at the other end of a connection, as the authenticator established it.
#[derive(Clone, Copy, Debug, PartialEq, Eq, Hash, Structural)]
pub struct Identity {
    pub user_id: u64,
}

} // verus!
