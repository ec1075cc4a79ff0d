//! The identity of a client attached to the host.
use vstd::prelude::*;

verus! {

/// A client attached to the host. The host numbers its clients in the order
/// they come, from 1, and never reuses a number.
#[derive(Debug, Clone, Copy, PartialEq, Eq, Hash, PartialOrd, Ord, Structural)]
pub struct ClientId(u64);

impl ClientId {
    /// The client that the host numbered `n`.
    pub fn numbered(n: u64) -> (id: ClientId)
        ensures
            id.get_spec() == n,
    {
        ClientId(n)
    }

    pub closed spec fn get_spec(self) -> u64 {
        self.0
    }

    #[verifier::when_used_as_spec(get_spec)]
    pub fn get(self) -> (n: u64)
        ensures
            n == self.get_spec(),
    {
        self.0
    }
}

}
