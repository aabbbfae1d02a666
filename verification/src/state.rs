use vstd::prelude::*;

use crate::addr::PeerAddr;

verus! {

/// What a client program remembers about its network situation.
pub struct State {
    /// The address the client is connected to, if any.
    pub address: Option<PeerAddr>,
}

impl Default for State {
    /// A client state that is connected nowhere yet.
    fn default() -> (s: Self)
        ensures
            s.address is None,
    {
        State { address: None }
    }
}

} // verus!
