use vstd::prelude::*;

verus! {

/// An application message exchanged over the overlay: a caller-assigned
/// identifier and opaque payload bytes.
#[derive(Debug, Clone)]
pub struct GossipMessage {
    pub id: u64,
    pub payload: Vec<u8>,
}

impl GossipMessage {
    pub fn new(id: u64, payload: Vec<u8>) -> (r: GossipMessage)
        ensures
            r.id == id,
            r.payload@ == payload@,
    {
        GossipMessage { id, payload }
    }
}

} // verus!
