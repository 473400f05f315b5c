//! Connection-handler state; the websocket transport itself lives
//! outside the library.

use vstd::prelude::*;

verus! {

pub struct WSHandler {
    clients: usize,
}

impl WSHandler {
    pub closed spec fn spec_clients(&self) -> usize {
        self.clients
    }

    pub fn new() -> (r: WSHandler)
        ensures
            r.spec_clients() == 0,
    {
        WSHandler { clients: 0 }
    }
}

} // verus!
