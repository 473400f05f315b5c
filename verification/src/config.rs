//! Server configuration; reading and parsing the configuration file is
//! the transport's job.

use vstd::prelude::*;

verus! {

/// The address the transport listens on.
pub struct Config {
    pub address: String,
}

impl Config {
    pub fn new(address: String) -> (r: Config)
        ensures
            r.address@ == address@,
    {
        Config { address }
    }
}

} // verus!
