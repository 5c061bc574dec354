//! The arguments of the gossip driver.
use vstd::prelude::*;

verus! {

/// Where the beacon node listens unless told otherwise.
pub const LOCALHOST_BEACON_RPC_URL: &'static str = "http://localhost:9596/";

/// Where the portal client listens unless told otherwise.
pub const LOCALHOST_PORTAL_RPC_URL: &'static str = "http://localhost:8545/";

/// What the gossip driver is started with.
#[derive(Debug, Clone, PartialEq, Eq)]
pub struct Args {
    /// The number of slots to gossip after the genesis.
    pub slots: u64,
    pub beacon_rpc_url: String,
    pub portal_rpc_url: String,
}

impl Args {
    /// The arguments for `slots` slots with both services on this machine.
    pub fn new(slots: u64) -> (r: Self)
        ensures
            r.slots == slots,
            r.beacon_rpc_url@ == LOCALHOST_BEACON_RPC_URL@,
            r.portal_rpc_url@ == LOCALHOST_PORTAL_RPC_URL@,
    {
        Args {
            slots,
            beacon_rpc_url: LOCALHOST_BEACON_RPC_URL.to_owned(),
            portal_rpc_url: LOCALHOST_PORTAL_RPC_URL.to_owned(),
        }
    }
}

} // verus!
