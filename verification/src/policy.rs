//! Hard policies that every intermediate state of a reconfiguration must satisfy.
use vstd::prelude::*;
use crate::netsim::{Prefix, RouterId};

verus! {

/// The reachability policy: every listed router reaches every listed prefix, in every state.
pub struct HardPolicy {
    pub routers: Vec<RouterId>,
    pub prefixes: Vec<Prefix>,
}

impl HardPolicy {
    /// The policy that each of `routers` can reach each of `prefixes`.
    pub fn reachability(routers: &Vec<RouterId>, prefixes: &Vec<Prefix>) -> (p: HardPolicy)
        ensures
            p.routers@ == routers@,
            p.prefixes@ == prefixes@,
    {
        HardPolicy { routers: routers.clone(), prefixes: prefixes.clone() }
    }
}

} // verus!
