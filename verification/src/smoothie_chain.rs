//! The chain gadget with a variable number of routers and of reconfiguration steps: a line
//! of routers between two border routers, each of which receives the same advertisement;
//! the reconfiguration adds iBGP sessions from the first `num_steps` routers of the line to
//! the first border router.
use vstd::prelude::*;
use crate::chain::{chain_config, chain_final_config, chain_initial_config, chain_len, chain_names, chain_net, chain_ases, is_chain_network, reachability_policy};
use crate::config::Config;
use crate::netsim::Prefix;
use crate::network::{Network, internal_routers};
use crate::policy::HardPolicy;

verus! {

/// A signed count, with negative counts taken as zero.
pub open spec fn count_of(x: i32) -> nat {
    if x > 0 { x as nat } else { 0 }
}

fn to_count(x: i32) -> (c: usize)
    ensures
        c == count_of(x),
{
    if x > 0 { x as usize } else { 0 }
}

/// A chain gadget with its network, its initial and final configurations and its policy.
pub struct SmoothieChainGadget {
    pub num_routers: i32,
    pub num_steps: i32,
    pub network: Network,
    pub initial_config: Config,
    pub final_config: Config,
    pub hard_policy: HardPolicy,
}

impl SmoothieChainGadget {
    /// The chain gadget with `num_routers` routers (at least one) in the line, whose
    /// reconfiguration takes `num_steps` steps.
    pub fn new(num_routers: i32, num_steps: i32) -> (g: SmoothieChainGadget)
        requires
            count_of(num_steps) <= chain_len(count_of(num_routers)),
        ensures
            g.num_routers == num_routers,
            g.num_steps == num_steps,
            is_chain_network(g.network, count_of(num_routers)),
            g.initial_config@ == chain_config(count_of(num_routers), 0),
            g.final_config@ == chain_config(count_of(num_routers), count_of(num_steps)),
            g.hard_policy.routers@ == internal_routers(chain_ases(chain_len(count_of(num_routers)))),
            g.hard_policy.prefixes@ == seq![Prefix(0)],
    {
        let network = Self::net(num_routers);
        let initial_config = network.current_config().copy();
        let final_config = Self::final_config(&network, num_routers, num_steps);
        let hard_policy = Self::get_policy(&network);
        SmoothieChainGadget { num_routers, num_steps, network, initial_config, final_config, hard_policy }
    }

    fn net(num_routers: i32) -> (net: Network)
        ensures
            is_chain_network(net, count_of(num_routers)),
    {
        chain_net(to_count(num_routers))
    }

    /// The initial configuration of the chain gadget with `num_routers` routers.
    pub fn initial_config(net: &Network, num_routers: i32) -> (c: Config)
        requires
            net.router_names() == chain_names(chain_len(count_of(num_routers))),
        ensures
            c@ == chain_config(count_of(num_routers), 0),
    {
        chain_initial_config(net, to_count(num_routers))
    }

    /// The final configuration of the chain gadget with `num_routers` routers and
    /// `num_steps` steps.
    pub fn final_config(net: &Network, num_routers: i32, num_steps: i32) -> (c: Config)
        requires
            net.router_names() == chain_names(chain_len(count_of(num_routers))),
            count_of(num_steps) <= chain_len(count_of(num_routers)),
        ensures
            c@ == chain_config(count_of(num_routers), count_of(num_steps)),
    {
        chain_final_config(net, to_count(num_routers), to_count(num_steps))
    }

    fn get_policy(net: &Network) -> (p: HardPolicy)
        ensures
            p.routers@ == internal_routers(net.router_ases()),
            p.prefixes@ == net.known_prefixes(),
    {
        reachability_policy(net)
    }
}

} // verus!
