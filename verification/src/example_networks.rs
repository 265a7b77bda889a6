//! Chain gadgets of fixed sizes: `ChainNGadget<N>` has `N` routers in its line and takes 100
//! steps; `ChainKGadget<K>` has 500 routers in its line and takes `K` steps.
use vstd::prelude::*;
use crate::chain::{chain_config, chain_final_config, chain_initial_config, chain_len, chain_names, chain_net, is_chain_network, reachability_policy};
use crate::config::Config;
use crate::network::{Network, internal_routers};
use crate::policy::HardPolicy;
use crate::smoothie_chain::count_of;

verus! {

/// The chain gadget with `N` routers in its line, reconfigured in 100 steps.
pub struct ChainNGadget<const N: usize> {}

/// The chain gadget with 500 routers in its line, reconfigured in `K` steps.
pub struct ChainKGadget<const K: usize> {}

impl<const N: usize> ChainNGadget<N> {
    /// The network in its initial configuration.
    pub fn net(initial_variant: usize) -> (net: Network)
        requires
            chain_len(N as nat) + 4 <= usize::MAX,
        ensures
            is_chain_network(net, N as nat),
    {
        chain_net(N)
    }

    /// The initial configuration.
    pub fn initial_config(net: &Network, variant: usize) -> (c: Config)
        requires
            chain_len(N as nat) + 4 <= usize::MAX,
            net.router_names() == chain_names(chain_len(N as nat)),
        ensures
            c@ == chain_config(N as nat, 0),
    {
        chain_initial_config(net, N)
    }

    /// The final configuration: the first 100 routers of the line get a session to `b00`.
    pub fn final_config(net: &Network, variant: usize) -> (c: Config)
        requires
            chain_len(N as nat) + 4 <= usize::MAX,
            100 <= chain_len(N as nat),
            net.router_names() == chain_names(chain_len(N as nat)),
        ensures
            c@ == chain_config(N as nat, 100),
    {
        chain_final_config(net, N, 100)
    }

    /// Reachability of every known prefix from every internal router.
    pub fn get_policy(net: &Network, variant: usize) -> (p: HardPolicy)
        ensures
            p.routers@ == internal_routers(net.router_ases()),
            p.prefixes@ == net.known_prefixes(),
    {
        reachability_policy(net)
    }
}

/// Law: for a line of `n` routers, a count that an `i32` holds, the gadget of `n` routers in
/// 100 steps has the network and the configurations that the smoothie chain gadget builds for
/// `n as i32` routers and 100 steps.
pub proof fn lemma_chain_n_is_smoothie_chain(n: usize)
    requires
        n <= i32::MAX,
    ensures
        count_of(n as i32) == n,
        chain_names(chain_len(n as nat)) == chain_names(chain_len(count_of(n as i32))),
        chain_config(n as nat, 0) == chain_config(count_of(n as i32), 0),
        chain_config(n as nat, 100) == chain_config(count_of(n as i32), count_of(100i32)),
{
}

/// Law: for `k` steps, at most 500, the gadget of 500 routers in `k` steps has the network and
/// the configurations that the smoothie chain gadget builds for 500 routers and `k as i32`
/// steps.
pub proof fn lemma_chain_k_is_smoothie_chain(k: usize)
    requires
        k <= 500,
    ensures
        count_of(500i32) == 500,
        count_of(k as i32) == k,
        chain_config(500, 0) == chain_config(count_of(500i32), 0),
        chain_config(500, k as nat) == chain_config(count_of(500i32), count_of(k as i32)),
{
}

impl<const K: usize> ChainKGadget<K> {
    /// The network in its initial configuration.
    pub fn net(initial_variant: usize) -> (net: Network)
        ensures
            is_chain_network(net, 500),
    {
        chain_net(500)
    }

    /// The initial configuration.
    pub fn initial_config(net: &Network, variant: usize) -> (c: Config)
        requires
            net.router_names() == chain_names(500),
        ensures
            c@ == chain_config(500, 0),
    {
        chain_initial_config(net, 500)
    }

    /// The final configuration: the first `K` routers of the line get a session to `b00`.
    pub fn final_config(net: &Network, variant: usize) -> (c: Config)
        requires
            K <= 500,
            net.router_names() == chain_names(500),
        ensures
            c@ == chain_config(500, K as nat),
    {
        chain_final_config(net, 500, K)
    }

    /// Reachability of every known prefix from every internal router.
    pub fn get_policy(net: &Network, variant: usize) -> (p: HardPolicy)
        ensures
            p.routers@ == internal_routers(net.router_ases()),
            p.prefixes@ == net.known_prefixes(),
    {
        reachability_policy(net)
    }
}

} // verus!
