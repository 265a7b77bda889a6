//! From a network selection to the problem to solve: what to build, with which parameters,
//! and the check of a final configuration against a network.
use vstd::prelude::*;
use crate::arguments::{NetworkSelection, Scenario};
use crate::config::{Config, config_routers_below, least_missing_router};
use crate::netsim::ConfigExprKey;
use crate::network::{Network, NetworkError};

verus! {

/// A topology-zoo reconfiguration problem: the GML file and seed of the network, the
/// scenario, whether the iBGP roots are random, the largest link weight, the number of
/// prefixes per external router and the percentage probability with which each is advertised.
pub struct ZooScenario {
    pub gml_file: String,
    pub seed: u64,
    pub scenario: Scenario,
    pub random_root: bool,
    pub max_link_weight: u32,
    pub num_prefixes: usize,
    pub prefix_probability_percent: u32,
}

/// The problem that a network selection describes.
pub enum TopologyRequest {
    /// A topology-zoo network and scenario.
    TopologyZoo(ZooScenario),
    /// An example network, by topology name, variants and repetition count.
    ExampleNetwork {
        topology: String,
        initial_variant: usize,
        final_variant: Option<usize>,
        repetitions: Option<usize>,
    },
}

/// The topology-zoo problem for a GML file: link weights up to 100; with many prefixes,
/// five per external router, each advertised with probability 50%; else one, always.
pub fn topology_zoo_scenario(
    gml_file: String,
    seed: u64,
    many_prefixes: bool,
    random_root: bool,
    scenario: Scenario,
) -> (z: ZooScenario)
    ensures
        z.gml_file@ == gml_file@,
        z.seed == seed,
        z.scenario == scenario,
        z.random_root == random_root,
        z.max_link_weight == 100,
        z.num_prefixes == (if many_prefixes { 5usize } else { 1usize }),
        z.prefix_probability_percent == (if many_prefixes { 50u32 } else { 100u32 }),
{
    ZooScenario {
        gml_file,
        seed,
        scenario,
        random_root,
        max_link_weight: 100,
        num_prefixes: if many_prefixes { 5 } else { 1 },
        prefix_probability_percent: if many_prefixes { 50 } else { 100 },
    }
}

/// The problem that a selection describes. The custom network has no problem defined, so it
/// may not be selected.
pub fn get_topo(args: NetworkSelection) -> (r: TopologyRequest)
    requires
        !(args is CustomNetwork),
    ensures
        match args {
            NetworkSelection::TopologyZoo { gml_file, seed, many_prefixes, random_root, scenario } =>
                r matches TopologyRequest::TopologyZoo(z) && z.gml_file@ == gml_file@ && z.seed == seed
                && z.scenario == scenario && z.random_root == random_root && z.max_link_weight == 100
                && z.num_prefixes == (if many_prefixes { 5usize } else { 1usize })
                && z.prefix_probability_percent == (if many_prefixes { 50u32 } else { 100u32 }),
            NetworkSelection::ExampleNetwork { initial_variant, final_variant, repetitions, topology } =>
                r matches TopologyRequest::ExampleNetwork { topology: t, initial_variant: i, final_variant: f, repetitions: p }
                && t@ == topology@ && i == initial_variant && f == final_variant && p == repetitions,
            NetworkSelection::CustomNetwork => false,
        },
{
    match args {
        NetworkSelection::CustomNetwork => {
            proof {
                assert(false);
            }
            TopologyRequest::ExampleNetwork {
                topology: String::new(),
                initial_variant: 0,
                final_variant: None,
                repetitions: None,
            }
        },
        NetworkSelection::TopologyZoo { gml_file, seed, many_prefixes, random_root, scenario } =>
            TopologyRequest::TopologyZoo(
            topology_zoo_scenario(gml_file, seed, many_prefixes, random_root, scenario),
        ),
        NetworkSelection::ExampleNetwork { topology, initial_variant, final_variant, repetitions } =>
            TopologyRequest::ExampleNetwork { topology, initial_variant, final_variant, repetitions },
    }
}

/// Checks that `final_config` can be set on (a copy of) `net`. A computation that loops or
/// does not converge does not count as a failure.
pub fn check_config(net: &Network, final_config: &Config) -> (r: Result<(), NetworkError>)
    ensures
        r is Ok <==> config_routers_below(final_config@, net.num_routers()),
        r matches Err(e) ==> exists|x: crate::netsim::RouterId|
            e == NetworkError::DeviceNotFound(x) && least_missing_router(
                final_config@,
                net.num_routers(),
                x,
            ),
{
    let mut copy = net.copy();
    match copy.set_config(final_config) {
        Ok(()) => Ok(()),
        Err(NetworkError::ConvergenceLoop) => Ok(()),
        Err(NetworkError::NoConvergence) => Ok(()),
        Err(e) => Err(e),
    }
}

} // verus!
