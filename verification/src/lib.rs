//! A verified model of network reconfiguration problems: routers, configurations and
//! their differences, chain-shaped benchmark topologies, the textual rendering of
//! configuration changes, an ordering soft policy and the exhaustive tree search over
//! reconfiguration orderings.
pub mod decimal;
pub mod netsim;
pub mod config;
pub mod network;
pub mod policy;
pub mod chain;
pub mod smoothie_chain;
pub mod example_networks;
pub mod printer;
pub mod prefer_ordering;
pub mod exhaustive_tree;
pub mod arguments;
pub mod scenarios;
pub mod acquisition;
