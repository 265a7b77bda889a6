# smoothie

A verified model of network reconfiguration experiments.

- `src/netsim.rs`, `src/config.rs`: configuration expressions, their keys, configurations
  (at most one expression per key), the difference of two configurations and the
  application of modifiers. IGP link weights are whole numbers.
- `src/network.rs`: a network as a store of routers, links, configuration and advertised
  routes; routing is not computed.
- `src/chain.rs`, `src/smoothie_chain.rs`, `src/example_networks.rs`: the chain gadgets and
  their initial and final configurations.
- `src/printer.rs`, `src/decimal.rs`: text of configuration changes, with router names.
- `src/prefer_ordering.rs`: the soft policy that prefers one modifier before another.
- `src/exhaustive_tree.rs`: the exhaustive depth-first search over orderings, as a state
  machine that a driver feeds with the results of applying and undoing modifiers; it answers
  with the first working ordering in the order of the modifiers' indices.
- `src/arguments.rs`, `src/scenarios.rs`, `src/acquisition.rs`: network selections, their
  description and the problems they stand for.
- `app/`: the command-line driver, including the preference and acquisition experiments.
