//! The selection of a network and a reconfiguration scenario, and its description.
use vstd::prelude::*;
use vstd::string::StrSliceExecFns;
use crate::decimal::{dec, to_decimal};

verus! {

/// The reconfiguration scenarios of the topology-zoo networks.
#[derive(Clone, Copy, Debug, PartialEq, Eq, Structural)]
pub enum Scenario {
    /// From an iBGP full mesh to a single route reflector to which all others pair.
    FullMesh2RouteReflector,
    /// From a single route reflector to an iBGP full mesh.
    RouteReflector2FullMesh,
    /// Every IGP weight is doubled.
    DoubleIgpWeight,
    /// Every IGP weight is halved.
    HalveIgpWeight,
    /// Every local preference is doubled.
    DoubleLocalPref,
    /// Every local preference is halved.
    HalveLocalPref,
    /// A second route reflector is added as a backup.
    IntroduceSecondRouteReflector,
    /// The second route reflector is removed.
    RemoveSecondRouteReflector,
    /// Two connected components are merged by adding the links between them.
    NetworkAcquisition,
    /// The reverse of the network acquisition.
    NetworkSplit,
    /// A non-border router is disconnected by setting its link weights to infinity.
    DisconnectRouter,
    /// A non-border router is connected by giving its links normal weights.
    ConnectRouter,
    /// A single modifier that adds an eBGP session.
    VerifyTransientCondition,
    /// A single modifier that removes an eBGP session.
    VerifyTransientConditionReverse,
    /// Two route reflectors.
    DoubleRouteReflector,
}

/// The name of a scenario.
pub open spec fn scenario_name(s: Scenario) -> Seq<char> {
    match s {
        Scenario::FullMesh2RouteReflector => "FullMesh2RouteReflector"@,
        Scenario::RouteReflector2FullMesh => "RouteReflector2FullMesh"@,
        Scenario::DoubleIgpWeight => "DoubleIgpWeight"@,
        Scenario::HalveIgpWeight => "HalveIgpWeight"@,
        Scenario::DoubleLocalPref => "DoubleLocalPref"@,
        Scenario::HalveLocalPref => "HalveLocalPref"@,
        Scenario::IntroduceSecondRouteReflector => "IntroduceSecondRouteReflector"@,
        Scenario::RemoveSecondRouteReflector => "RemoveSecondRouteReflector"@,
        Scenario::NetworkAcquisition => "NetworkAcquisition"@,
        Scenario::NetworkSplit => "NetworkSplit"@,
        Scenario::DisconnectRouter => "DisconnectRouter"@,
        Scenario::ConnectRouter => "ConnectRouter"@,
        Scenario::VerifyTransientCondition => "VerifyTransientCondition"@,
        Scenario::VerifyTransientConditionReverse => "VerifyTransientConditionReverse"@,
        Scenario::DoubleRouteReflector => "DoubleRouteReflector"@,
    }
}

/// Law: two scenarios have the same name exactly when they are the same scenario.
pub proof fn lemma_scenario_names_distinct(a: Scenario, b: Scenario)
    ensures
        scenario_name(a) == scenario_name(b) <==> a == b,
{
    reveal_strlit("FullMesh2RouteReflector");
    reveal_strlit("RouteReflector2FullMesh");
    reveal_strlit("DoubleIgpWeight");
    reveal_strlit("HalveIgpWeight");
    reveal_strlit("DoubleLocalPref");
    reveal_strlit("HalveLocalPref");
    reveal_strlit("IntroduceSecondRouteReflector");
    reveal_strlit("RemoveSecondRouteReflector");
    reveal_strlit("NetworkAcquisition");
    reveal_strlit("NetworkSplit");
    reveal_strlit("DisconnectRouter");
    reveal_strlit("ConnectRouter");
    reveal_strlit("VerifyTransientCondition");
    reveal_strlit("VerifyTransientConditionReverse");
    reveal_strlit("DoubleRouteReflector");
    if scenario_name(a) == scenario_name(b) {
        let (x, y) = (scenario_name(a), scenario_name(b));
        assert(x.len() == y.len());
        assert(x[0] == y[0]);
        assert(x[5] == y[5]);
        assert(x[6] == y[6]);
    }
}

impl Scenario {
    /// The name of the scenario.
    pub fn name(&self) -> (s: &'static str)
        ensures
            s@ == scenario_name(*self),
    {
        match self {
            Scenario::FullMesh2RouteReflector => "FullMesh2RouteReflector",
            Scenario::RouteReflector2FullMesh => "RouteReflector2FullMesh",
            Scenario::DoubleIgpWeight => "DoubleIgpWeight",
            Scenario::HalveIgpWeight => "HalveIgpWeight",
            Scenario::DoubleLocalPref => "DoubleLocalPref",
            Scenario::HalveLocalPref => "HalveLocalPref",
            Scenario::IntroduceSecondRouteReflector => "IntroduceSecondRouteReflector",
            Scenario::RemoveSecondRouteReflector => "RemoveSecondRouteReflector",
            Scenario::NetworkAcquisition => "NetworkAcquisition",
            Scenario::NetworkSplit => "NetworkSplit",
            Scenario::DisconnectRouter => "DisconnectRouter",
            Scenario::ConnectRouter => "ConnectRouter",
            Scenario::VerifyTransientCondition => "VerifyTransientCondition",
            Scenario::VerifyTransientConditionReverse => "VerifyTransientConditionReverse",
            Scenario::DoubleRouteReflector => "DoubleRouteReflector",
        }
    }
}

/// The network to work on.
pub enum NetworkSelection {
    /// The custom hard-coded network.
    CustomNetwork,
    /// A network of the Topology Zoo, read from a GML file.
    TopologyZoo {
        gml_file: String,
        seed: u64,
        many_prefixes: bool,
        random_root: bool,
        scenario: Scenario,
    },
    /// An example network: its topology by name, its variants and its repetition count.
    ExampleNetwork {
        initial_variant: usize,
        final_variant: Option<usize>,
        repetitions: Option<usize>,
        topology: String,
    },
}

/// The index of the last `/` of `s`, or -1.
pub open spec fn last_slash(s: Seq<char>) -> int
    decreases s.len(),
{
    if s.len() == 0 {
        -1
    } else if s.last() == '/' {
        s.len() - 1
    } else {
        last_slash(s.drop_last())
    }
}

/// What follows the last `/` of a path, or the whole path when it has none.
pub open spec fn last_segment(s: Seq<char>) -> Seq<char> {
    s.subrange(last_slash(s) + 1, s.len() as int)
}

proof fn lemma_last_slash_bounds(s: Seq<char>)
    ensures
        -1 <= last_slash(s) < s.len(),
    decreases s.len(),
{
    if s.len() > 0 {
        lemma_last_slash_bounds(s.drop_last());
    }
}

/// What follows the last `/` of `path`.
pub fn file_name(path: &str) -> (r: &str)
    ensures
        r@ == last_segment(path@),
{
    let n = path.unicode_len();
    let mut start: usize = 0;
    let mut i: usize = 0;
    while i < n
        invariant
            n == path@.len(),
            i <= n,
            start as int == last_slash(path@.take(i as int)) + 1,
        decreases n - i,
    {
        proof {
            assert(path@.take(i + 1).drop_last() =~= path@.take(i as int));
            assert(path@.take(i + 1).last() == path@[i as int]);
            lemma_last_slash_bounds(path@.take(i as int));
        }
        if path.get_char(i) == '/' {
            start = i + 1;
        }
        i = i + 1;
    }
    proof {
        assert(path@.take(n as int) =~= path@);
        lemma_last_slash_bounds(path@);
    }
    path.substring_char(start, n)
}

/// The text of the parts that are present.
pub open spec fn optional_text(present: bool, label: Seq<char>, n: nat) -> Seq<char> {
    if present { label + dec(n) } else { Seq::empty() }
}

/// The description of a network selection.
pub open spec fn selection_text(sel: NetworkSelection) -> Seq<char> {
    match sel {
        NetworkSelection::CustomNetwork => "Custom Network"@,
        NetworkSelection::TopologyZoo { gml_file, seed, many_prefixes, random_root, scenario } =>
            last_segment(gml_file@) + ", s="@ + dec(seed as nat) + ", "@ + scenario_name(scenario)
                + (if !many_prefixes { ", single-prefix"@ } else { ""@ }) + (if random_root {
                ", random-root"@
            } else {
                ""@
            }),
        NetworkSelection::ExampleNetwork { initial_variant, final_variant, repetitions, topology } =>
            topology@ + optional_text(initial_variant != 0, ", initial_variant="@, initial_variant as nat)
                + optional_text(final_variant is Some, ", final_variant="@, final_variant.unwrap_or(0) as nat)
                + optional_text(repetitions is Some, ", rep="@, repetitions.unwrap_or(0) as nat),
    }
}

impl NetworkSelection {
    /// A one-line description of the selected network.
    pub fn repr(&self) -> (s: String)
        ensures
            s@ == selection_text(*self),
    {
        match self {
            NetworkSelection::CustomNetwork => String::from_str("Custom Network"),
            NetworkSelection::TopologyZoo { gml_file, seed, many_prefixes, random_root, scenario } => {
                let mut s = String::from_str(file_name(gml_file.as_str()));
                s.append(", s=");
                let d = to_decimal(*seed);
                s.append(d.as_str());
                s.append(", ");
                s.append(scenario.name());
                if !*many_prefixes {
                    s.append(", single-prefix");
                } else {
                    s.append("");
                }
                if *random_root {
                    s.append(", random-root");
                } else {
                    s.append("");
                }
                s
            },
            NetworkSelection::ExampleNetwork { initial_variant, final_variant, repetitions, topology } => {
                let mut s = topology.clone();
                if *initial_variant != 0 {
                    s.append(", initial_variant=");
                    let d = to_decimal(*initial_variant as u64);
                    s.append(d.as_str());
                } else {
                    proof {
                        assert(s@ + optional_text(false, ", initial_variant="@, *initial_variant as nat) =~= s@);
                    }
                }
                match final_variant {
                    Some(f) => {
                        s.append(", final_variant=");
                        let d = to_decimal(*f as u64);
                        s.append(d.as_str());
                    },
                    None => {
                        proof {
                            assert(s@ + optional_text(false, ", final_variant="@, 0) =~= s@);
                        }
                    },
                }
                match repetitions {
                    Some(r) => {
                        s.append(", rep=");
                        let d = to_decimal(*r as u64);
                        s.append(d.as_str());
                    },
                    None => {
                        proof {
                            assert(s@ + optional_text(false, ", rep="@, 0) =~= s@);
                        }
                    },
                }
                s
            },
        }
    }
}


/// Law: the name of each scenario is the identifier of its own variant.
pub proof fn lemma_scenario_name_table()
    ensures
        scenario_name(Scenario::FullMesh2RouteReflector) == "FullMesh2RouteReflector"@,
        scenario_name(Scenario::RouteReflector2FullMesh) == "RouteReflector2FullMesh"@,
        scenario_name(Scenario::DoubleIgpWeight) == "DoubleIgpWeight"@,
        scenario_name(Scenario::HalveIgpWeight) == "HalveIgpWeight"@,
        scenario_name(Scenario::DoubleLocalPref) == "DoubleLocalPref"@,
        scenario_name(Scenario::HalveLocalPref) == "HalveLocalPref"@,
        scenario_name(Scenario::IntroduceSecondRouteReflector) == "IntroduceSecondRouteReflector"@,
        scenario_name(Scenario::RemoveSecondRouteReflector) == "RemoveSecondRouteReflector"@,
        scenario_name(Scenario::NetworkAcquisition) == "NetworkAcquisition"@,
        scenario_name(Scenario::NetworkSplit) == "NetworkSplit"@,
        scenario_name(Scenario::DisconnectRouter) == "DisconnectRouter"@,
        scenario_name(Scenario::ConnectRouter) == "ConnectRouter"@,
        scenario_name(Scenario::VerifyTransientCondition) == "VerifyTransientCondition"@,
        scenario_name(Scenario::VerifyTransientConditionReverse) == "VerifyTransientConditionReverse"@,
        scenario_name(Scenario::DoubleRouteReflector) == "DoubleRouteReflector"@,
{
}

} // verus!
