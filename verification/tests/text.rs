use smoothie::arguments::{file_name, NetworkSelection, Scenario};
use smoothie::netsim::{
    AsId, BgpSessionType, ConfigExpr, ConfigModifier, Prefix, RouteMap, RouteMapDirection,
    RouterId,
};
use smoothie::network::{Network, NetworkError};
use smoothie::printer::{config_expr, config_modifier, route_map};

fn small_net() -> Network {
    let mut net = Network::new();
    net.add_external_router("e00".to_string(), AsId(65100));
    net.add_router("b00".to_string());
    net.add_router("r00".to_string());
    net
}

#[test]
fn config_expr_text() {
    let net = small_net();
    let igp = ConfigExpr::IgpLinkWeight { source: RouterId(0), target: RouterId(2), weight: 10 };
    assert_eq!(config_expr(&net, &igp).unwrap(), "IGP Link Weight: e00 -> r00: 10");
    let ebgp = ConfigExpr::BgpSession { source: RouterId(0), target: RouterId(1), session_type: BgpSessionType::EBgp };
    assert_eq!(config_expr(&net, &ebgp).unwrap(), "eBGP Session: e00 -> b00");
    let client = ConfigExpr::BgpSession { source: RouterId(2), target: RouterId(1), session_type: BgpSessionType::IBgpClient };
    assert_eq!(config_expr(&net, &client).unwrap(), "iBGP Client Session: r00 -> b00");
    let stat = ConfigExpr::StaticRoute { router: RouterId(1), prefix: Prefix(3), target: RouterId(2) };
    assert_eq!(config_expr(&net, &stat).unwrap(), "Static Route: b00: Prefix 3 via r00");
    let rm = ConfigExpr::BgpRouteMap {
        router: RouterId(1),
        direction: RouteMapDirection::Incoming,
        map: RouteMap { order: 10, allow: true, match_neighbor: Some(RouterId(0)), set_local_pref: Some(200) },
    };
    assert_eq!(config_expr(&net, &rm).unwrap(), "BGP Route Map on b00 [in]: allow Neighbor e00; LocalPref = 200.");
}

#[test]
fn route_map_text_variants() {
    let net = small_net();
    let deny = RouteMap { order: 1, allow: false, match_neighbor: None, set_local_pref: None };
    assert_eq!(route_map(&net, &deny).unwrap(), "deny  *.");
    let lp = RouteMap { order: 1, allow: true, match_neighbor: None, set_local_pref: Some(50) };
    assert_eq!(route_map(&net, &lp).unwrap(), "allow *; LocalPref = 50.");
    let out = ConfigExpr::BgpRouteMap { router: RouterId(2), direction: RouteMapDirection::Outgoing, map: deny };
    assert_eq!(config_expr(&net, &out).unwrap(), "BGP Route Map on r00 [out]: deny  *.");
}

#[test]
fn route_map_unknown_neighbor() {
    let net = small_net();
    let map = RouteMap { order: 1, allow: true, match_neighbor: Some(RouterId(9)), set_local_pref: None };
    assert!(matches!(route_map(&net, &map), Err(NetworkError::DeviceNotFound(RouterId(9)))));
    let e = ConfigExpr::BgpRouteMap { router: RouterId(1), direction: RouteMapDirection::Incoming, map };
    assert!(matches!(config_expr(&net, &e), Err(NetworkError::DeviceNotFound(RouterId(9)))));
    assert!(matches!(
        config_modifier(&net, &ConfigModifier::Insert(e)),
        Err(NetworkError::DeviceNotFound(RouterId(9)))
    ));
}

#[test]
fn unknown_router_reported_in_printing_order() {
    let net = small_net();
    let igp = ConfigExpr::IgpLinkWeight { source: RouterId(7), target: RouterId(8), weight: 1 };
    assert!(matches!(config_expr(&net, &igp), Err(NetworkError::DeviceNotFound(RouterId(7)))));
    let igp = ConfigExpr::IgpLinkWeight { source: RouterId(1), target: RouterId(8), weight: 1 };
    assert!(matches!(config_expr(&net, &igp), Err(NetworkError::DeviceNotFound(RouterId(8)))));
    let s = ConfigExpr::BgpSession { source: RouterId(5), target: RouterId(1), session_type: BgpSessionType::IBgpPeer };
    assert!(matches!(config_expr(&net, &s), Err(NetworkError::DeviceNotFound(RouterId(5)))));
    let st = ConfigExpr::StaticRoute { router: RouterId(2), prefix: Prefix(0), target: RouterId(3) };
    assert!(matches!(config_expr(&net, &st), Err(NetworkError::DeviceNotFound(RouterId(3)))));
    let map = RouteMap { order: 1, allow: true, match_neighbor: Some(RouterId(9)), set_local_pref: None };
    let rm = ConfigExpr::BgpRouteMap { router: RouterId(6), direction: RouteMapDirection::Incoming, map };
    assert!(matches!(config_expr(&net, &rm), Err(NetworkError::DeviceNotFound(RouterId(6)))));
    assert!(matches!(
        config_modifier(&net, &ConfigModifier::Update { from: st, to: igp }),
        Err(NetworkError::DeviceNotFound(RouterId(8)))
    ));
}

#[test]
fn config_modifier_text() {
    let net = small_net();
    let a = ConfigExpr::IgpLinkWeight { source: RouterId(1), target: RouterId(2), weight: 1 };
    let b = ConfigExpr::IgpLinkWeight { source: RouterId(1), target: RouterId(2), weight: 2 };
    assert_eq!(config_modifier(&net, &ConfigModifier::Insert(a)).unwrap(), "+ IGP Link Weight: b00 -> r00: 1");
    assert_eq!(config_modifier(&net, &ConfigModifier::Remove(a)).unwrap(), "- IGP Link Weight: b00 -> r00: 1");
    assert_eq!(
        config_modifier(&net, &ConfigModifier::Update { from: a, to: b }).unwrap(),
        "m IGP Link Weight: b00 -> r00: 2"
    );
}

#[test]
fn scenario_names() {
    assert_eq!(Scenario::FullMesh2RouteReflector.name(), "FullMesh2RouteReflector");
    assert_eq!(Scenario::DoubleIgpWeight.name(), "DoubleIgpWeight");
    assert_eq!(Scenario::VerifyTransientConditionReverse.name(), "VerifyTransientConditionReverse");
    assert_eq!(Scenario::DoubleRouteReflector.name(), "DoubleRouteReflector");
}

#[test]
fn law_scenario_names_are_distinct() {
    let all = [
        Scenario::FullMesh2RouteReflector,
        Scenario::RouteReflector2FullMesh,
        Scenario::DoubleIgpWeight,
        Scenario::HalveIgpWeight,
        Scenario::DoubleLocalPref,
        Scenario::HalveLocalPref,
        Scenario::IntroduceSecondRouteReflector,
        Scenario::RemoveSecondRouteReflector,
        Scenario::NetworkAcquisition,
        Scenario::NetworkSplit,
        Scenario::DisconnectRouter,
        Scenario::ConnectRouter,
        Scenario::VerifyTransientCondition,
        Scenario::VerifyTransientConditionReverse,
        Scenario::DoubleRouteReflector,
    ];
    for a in all.iter() {
        for b in all.iter() {
            assert_eq!(a == b, a.name() == b.name());
        }
    }
    assert_eq!(Scenario::NetworkSplit.name(), "NetworkSplit");
}

#[test]
fn file_name_of_path() {
    assert_eq!(file_name("/a/b/Abilene.gml"), "Abilene.gml");
    assert_eq!(file_name("Abilene.gml"), "Abilene.gml");
    assert_eq!(file_name("dir/"), "");
    assert_eq!(file_name(""), "");
}

#[test]
fn network_selection_repr() {
    assert_eq!(NetworkSelection::CustomNetwork.repr(), "Custom Network");
    let zoo = NetworkSelection::TopologyZoo {
        gml_file: "/topology_zoo/Abilene.gml".to_string(),
        seed: 42,
        many_prefixes: false,
        random_root: true,
        scenario: Scenario::FullMesh2RouteReflector,
    };
    assert_eq!(zoo.repr(), "Abilene.gml, s=42, FullMesh2RouteReflector, single-prefix, random-root");
    let zoo2 = NetworkSelection::TopologyZoo {
        gml_file: "Arnes.gml".to_string(),
        seed: 0,
        many_prefixes: true,
        random_root: false,
        scenario: Scenario::NetworkSplit,
    };
    assert_eq!(zoo2.repr(), "Arnes.gml, s=0, NetworkSplit");
    let ex = NetworkSelection::ExampleNetwork {
        initial_variant: 2,
        final_variant: Some(3),
        repetitions: Some(10),
        topology: "ChainGadget".to_string(),
    };
    assert_eq!(ex.repr(), "ChainGadget, initial_variant=2, final_variant=3, rep=10");
    let ex2 = NetworkSelection::ExampleNetwork {
        initial_variant: 0,
        final_variant: None,
        repetitions: None,
        topology: "SimpleNet".to_string(),
    };
    assert_eq!(ex2.repr(), "SimpleNet");
}
