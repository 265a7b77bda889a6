use smoothie::config::{Config, ConfigError, ConfigPatch};
use smoothie::decimal::{to_decimal, to_decimal_pad2};
use smoothie::netsim::{
    AsId, BgpSessionType, ConfigExpr, ConfigExprKey, ConfigModifier, Prefix, RouteMap,
    RouteMapDirection, RouterId,
};
use smoothie::network::{Network, NetworkError};

fn igp(s: usize, t: usize, w: u32) -> ConfigExpr {
    ConfigExpr::IgpLinkWeight { source: RouterId(s), target: RouterId(t), weight: w }
}

fn session(s: usize, t: usize) -> ConfigExpr {
    ConfigExpr::BgpSession {
        source: RouterId(s),
        target: RouterId(t),
        session_type: BgpSessionType::IBgpPeer,
    }
}

fn config_of(exprs: &[ConfigExpr]) -> Config {
    let mut c = Config::new();
    for e in exprs {
        c.add(*e).unwrap();
    }
    c
}

fn same_config(a: &Config, b: &Config, keys: &[ConfigExprKey]) -> bool {
    a.len() == b.len() && keys.iter().all(|k| a.get(*k) == b.get(*k))
}

#[test]
fn decimal_rendering() {
    assert_eq!(to_decimal(0), "0");
    assert_eq!(to_decimal(7), "7");
    assert_eq!(to_decimal(42), "42");
    assert_eq!(to_decimal(1234567890), "1234567890");
    assert_eq!(to_decimal(u64::MAX), u64::MAX.to_string());
    assert_eq!(to_decimal_pad2(0), "00");
    assert_eq!(to_decimal_pad2(5), "05");
    assert_eq!(to_decimal_pad2(42), "42");
    assert_eq!(to_decimal_pad2(100), "100");
}

#[test]
fn session_key_is_undirected() {
    assert_eq!(session(3, 1).key(), session(1, 3).key());
    assert_eq!(
        session(3, 1).key(),
        ConfigExprKey::BgpSession { speaker_a: RouterId(1), speaker_b: RouterId(3) }
    );
    assert_ne!(igp(3, 1, 1).key(), igp(1, 3, 1).key());
}

#[test]
fn config_add_get_and_overload() {
    let mut c = Config::new();
    assert_eq!(c.len(), 0);
    assert!(c.add(igp(0, 1, 5)).is_ok());
    assert!(c.add(session(0, 1)).is_ok());
    assert_eq!(c.len(), 2);
    assert_eq!(c.get(igp(0, 1, 0).key()), Some(igp(0, 1, 5)));
    // same key, other weight: refused, configuration unchanged
    assert_eq!(c.add(igp(0, 1, 7)), Err(ConfigError::ConfigExprOverload));
    assert_eq!(c.add(session(1, 0)), Err(ConfigError::ConfigExprOverload));
    assert_eq!(c.len(), 2);
    assert_eq!(c.get(igp(0, 1, 0).key()), Some(igp(0, 1, 5)));
    assert_eq!(c.get(igp(1, 0, 0).key()), None);
}

#[test]
fn config_diff_orders_removals_inserts_updates() {
    let a = config_of(&[igp(0, 1, 1), igp(1, 0, 1), session(0, 1), igp(1, 2, 3)]);
    let b = config_of(&[igp(1, 2, 6), session(0, 2), igp(0, 1, 1), igp(2, 1, 4)]);
    let patch = a.get_diff(&b);
    assert_eq!(
        patch.modifiers,
        vec![
            ConfigModifier::Remove(igp(1, 0, 1)),
            ConfigModifier::Remove(session(0, 1)),
            ConfigModifier::Insert(session(0, 2)),
            ConfigModifier::Insert(igp(2, 1, 4)),
            ConfigModifier::Update { from: igp(1, 2, 3), to: igp(1, 2, 6) },
        ]
    );
}

#[test]
fn law_diff_then_apply_reaches_target() {
    let a = config_of(&[igp(0, 1, 1), igp(1, 0, 1), session(0, 1), igp(1, 2, 3)]);
    let b = config_of(&[igp(1, 2, 6), session(0, 2), igp(0, 1, 1), igp(2, 1, 4)]);
    let patch = a.get_diff(&b);
    let mut c = a.copy();
    assert!(c.apply_patch(&patch).is_ok());
    let keys: Vec<ConfigExprKey> = [
        igp(0, 1, 1),
        igp(1, 0, 1),
        session(0, 1),
        igp(1, 2, 3),
        session(0, 2),
        igp(2, 1, 4),
    ]
    .iter()
    .map(|e| e.key())
    .collect();
    assert!(same_config(&c, &b, &keys));
}

#[test]
fn law_diff_with_itself_is_empty() {
    let a = config_of(&[igp(0, 1, 1), session(0, 1)]);
    assert!(a.get_diff(&a.copy()).modifiers.is_empty());
    assert!(Config::new().get_diff(&Config::new()).modifiers.is_empty());
}

#[test]
fn apply_modifier_errors() {
    let mut c = config_of(&[igp(0, 1, 1)]);
    assert_eq!(
        c.apply_modifier(&ConfigModifier::Insert(igp(0, 1, 2))),
        Err(ConfigError::ConfigExprOverload)
    );
    let rm = ConfigModifier::Remove(igp(0, 1, 2));
    assert_eq!(c.apply_modifier(&rm), Err(ConfigError::ConfigModifierError(rm)));
    let up = ConfigModifier::Update { from: igp(0, 1, 1), to: igp(1, 0, 2) };
    assert_eq!(c.apply_modifier(&up), Err(ConfigError::ConfigModifierError(up)));
    let up2 = ConfigModifier::Update { from: igp(0, 1, 3), to: igp(0, 1, 2) };
    assert_eq!(c.apply_modifier(&up2), Err(ConfigError::ConfigModifierError(up2)));
    assert_eq!(c.get(igp(0, 1, 0).key()), Some(igp(0, 1, 1)));
    assert!(c.apply_modifier(&ConfigModifier::Update { from: igp(0, 1, 1), to: igp(0, 1, 2) }).is_ok());
    assert_eq!(c.get(igp(0, 1, 0).key()), Some(igp(0, 1, 2)));
    assert!(c.apply_modifier(&ConfigModifier::Remove(igp(0, 1, 2))).is_ok());
    assert_eq!(c.len(), 0);
}

#[test]
fn apply_patch_stops_at_first_misfit() {
    let mut c = Config::new();
    let patch = ConfigPatch {
        modifiers: vec![
            ConfigModifier::Insert(igp(0, 1, 1)),
            ConfigModifier::Insert(igp(0, 1, 2)),
            ConfigModifier::Insert(igp(1, 0, 1)),
        ],
    };
    assert_eq!(c.apply_patch(&patch), Err(ConfigError::ConfigExprOverload));
    assert_eq!(c.len(), 1);
    assert_eq!(c.get(igp(0, 1, 0).key()), Some(igp(0, 1, 1)));
}

#[test]
fn network_routers_and_lookup() {
    let mut net = Network::new();
    let e = net.add_external_router("e".to_string(), AsId(1));
    let a = net.add_router("a".to_string());
    let b = net.add_router("b".to_string());
    assert_eq!((e, a, b), (RouterId(0), RouterId(1), RouterId(2)));
    net.add_link(a, b);
    assert_eq!(net.get_router_id("b").unwrap(), RouterId(2));
    match net.get_router_id("zz") {
        Err(NetworkError::DeviceNameNotFound(n)) => assert_eq!(n, "zz"),
        other => panic!("unexpected {:?}", other),
    }
    assert_eq!(net.get_router_name(a).unwrap(), "a");
    assert!(matches!(net.get_router_name(RouterId(9)), Err(NetworkError::DeviceNotFound(RouterId(9)))));
    assert_eq!(net.get_routers(), vec![RouterId(1), RouterId(2)]);
}

#[test]
fn network_advertise_and_prefixes() {
    let mut net = Network::new();
    let e = net.add_external_router("e".to_string(), AsId(1));
    let a = net.add_router("a".to_string());
    assert!(matches!(
        net.advertise_external_route(RouterId(5), Prefix(0), vec![], None, None),
        Err(NetworkError::DeviceNotFound(RouterId(5)))
    ));
    assert!(matches!(
        net.advertise_external_route(a, Prefix(0), vec![], None, None),
        Err(NetworkError::DeviceIsInternalRouter(RouterId(1)))
    ));
    assert!(net.get_known_prefixes().is_empty());
    net.advertise_external_route(e, Prefix(3), vec![AsId(1)], None, None).unwrap();
    net.advertise_external_route(e, Prefix(1), vec![AsId(1)], Some(5), None).unwrap();
    net.advertise_external_route(e, Prefix(3), vec![AsId(1), AsId(2)], None, Some(7)).unwrap();
    assert_eq!(net.get_known_prefixes(), vec![Prefix(3), Prefix(1)]);
}

#[test]
fn network_set_config_checks_routers() {
    let mut net = Network::new();
    net.add_router("a".to_string());
    net.add_router("b".to_string());
    let bad = config_of(&[igp(0, 1, 1), session(1, 4)]);
    assert!(matches!(net.set_config(&bad), Err(NetworkError::DeviceNotFound(RouterId(4)))));
    assert_eq!(net.current_config().len(), 0);
    let good = config_of(&[igp(0, 1, 1), session(1, 0)]);
    assert!(net.set_config(&good).is_ok());
    assert_eq!(net.current_config().len(), 2);
    let map = ConfigExpr::BgpRouteMap {
        router: RouterId(7),
        direction: RouteMapDirection::Outgoing,
        map: RouteMap { order: 1, allow: false, match_neighbor: None, set_local_pref: None },
    };
    assert!(matches!(
        net.set_config(&config_of(&[map])),
        Err(NetworkError::DeviceNotFound(RouterId(7)))
    ));
    // several missing routers: the one with the least index is reported
    let many = config_of(&[session(9, 0), igp(1, 6, 1), session(5, 8)]);
    assert!(matches!(net.set_config(&many), Err(NetworkError::DeviceNotFound(RouterId(5)))));
    assert_eq!(many.missing_router(2), Some(RouterId(5)));
    assert_eq!(many.missing_router(6), Some(RouterId(6)));
    assert_eq!(many.missing_router(10), None);
    let copy = net.copy();
    assert_eq!(copy.current_config().len(), 2);
    assert_eq!(copy.get_router_name(RouterId(1)).unwrap(), "b");
}

#[test]
fn law_decimal_rendering_is_injective() {
    let texts: Vec<String> = (0..200u64).map(to_decimal).collect();
    for i in 0..texts.len() {
        for j in 0..texts.len() {
            assert_eq!(i == j, texts[i] == texts[j]);
        }
    }
    let padded: Vec<String> = (0..200u64).map(to_decimal_pad2).collect();
    for i in 0..padded.len() {
        for j in 0..padded.len() {
            assert_eq!(i == j, padded[i] == padded[j]);
        }
    }
}
