use smoothie::chain::{chain_final_config, chain_initial_config, chain_net};
use smoothie::example_networks::{ChainKGadget, ChainNGadget};
use smoothie::netsim::{BgpSessionType, ConfigExpr, ConfigModifier, Prefix, RouterId};
use smoothie::printer::{config_expr, config_modifier};
use smoothie::smoothie_chain::SmoothieChainGadget;

fn b00_session(i: usize) -> ConfigModifier {
    ConfigModifier::Insert(ConfigExpr::BgpSession {
        source: RouterId(i + 4),
        target: RouterId(2),
        session_type: BgpSessionType::IBgpPeer,
    })
}

#[test]
fn smoothie_chain_small() {
    let g = SmoothieChainGadget::new(3, 2);
    assert_eq!(g.num_routers, 3);
    assert_eq!(g.num_steps, 2);
    let names: Vec<String> = (0..7)
        .map(|i| g.network.get_router_name(RouterId(i)).unwrap().to_string())
        .collect();
    assert_eq!(names, vec!["e00", "e01", "b00", "b01", "r00", "r01", "r02"]);
    assert!(g.network.get_router_name(RouterId(7)).is_err());
    // 7 border expressions, 2 per link along the chain, 2 to b01, 3 sessions to b01
    assert_eq!(g.initial_config.len(), 18);
    assert_eq!(g.final_config.len(), 20);
    assert_eq!(g.network.current_config().len(), 18);
    assert_eq!(g.hard_policy.routers, (2..7).map(RouterId).collect::<Vec<_>>());
    assert_eq!(g.hard_policy.prefixes, vec![Prefix(0)]);
    assert_eq!(g.network.get_known_prefixes(), vec![Prefix(0)]);
}

#[test]
fn law_chain_patch_has_one_insert_per_step() {
    let g = SmoothieChainGadget::new(3, 2);
    let patch = g.initial_config.get_diff(&g.final_config);
    assert_eq!(patch.modifiers, vec![b00_session(0), b00_session(1)]);
    let g = SmoothieChainGadget::new(20, 10);
    let patch = g.initial_config.get_diff(&g.final_config);
    assert_eq!(patch.modifiers, (0..10).map(b00_session).collect::<Vec<_>>());
}

#[test]
fn smoothie_chain_text_of_patch() {
    let g = SmoothieChainGadget::new(12, 11);
    let patch = g.initial_config.get_diff(&g.final_config);
    assert_eq!(patch.modifiers.len(), 11);
    assert_eq!(
        config_modifier(&g.network, &patch.modifiers[10]).unwrap(),
        "+ iBGP Peer Session: r10 -> b00"
    );
    assert_eq!(g.network.get_router_id("r10").unwrap(), RouterId(14));
    assert_eq!(g.network.get_router_id("r11").unwrap(), RouterId(15));
}

#[test]
fn printer_names_on_smoothie_chain() {
    let net = SmoothieChainGadget::new(1, 0).network;
    let igp = ConfigExpr::IgpLinkWeight { source: RouterId(2), target: RouterId(4), weight: 1 };
    assert_eq!(config_expr(&net, &igp).unwrap(), "IGP Link Weight: b00 -> r00: 1");
    let stat = ConfigExpr::StaticRoute { router: RouterId(4), prefix: Prefix(7), target: RouterId(2) };
    assert_eq!(config_expr(&net, &stat).unwrap(), "Static Route: r00: Prefix 7 via b00");
    let ebgp = ConfigExpr::BgpSession { source: RouterId(0), target: RouterId(2), session_type: BgpSessionType::EBgp };
    assert_eq!(config_modifier(&net, &ConfigModifier::Remove(ebgp)).unwrap(), "- eBGP Session: e00 -> b00");
}

#[test]
fn smoothie_chain_edge_counts() {
    // no routers asked for: the line still has r00, and there are no sessions to b01
    let g = SmoothieChainGadget::new(0, 0);
    assert_eq!(g.network.get_router_name(RouterId(4)).unwrap(), "r00");
    assert!(g.network.get_router_name(RouterId(5)).is_err());
    assert_eq!(g.initial_config.len(), 11);
    assert_eq!(g.final_config.len(), 11);
    let g = SmoothieChainGadget::new(-4, 1);
    assert_eq!(g.initial_config.len(), 11);
    assert_eq!(g.final_config.len(), 12);
    let g = SmoothieChainGadget::new(5, -3);
    assert!(g.initial_config.get_diff(&g.final_config).modifiers.is_empty());
}

#[test]
fn chain_hundred_one_routers_names() {
    let net = chain_net(101);
    assert_eq!(net.get_router_id("r99").unwrap(), RouterId(103));
    assert_eq!(net.get_router_id("r100").unwrap(), RouterId(104));
    assert_eq!(net.get_router_id("r09").unwrap(), RouterId(13));
    let init = chain_initial_config(&net, 101);
    let fin = chain_final_config(&net, 101, 101);
    assert_eq!(init.get_diff(&fin).modifiers.len(), 101);
}

#[test]
fn chain_n_gadget() {
    let net = ChainNGadget::<120>::net(0);
    let init = ChainNGadget::<120>::initial_config(&net, 0);
    let fin = ChainNGadget::<120>::final_config(&net, 0);
    let patch = init.get_diff(&fin);
    assert_eq!(patch.modifiers, (0..100).map(b00_session).collect::<Vec<_>>());
    let policy = ChainNGadget::<120>::get_policy(&net, 0);
    assert_eq!(policy.routers.len(), 122);
}

#[test]
fn chain_k_gadget() {
    let net = ChainKGadget::<3>::net(0);
    assert_eq!(net.get_router_id("r499").unwrap(), RouterId(503));
    let init = ChainKGadget::<3>::initial_config(&net, 0);
    let fin = ChainKGadget::<3>::final_config(&net, 0);
    assert_eq!(init.len(), 9 + 2 * 500 + 500);
    assert_eq!(init.get_diff(&fin).modifiers, (0..3).map(b00_session).collect::<Vec<_>>());
    let policy = ChainKGadget::<3>::get_policy(&net, 0);
    assert_eq!(policy.prefixes, vec![Prefix(0)]);
}

#[test]
fn law_chain_step_adds_one_session() {
    for n in 1..6i32 {
        for k in 0..n {
            let a = SmoothieChainGadget::new(n, k);
            let b = SmoothieChainGadget::new(n, k + 1);
            let nu = n as usize;
            let ku = k as usize;
            assert_eq!(a.final_config.len(), 9 + 3 * nu + ku);
            assert_eq!(b.final_config.len(), a.final_config.len() + 1);
            assert_eq!(a.final_config.get_diff(&b.final_config).modifiers, vec![b00_session(ku)]);
        }
    }
}

#[test]
fn law_fixed_size_gadgets_match_smoothie_chain() {
    let net = ChainNGadget::<120>::net(0);
    let fin = ChainNGadget::<120>::final_config(&net, 0);
    let smoothie = SmoothieChainGadget::final_config(&net, 120, 100);
    assert_eq!(fin.get_diff(&smoothie).modifiers.len(), 0);
    assert_eq!(fin.len(), smoothie.len());
    let net = ChainKGadget::<7>::net(0);
    let fin = ChainKGadget::<7>::final_config(&net, 0);
    let smoothie = SmoothieChainGadget::final_config(&net, 500, 7);
    assert_eq!(fin.get_diff(&smoothie).modifiers.len(), 0);
    let init = ChainKGadget::<7>::initial_config(&net, 0);
    assert_eq!(init.get_diff(&SmoothieChainGadget::initial_config(&net, 500)).modifiers.len(), 0);
}
