use smoothie::config::Config;
use smoothie::exhaustive_tree::{
    ExhaustiveTreeStrategy, ModifierOrdering, StrategyError, TreeAction, TreeEvent,
};
use smoothie::netsim::{BgpSessionType, ConfigExpr, ConfigModifier, RouterId};
use smoothie::network::{Network, NetworkError};
use smoothie::prefer_ordering::PreferOrdering;
use smoothie::scenarios::{check_config, get_topo, topology_zoo_scenario, TopologyRequest};
use smoothie::arguments::{NetworkSelection, Scenario};

fn ins(i: usize) -> ConfigModifier {
    ConfigModifier::Insert(ConfigExpr::BgpSession {
        source: RouterId(i),
        target: RouterId(100),
        session_type: BgpSessionType::IBgpPeer,
    })
}

/// Drives a search: `works` judges the sequence applied so far.
fn drive(
    s: &mut ExhaustiveTreeStrategy,
    works: &dyn Fn(&[ConfigModifier]) -> bool,
    stop_after: Option<usize>,
) -> Result<Vec<ConfigModifier>, StrategyError> {
    let mut applied: Vec<ConfigModifier> = Vec::new();
    let mut checks = 0;
    let mut ev = TreeEvent::Start;
    loop {
        match s.step(ev) {
            TreeAction::Apply(m) => {
                applied.push(m);
                ev = TreeEvent::Applied(works(&applied));
            }
            TreeAction::Undo => {
                // at the root there is nothing left to undo
                applied.pop();
                ev = TreeEvent::Undone(Ok(()));
            }
            TreeAction::CheckStop => {
                checks += 1;
                let timed_out = stop_after.map_or(false, |n| checks >= n);
                ev = TreeEvent::Stop { timed_out, aborted: false };
            }
            TreeAction::Done(r) => return r,
        }
    }
}

#[test]
fn prefer_ordering_scenarios() {
    let (a, b, c) = (ins(1), ins(2), ins(3));
    let mut p = PreferOrdering::new_with_modifiers(a, b);
    assert!(!p.is_violated());
    p.update(&[]);
    assert!(!p.is_violated());
    p.update(&[c, a, b]);
    assert!(!p.is_violated());
    p.update(&[a]);
    assert!(!p.is_violated());
    p.update(&[c, b, a]);
    assert!(p.is_violated());
    // once violated, it stays so
    p.update(&[a, b]);
    assert!(p.is_violated());

    let mut q = PreferOrdering::new_with_modifiers(a, b);
    q.update(&[b]);
    assert!(q.is_violated());

    let mut same = PreferOrdering::new_with_modifiers(a, a);
    same.update(&[a, b, a]);
    assert!(!same.is_violated());
}

#[test]
fn tree_finds_first_ordering_and_all_valid_ones() {
    let mods = vec![ins(1), ins(2), ins(3)];
    let mut s = ExhaustiveTreeStrategy::new(mods.clone(), ModifierOrdering::NoOrdering);
    // ins(2) must come before ins(1)
    let works = |seq: &[ConfigModifier]| {
        let p1 = seq.iter().position(|m| *m == ins(1));
        let p2 = seq.iter().position(|m| *m == ins(2));
        match (p1, p2) {
            (Some(x), Some(y)) => y < x,
            (Some(_), None) => false,
            _ => true,
        }
    };
    let r = drive(&mut s, &works, None).unwrap();
    assert_eq!(r, vec![ins(2), ins(1), ins(3)]);
    assert_eq!(
        *s.all_valid_orderings(),
        vec![vec![ins(2), ins(1), ins(3)], vec![ins(2), ins(3), ins(1)], vec![ins(3), ins(2), ins(1)]]
    );
    // tries: 1x, 2, 2-1, 2-1-3, 2-3, 2-3-1, 3, 3-1x, 3-2, 3-2-1
    assert_eq!(s.num_states(), 10);
}

#[test]
fn law_tree_visits_each_node_once() {
    let works = |_: &[ConfigModifier]| true;
    let mut s = ExhaustiveTreeStrategy::new(vec![ins(1), ins(2)], ModifierOrdering::NoOrdering);
    assert_eq!(drive(&mut s, &works, None).unwrap(), vec![ins(1), ins(2)]);
    assert_eq!(s.num_states(), 4);
    assert_eq!(s.all_valid_orderings().len(), 2);
    let mods = vec![ins(1), ins(2), ins(3)];
    let mut s = ExhaustiveTreeStrategy::new(mods.clone(), ModifierOrdering::NoOrdering);
    assert_eq!(drive(&mut s, &works, None).unwrap(), mods);
    assert_eq!(s.num_states(), 15);
    assert_eq!(s.all_valid_orderings().len(), 6);
}

#[test]
fn law_tree_answers_least_working_order_alike() {
    // ins(3) must come first, ins(1) must not come last
    let works = |seq: &[ConfigModifier]| {
        seq[0] == ins(3) && !(seq.len() == 3 && seq[2] == ins(1))
    };
    let mods = vec![ins(1), ins(2), ins(3)];
    let mut a = ExhaustiveTreeStrategy::new(mods.clone(), ModifierOrdering::NoOrdering);
    let mut b = ExhaustiveTreeStrategy::new(mods, ModifierOrdering::NoOrdering);
    let ra = drive(&mut a, &works, None).unwrap();
    let rb = drive(&mut b, &works, None).unwrap();
    assert_eq!(ra, vec![ins(3), ins(1), ins(2)]);
    assert_eq!(ra, rb);
    assert_eq!(a.num_states(), b.num_states());
}

#[test]
fn law_tree_undoes_each_failed_application() {
    // ins(2) never applies; the network keeps one entry per application and must be
    // back to nothing when the search ends
    let mods = vec![ins(1), ins(2), ins(3)];
    let mut s = ExhaustiveTreeStrategy::new(mods, ModifierOrdering::NoOrdering);
    let mut held: Vec<ConfigModifier> = Vec::new();
    let mut ev = TreeEvent::Start;
    let mut after_failure = false;
    let result = loop {
        let a = s.step(ev);
        if after_failure {
            assert!(matches!(a, TreeAction::Undo));
        }
        after_failure = false;
        match a {
            TreeAction::Apply(m) => {
                held.push(m);
                let ok = m != ins(2);
                after_failure = !ok;
                ev = TreeEvent::Applied(ok);
            }
            TreeAction::Undo => {
                held.pop();
                ev = TreeEvent::Undone(Ok(()));
            }
            TreeAction::CheckStop => ev = TreeEvent::Stop { timed_out: false, aborted: false },
            TreeAction::Done(r) => break r,
        }
    };
    assert!(matches!(result, Err(StrategyError::NoSafeOrdering)));
    assert!(held.is_empty());
}

#[test]
fn law_tree_no_safe_ordering() {
    let mods = vec![ins(1), ins(2)];
    let mut s = ExhaustiveTreeStrategy::new(mods, ModifierOrdering::NoOrdering);
    let works = |seq: &[ConfigModifier]| seq.len() < 2;
    assert!(matches!(drive(&mut s, &works, None), Err(StrategyError::NoSafeOrdering)));
    assert!(s.all_valid_orderings().is_empty());
    assert_eq!(s.num_states(), 4);
}

#[test]
fn tree_without_modifiers() {
    let mut s = ExhaustiveTreeStrategy::new(Vec::new(), ModifierOrdering::NoOrdering);
    let works = |_: &[ConfigModifier]| true;
    assert_eq!(drive(&mut s, &works, None).unwrap(), Vec::<ConfigModifier>::new());
    assert_eq!(s.num_states(), 0);
}

#[test]
fn tree_timeout_and_abort() {
    let mods = vec![ins(1), ins(2), ins(3)];
    let mut s = ExhaustiveTreeStrategy::new(mods.clone(), ModifierOrdering::NoOrdering);
    let works = |_: &[ConfigModifier]| true;
    assert!(matches!(drive(&mut s, &works, Some(1)), Err(StrategyError::Timeout)));

    let mut s = ExhaustiveTreeStrategy::new(mods, ModifierOrdering::NoOrdering);
    let mut ev = TreeEvent::Start;
    let result = loop {
        match s.step(ev) {
            TreeAction::Apply(_) => ev = TreeEvent::Applied(true),
            TreeAction::Undo => ev = TreeEvent::Undone(Ok(())),
            TreeAction::CheckStop => ev = TreeEvent::Stop { timed_out: false, aborted: true },
            TreeAction::Done(r) => break r,
        }
    };
    assert!(matches!(result, Err(StrategyError::Abort)));
}

#[test]
fn tree_undo_failure_ends_search() {
    let mut s = ExhaustiveTreeStrategy::new(vec![ins(1)], ModifierOrdering::NoOrdering);
    assert!(matches!(s.step(TreeEvent::Start), TreeAction::Apply(m) if m == ins(1)));
    assert!(matches!(s.step(TreeEvent::Applied(false)), TreeAction::Undo));
    let r = s.step(TreeEvent::Undone(Err(NetworkError::EmptyUndoStack)));
    assert!(matches!(r, TreeAction::Done(Err(StrategyError::Network(NetworkError::EmptyUndoStack)))));
}

#[test]
fn tree_random_ordering_is_a_permutation() {
    let mods: Vec<ConfigModifier> = (0..6).map(ins).collect();
    let mut shuffled_once = false;
    for _ in 0..10 {
        let mut s = ExhaustiveTreeStrategy::new(mods.clone(), ModifierOrdering::RandomOrdering);
        // stop right after the first leaf: the first ordering tried is the shuffled one
        let works = |_: &[ConfigModifier]| true;
        let r = drive(&mut s, &works, Some(1));
        assert!(matches!(r, Err(StrategyError::Timeout)));
        let first = s.all_valid_orderings()[0].clone();
        if first != mods {
            shuffled_once = true;
        }
        let mut sorted = first.clone();
        sorted.sort_by_key(|m| match m {
            ConfigModifier::Insert(ConfigExpr::BgpSession { source, .. }) => source.0,
            _ => usize::MAX,
        });
        assert_eq!(sorted, mods);
    }
    assert!(shuffled_once);
}

#[test]
fn zoo_scenario_parameters() {
    let z = topology_zoo_scenario("a/b.gml".to_string(), 7, true, false, Scenario::DoubleLocalPref);
    assert_eq!((z.max_link_weight, z.num_prefixes, z.prefix_probability_percent), (100, 5, 50));
    assert_eq!(z.gml_file, "a/b.gml");
    let z = topology_zoo_scenario("b.gml".to_string(), 7, false, true, Scenario::DoubleLocalPref);
    assert_eq!((z.num_prefixes, z.prefix_probability_percent, z.random_root), (1, 100, true));
    match get_topo(NetworkSelection::TopologyZoo {
        gml_file: "x.gml".to_string(),
        seed: 3,
        many_prefixes: false,
        random_root: false,
        scenario: Scenario::NetworkAcquisition,
    }) {
        TopologyRequest::TopologyZoo(z) => {
            assert_eq!((z.seed, z.scenario, z.num_prefixes), (3, Scenario::NetworkAcquisition, 1))
        }
        _ => panic!("expected a topology-zoo problem"),
    }
    match get_topo(NetworkSelection::ExampleNetwork {
        initial_variant: 1,
        final_variant: None,
        repetitions: Some(4),
        topology: "Chain".to_string(),
    }) {
        TopologyRequest::ExampleNetwork { topology, initial_variant, final_variant, repetitions } => {
            assert_eq!((topology.as_str(), initial_variant, final_variant, repetitions), ("Chain", 1, None, Some(4)))
        }
        _ => panic!("expected an example network"),
    }
}

#[test]
fn check_config_results() {
    let mut net = Network::new();
    net.add_router("a".to_string());
    net.add_router("b".to_string());
    let mut c = Config::new();
    c.add(ConfigExpr::IgpLinkWeight { source: RouterId(0), target: RouterId(1), weight: 1 }).unwrap();
    assert!(check_config(&net, &c).is_ok());
    c.add(ConfigExpr::IgpLinkWeight { source: RouterId(1), target: RouterId(2), weight: 1 }).unwrap();
    assert!(matches!(check_config(&net, &c), Err(NetworkError::DeviceNotFound(RouterId(2)))));
    c.add(ConfigExpr::IgpLinkWeight { source: RouterId(7), target: RouterId(3), weight: 1 }).unwrap();
    let mut other = net.copy();
    let direct = other.set_config(&c);
    assert!(matches!(direct, Err(NetworkError::DeviceNotFound(RouterId(2)))));
    assert!(matches!(check_config(&net, &c), Err(NetworkError::DeviceNotFound(RouterId(2)))));
    // the network itself is unchanged
    assert_eq!(net.current_config().len(), 0);
}
