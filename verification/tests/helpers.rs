use smoothie::acquisition::acquisition_components;
use smoothie::netsim::{ConfigExpr, ConfigModifier, RouterId};
use smoothie::prefer_ordering::{position, preference_pairs, random_preference};

fn w(i: usize) -> ConfigModifier {
    ConfigModifier::Insert(ConfigExpr::IgpLinkWeight { source: RouterId(i), target: RouterId(0), weight: 1 })
}

#[test]
fn random_preference_picks_two_different_modifiers() {
    let mods: Vec<ConfigModifier> = (1..6).map(w).collect();
    for _ in 0..20 {
        let p = random_preference(&mods);
        assert!(!p.is_violated());
        // a history of a single modifier violates the preference exactly when that modifier is
        // the second one and differs from the first one
        let violated = mods
            .iter()
            .filter(|m| {
                let mut q = p.clone();
                q.update(&[**m]);
                q.is_violated()
            })
            .count();
        assert_eq!(violated, 1);
    }
    // with a single modifier, it is preferred before itself: never violated
    let one = vec![w(1)];
    let mut p = random_preference(&one);
    p.update(&[w(1), w(1)]);
    assert!(!p.is_violated());
}

#[test]
fn preference_pairs_forward_and_reverse() {
    assert_eq!(preference_pairs(0), vec![]);
    assert_eq!(preference_pairs(1), vec![]);
    assert_eq!(
        preference_pairs(3),
        vec![(true, 0, 1), (false, 1, 0), (true, 1, 2), (false, 2, 1)]
    );
}

#[test]
fn position_of_modifier() {
    let ordering = vec![w(3), w(1), w(2), w(1)];
    assert_eq!(position(&ordering, &w(1)), Some(1));
    assert_eq!(position(&ordering, &w(3)), Some(0));
    assert_eq!(position(&ordering, &w(9)), None);
    assert_eq!(position(&vec![], &w(1)), None);
}

#[test]
fn acquisition_split_and_roots() {
    let nodes = vec![0, 1, 2, 3, 4, 5];
    let disconnected = vec![4, 1];
    let c = acquisition_components(&nodes, &disconnected, &vec![2, 4]);
    assert_eq!(c.len(), 2);
    assert_eq!(c[0].nodes, vec![0, 2, 3, 5]);
    assert_eq!(c[1].nodes, vec![1, 4]);
    assert_eq!((c[0].rr, c[1].rr), (2, 4));
    // the first root lies in the split-off part: the roots swap
    let c = acquisition_components(&nodes, &disconnected, &vec![1, 3]);
    assert_eq!((c[0].rr, c[1].rr), (3, 1));
    let c = acquisition_components(&vec![], &vec![], &vec![7, 8]);
    assert!(c[0].nodes.is_empty() && c[1].nodes.is_empty());
    assert_eq!((c[0].rr, c[1].rr), (8, 7));
}
