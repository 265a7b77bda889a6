//! The two parts of a network before an acquisition: the routers that stay connected and
//! the ones that are split off, each with the route reflector that serves it.
use vstd::prelude::*;

verus! {

/// A part of a network: its routers and its route reflector.
pub struct Component {
    pub nodes: Vec<usize>,
    pub rr: usize,
}

/// The nodes of `nodes`, in order, that are in `disconnected` (when `inside`) or not in it.
pub open spec fn nodes_where(nodes: Seq<usize>, disconnected: Seq<usize>, inside: bool) -> Seq<usize>
    decreases nodes.len(),
{
    if nodes.len() == 0 {
        Seq::empty()
    } else {
        let rest = nodes_where(nodes.drop_last(), disconnected, inside);
        if disconnected.contains(nodes.last()) == inside {
            rest.push(nodes.last())
        } else {
            rest
        }
    }
}

fn contains(v: &Vec<usize>, x: usize) -> (r: bool)
    ensures
        r == v@.contains(x),
{
    let mut i: usize = 0;
    while i < v.len()
        invariant
            i <= v@.len(),
            forall|j: int| 0 <= j < i ==> v@[j] != x,
        decreases v@.len() - i,
    {
        if v[i] == x {
            return true;
        }
        i = i + 1;
    }
    false
}

/// Splits the internal routers `nodes` into those that stay connected and those in
/// `disconnected`. The first part is served by the first of the two `roots` when it holds
/// that root, else by the second; the other part by the other root.
pub fn acquisition_components(
    nodes: &Vec<usize>,
    disconnected: &Vec<usize>,
    roots: &Vec<usize>,
) -> (c: Vec<Component>)
    requires
        roots@.len() >= 2,
    ensures
        c@.len() == 2,
        c@[0].nodes@ == nodes_where(nodes@, disconnected@, false),
        c@[1].nodes@ == nodes_where(nodes@, disconnected@, true),
        c@[0].rr == (if c@[0].nodes@.contains(roots@[0]) { roots@[0] } else { roots@[1] }),
        c@[1].rr == (if c@[0].nodes@.contains(roots@[0]) { roots@[1] } else { roots@[0] }),
{
    let mut nodes1: Vec<usize> = Vec::new();
    let mut nodes2: Vec<usize> = Vec::new();
    let mut i: usize = 0;
    while i < nodes.len()
        invariant
            i <= nodes@.len(),
            nodes1@ == nodes_where(nodes@.take(i as int), disconnected@, false),
            nodes2@ == nodes_where(nodes@.take(i as int), disconnected@, true),
        decreases nodes@.len() - i,
    {
        let n = nodes[i];
        proof {
            assert(nodes@.take(i + 1).drop_last() =~= nodes@.take(i as int));
            assert(nodes@.take(i + 1).last() == n);
        }
        if contains(disconnected, n) {
            nodes2.push(n);
        } else {
            nodes1.push(n);
        }
        i = i + 1;
    }
    assert(nodes@.take(nodes@.len() as int) =~= nodes@);
    let rr1 = roots[0];
    let rr2 = roots[1];
    let flag = contains(&nodes1, rr1);
    let mut components: Vec<Component> = Vec::new();
    components.push(Component { nodes: nodes1, rr: if flag { rr1 } else { rr2 } });
    components.push(Component { nodes: nodes2, rr: if flag { rr2 } else { rr1 } });
    components
}

} // verus!
