//! The exhaustive tree strategy: a depth-first search over the orderings of a set of
//! modifiers. It applies one of the remaining modifiers; if that works, it goes on with
//! the ones left, and when none of them works it undoes the last one and tries the next.
//! The modifiers are tried in the order of their indices, so the orderings come in
//! lexicographic order of indices; the search visits every ordering whose steps all work and
//! answers with the first one found: the least one, in that order, with no step that failed.
//! Each sequence of distinct modifiers is asked for at most once.
//!
//! The network is outside: the search says what to do next (apply a modifier, undo the
//! last action, check the time budget and the abort signal) and is told how it went.
use vstd::prelude::*;
use crate::netsim::ConfigModifier;
use crate::network::NetworkError;
use rand::seq::SliceRandom;
use vstd::multiset::Multiset;

verus! {

broadcast use vstd::seq_lib::group_to_multiset_ensures;

/// `p` is an ordering of the modifiers of `r`.
pub open spec fn is_perm(p: Seq<ConfigModifier>, r: Seq<ConfigModifier>) -> bool {
    p.to_multiset() == r.to_multiset()
}

/// Every nonempty prefix of `s` is in `accepted`.
pub open spec fn all_prefixes_in(s: Seq<ConfigModifier>, accepted: Set<Seq<ConfigModifier>>) -> bool {
    forall|i: int| 1 <= i <= s.len() ==> accepted.contains(#[trigger] s.take(i))
}

/// Some nonempty prefix of `s` is in `rejected`.
pub open spec fn some_prefix_in(s: Seq<ConfigModifier>, rejected: Set<Seq<ConfigModifier>>) -> bool {
    exists|i: int| 1 <= i <= s.len() && rejected.contains(#[trigger] s.take(i))
}

/// Every ordering of `r` after `q` is either among `valid`, or has a prefix in `rejected`.
pub open spec fn covered(
    q: Seq<ConfigModifier>,
    r: Seq<ConfigModifier>,
    valid: Seq<Seq<ConfigModifier>>,
    rejected: Set<Seq<ConfigModifier>>,
) -> bool {
    forall|p: Seq<ConfigModifier>| #[trigger] is_perm(p, r) ==> valid.contains(q + p) || some_prefix_in(q + p, rejected)
}

/// The order in which the modifiers are tried.
#[derive(Clone, Copy, Debug, PartialEq, Eq, Structural)]
pub enum ModifierOrdering {
    /// In the order given.
    NoOrdering,
    /// In a random order.
    RandomOrdering,
}

/// Why the search ended without an ordering.
#[derive(Debug)]
pub enum StrategyError {
    /// No ordering of the modifiers works.
    NoSafeOrdering,
    /// The time budget is used up.
    Timeout,
    /// The search was aborted.
    Abort,
    /// The network failed to undo an action.
    Network(NetworkError),
}

/// What the search asks of the network next.
#[derive(Debug)]
pub enum TreeAction {
    /// Apply this modifier on top of the ones applied so far.
    Apply(ConfigModifier),
    /// Undo the last modifier applied.
    Undo,
    /// Check whether the time budget is used up or the search was aborted.
    CheckStop,
    /// The search is over, with this result.
    Done(Result<Vec<ConfigModifier>, StrategyError>),
}

/// What happened to the last action of the search.
pub enum TreeEvent {
    /// The search begins.
    Start,
    /// The modifier was applied successfully, or not.
    Applied(bool),
    /// The result of undoing.
    Undone(Result<(), NetworkError>),
    /// Whether the time budget is used up, and whether the search was aborted.
    Stop { timed_out: bool, aborted: bool },
}

/// The kind of event the search waits for.
#[derive(Clone, Copy, Debug, PartialEq, Eq, Structural)]
pub enum TreeWait {
    Start,
    Apply,
    Undo,
    Stop,
    Done,
}

/// Whether the search waits for this event.
pub open spec fn event_fits(w: TreeWait, ev: TreeEvent) -> bool {
    match ev {
        TreeEvent::Start => w == TreeWait::Start,
        TreeEvent::Applied(_) => w == TreeWait::Apply,
        TreeEvent::Undone(_) => w == TreeWait::Undo,
        TreeEvent::Stop { .. } => w == TreeWait::Stop,
    }
}

/// How an event decides the end of the search: a used-up time budget ends it with
/// `Timeout`, an abort (within the budget) with `Abort`, a failed undo with that failure;
/// and these errors come from those events only.
pub open spec fn event_outcome(ev: TreeEvent, a: TreeAction) -> bool {
    &&& (ev matches TreeEvent::Stop { timed_out: true, .. }) <==> (a matches TreeAction::Done(
        Err(StrategyError::Timeout),
    ))
    &&& (ev == TreeEvent::Stop { timed_out: false, aborted: true }) <==> (a matches TreeAction::Done(
        Err(StrategyError::Abort),
    ))
    &&& forall|e: NetworkError|
        (ev == TreeEvent::Undone(Err(e))) <==> (a == TreeAction::Done(Err(StrategyError::Network(e))))
}

struct Frame {
    rem_mod: Vec<ConfigModifier>,
    cur_idx: usize,
    /// The indices, in the modifiers, of the modifiers left.
    rem_idx: Ghost<Seq<int>>,
}

#[derive(Clone, Copy, PartialEq, Eq, Structural)]
enum Phase {
    NotStarted,
    Applying(usize),
    UndoFailed,
    UndoPop,
    CheckStop,
    Finished,
}

/// The exhaustive tree search.
pub struct ExhaustiveTreeStrategy {
    modifiers: Vec<ConfigModifier>,
    stack: Vec<Frame>,
    mod_sequence: Vec<ConfigModifier>,
    all_valid_ordering: Vec<Vec<ConfigModifier>>,
    phase: Phase,
    num_states: usize,
    accepted: Ghost<Set<Seq<ConfigModifier>>>,
    rejected: Ghost<Set<Seq<ConfigModifier>>>,
    /// The indices, in the modifiers, of the modifiers applied.
    path: Ghost<Seq<int>>,
    /// The indices of the first ordering found.
    first: Ghost<Seq<int>>,
    /// The applications that rejections spared: the nodes below the rejected sequences.
    skipped: Ghost<nat>,
    /// The modifiers that the network holds, as the actions asked for so far leave it.
    held: Ghost<Seq<ConfigModifier>>,
}

/// What the network holds after it reports `ev`, when it held `held` before: an undo takes
/// back the last modifier applied, if any; the other events leave it as it was.
pub open spec fn held_after(held: Seq<ConfigModifier>, ev: TreeEvent) -> Seq<ConfigModifier> {
    match ev {
        TreeEvent::Undone(Ok(())) => if held.len() > 0 {
            held.drop_last()
        } else {
            held
        },
        _ => held,
    }
}

/// A bound on the work below a node with `x` modifiers left.
spec fn subtree_bound(x: nat) -> nat
    decreases x,
{
    if x == 0 {
        3
    } else {
        3 + x * subtree_bound((x - 1) as nat)
    }
}

/// The work left in a frame with `len` modifiers left, of which `cur` have been tried.
spec fn frame_potential(len: nat, cur: nat) -> nat {
    if len == 0 || cur >= len {
        2
    } else {
        2 + ((len - cur) as nat) * subtree_bound((len - 1) as nat)
    }
}

spec fn stack_potential(s: Seq<Frame>) -> nat
    decreases s.len(),
{
    if s.len() == 0 {
        0
    } else {
        stack_potential(s.drop_last()) + frame_potential(s.last().rem_mod@.len(), s.last().cur_idx as nat)
    }
}

proof fn lemma_frame_potential_step(len: nat, cur: nat)
    requires
        cur < len,
    ensures
        frame_potential(len, cur) == frame_potential(len, cur + 1) + subtree_bound((len - 1) as nat),
        frame_potential((len - 1) as nat, 0) + 1 == subtree_bound((len - 1) as nat),
{
    let g = subtree_bound((len - 1) as nat);
    let k = (len - cur) as nat;
    assert(k * g == (k - 1) * g + g) by (nonlinear_arith)
        requires
            k >= 1,
    ;
    if cur + 1 == len {
        assert(k == 1);
        assert(1 * g == g) by (nonlinear_arith);
    }
    if len >= 2 {
        let h = subtree_bound((len - 2) as nat);
        assert(g == 3 + ((len - 1) as nat) * h);
    }
}

/// Adding orderings to the valid ones and sequences to the rejected ones keeps coverage.
proof fn lemma_covered_mono(
    q: Seq<ConfigModifier>,
    r: Seq<ConfigModifier>,
    v1: Seq<Seq<ConfigModifier>>,
    r1: Set<Seq<ConfigModifier>>,
    v2: Seq<Seq<ConfigModifier>>,
    r2: Set<Seq<ConfigModifier>>,
)
    requires
        covered(q, r, v1, r1),
        forall|x: Seq<ConfigModifier>| v1.contains(x) ==> v2.contains(x),
        r1.subset_of(r2),
    ensures
        covered(q, r, v2, r2),
{
    assert forall|p: Seq<ConfigModifier>| #[trigger] is_perm(p, r) implies v2.contains(q + p) || some_prefix_in(q + p, r2) by {
        if !v1.contains(q + p) {
            let i = choose|i: int| 1 <= i <= (q + p).len() && r1.contains(#[trigger] (q + p).take(i));
            assert(r2.contains((q + p).take(i)));
        }
    }
}

/// When every child of a node is covered, and a leaf is among the valid orderings, the
/// node is covered.
proof fn lemma_cover_frame(
    q: Seq<ConfigModifier>,
    r: Seq<ConfigModifier>,
    v: Seq<Seq<ConfigModifier>>,
    rej: Set<Seq<ConfigModifier>>,
)
    requires
        forall|j: int| 0 <= j < r.len() ==> covered(#[trigger] q.push(r[j]), r.remove(j), v, rej),
        r.len() == 0 ==> v.contains(q),
    ensures
        covered(q, r, v, rej),
{
    assert forall|p: Seq<ConfigModifier>| #[trigger] is_perm(p, r) implies v.contains(q + p) || some_prefix_in(q + p, rej) by {
        assert(p.to_multiset().len() == p.len());
        assert(r.to_multiset().len() == r.len());
        if r.len() == 0 {
            assert(p.len() == 0);
            assert(q + p =~= q);
        } else {
            assert(p.len() > 0);
            assert(p.to_multiset().count(p[0]) > 0) by {
                assert(p.contains(p[0]));
            }
            assert(r.contains(p[0]));
            let j = choose|j: int| 0 <= j < r.len() && r[j] == p[0];
            let p2 = p.drop_first();
            assert(p =~= seq![p[0]] + p2);
            assert(p2.to_multiset() =~= p.to_multiset().remove(p[0])) by {
                assert(p.remove(0) =~= p2);
            }
            assert(is_perm(p2, r.remove(j)));
            assert(covered(q.push(r[j]), r.remove(j), v, rej));
            assert(q.push(r[j]) + p2 =~= q + p);
        }
    }
}

/// The modifiers of `m` at the indices `s`, in the order of `s`.
pub open spec fn pick(m: Seq<ConfigModifier>, s: Seq<int>) -> Seq<ConfigModifier> {
    s.map_values(|i: int| m[i])
}

/// `s` lists each of the indices `0 .. n` exactly once.
pub open spec fn index_order(s: Seq<int>, n: nat) -> bool {
    &&& s.len() == n
    &&& s.no_duplicates()
    &&& forall|i: int| 0 <= i < s.len() ==> 0 <= #[trigger] s[i] < n
    &&& forall|x: int| 0 <= x < n ==> #[trigger] s.contains(x)
}

/// `a` comes before `b` in lexicographic order: at the first place where they differ, `a` has
/// the smaller index.
pub open spec fn lex_before(a: Seq<int>, b: Seq<int>) -> bool {
    exists|k: int|
        #![trigger a[k], b[k]]
        0 <= k < a.len() && k < b.len() && a.take(k) == b.take(k) && a[k] < b[k]
}

/// The indices increase along `s`.
pub open spec fn increasing(s: Seq<int>) -> bool {
    forall|i: int, j: int| 0 <= i < j < s.len() ==> #[trigger] s[i] < #[trigger] s[j]
}

/// The number of nonempty sequences of distinct picks out of `x` modifiers: the nodes below
/// the root of the tree of orderings.
pub open spec fn tree_nodes(x: nat) -> nat
    decreases x,
{
    if x == 0 {
        0
    } else {
        x * (1 + tree_nodes((x - 1) as nat))
    }
}

/// The applications still to come in a frame with `len` modifiers left, of which `cur` have
/// been tried.
spec fn frame_applies(len: nat, cur: nat) -> nat {
    if cur >= len {
        0
    } else {
        ((len - cur) as nat) * (1 + tree_nodes((len - 1) as nat))
    }
}

spec fn stack_applies(s: Seq<Frame>) -> nat
    decreases s.len(),
{
    if s.len() == 0 {
        0
    } else {
        stack_applies(s.drop_last()) + frame_applies(s.last().rem_mod@.len(), s.last().cur_idx as nat)
    }
}

proof fn lemma_frame_applies_step(len: nat, cur: nat)
    requires
        cur < len,
    ensures
        frame_applies(len, cur) == frame_applies(len, cur + 1) + 1 + tree_nodes((len - 1) as nat),
        frame_applies((len - 1) as nat, 0) == tree_nodes((len - 1) as nat),
        frame_applies(len, 0) == tree_nodes(len),
{
    let g = 1 + tree_nodes((len - 1) as nat);
    let k = (len - cur) as nat;
    assert(k * g == (k - 1) * g + g) by (nonlinear_arith)
        requires
            k >= 1,
    ;
    if cur + 1 == len {
        assert((k - 1) * g == 0) by (nonlinear_arith)
            requires
                k == 1,
        ;
    }
}

/// Two sequences of distinct indices with the same elements pick the same modifiers, in
/// some order.
proof fn lemma_pick_same_elements(m: Seq<ConfigModifier>, a: Seq<int>, b: Seq<int>)
    requires
        a.no_duplicates(),
        b.no_duplicates(),
        forall|x: int| a.contains(x) <==> b.contains(x),
    ensures
        is_perm(pick(m, a), pick(m, b)),
    decreases a.len(),
{
    if a.len() == 0 {
        if b.len() > 0 {
            assert(b.contains(b[0]));
        }
        assert(pick(m, a) =~= pick(m, b));
    } else {
        let x = a.last();
        let a2 = a.drop_last();
        assert(a.contains(x)) by {
            assert(a[a.len() - 1] == x);
        }
        let i = choose|i: int| 0 <= i < b.len() && b[i] == x;
        let b2 = b.remove(i);
        assert forall|y: int| a2.contains(y) <==> b2.contains(y) by {
            if a2.contains(y) {
                let j = choose|j: int| 0 <= j < a2.len() && a2[j] == y;
                assert(a[j] == y && j != a.len() - 1);
                assert(y != x);
                assert(a.contains(y));
                let l = choose|l: int| 0 <= l < b.len() && b[l] == y;
                assert(l != i);
                assert(b2[if l < i { l } else { l - 1 }] == y);
            }
            if b2.contains(y) {
                let j = choose|j: int| 0 <= j < b2.len() && b2[j] == y;
                let l = if j < i { j } else { j + 1 };
                assert(b[l] == y && l != i);
                assert(y != x);
                assert(b.contains(y));
                let h = choose|h: int| 0 <= h < a.len() && a[h] == y;
                assert(h != a.len() - 1);
                assert(a2[h] == y);
            }
        }
        assert(a2.no_duplicates()) by {
            assert forall|p: int, q: int| 0 <= p < a2.len() && 0 <= q < a2.len() && p != q implies a2[p] != a2[q] by {
                assert(a[p] == a2[p] && a[q] == a2[q]);
            }
        }
        assert(b2.no_duplicates()) by {
            assert forall|p: int, q: int| 0 <= p < b2.len() && 0 <= q < b2.len() && p != q implies b2[p] != b2[q] by {
                let p1 = if p < i { p } else { p + 1 };
                let q1 = if q < i { q } else { q + 1 };
                assert(b[p1] == b2[p] && b[q1] == b2[q]);
            }
        }
        lemma_pick_same_elements(m, a2, b2);
        assert(pick(m, a) =~= pick(m, a2).push(m[x]));
        assert(pick(m, b) =~= pick(m, b2).insert(i, m[x]));
    }
}

/// What one step of the search guarantees, from the state before to the state after, for
/// the event it was told and the action it returns: the invariant is kept, the work left
/// shrinks unless the search is over, the applied sequence and the accepted and rejected
/// sequences follow the event, and the action is one the state allows.
pub open spec fn step_post(
    pre: ExhaustiveTreeStrategy,
    post: ExhaustiveTreeStrategy,
    ev: TreeEvent,
    a: TreeAction,
) -> bool {
    &&& post.states() == pre.states() + (if a is Apply { 1int } else { 0int })
    &&& post.states() <= tree_nodes(post.modifiers().len())
    &&& (a matches TreeAction::Done(r) && (r is Ok || r matches Err(StrategyError::NoSafeOrdering))
        && post.rejected() == Set::<Seq<ConfigModifier>>::empty()) ==> post.states() == tree_nodes(
        post.modifiers().len(),
    )
    &&& post.first_order() == pre.first_order() || pre.valid_orderings().len() == 0
    &&& post.on_network() == match a {
        TreeAction::Apply(m) => held_after(pre.on_network(), ev).push(m),
        _ => held_after(pre.on_network(), ev),
    }
    &&& ev == TreeEvent::Applied(false) ==> a is Undo && post.waiting() == TreeWait::Undo
        && post.on_network() == post.applied().push(pre.pending())
    &&& a is Apply ==> post.on_network() == post.applied().push(post.pending())
    &&& (a is CheckStop || (a is Undo && ev != TreeEvent::Applied(false))) ==> post.on_network()
        == post.applied()
    &&& (a matches TreeAction::Done(r) && !(r matches Err(StrategyError::Network(_)))) ==> post.on_network()
        == post.applied()
    &&& post.waiting() != TreeWait::Done ==> post.remaining() < pre.remaining()
    &&& post.wf()
    &&& post.modifiers() == pre.modifiers()
    &&& ev == TreeEvent::Applied(true) ==> post.applied() == pre.applied().push(pre.pending())
        && post.accepted() == pre.accepted().insert(pre.applied().push(pre.pending()))
    &&& ev != TreeEvent::Applied(true) ==> post.accepted() == pre.accepted()
    &&& ev == TreeEvent::Applied(false) ==> post.applied() == pre.applied() && post.rejected()
        == pre.rejected().insert(pre.applied().push(pre.pending()))
    &&& ev != TreeEvent::Applied(false) ==> post.rejected() == pre.rejected()
    &&& ev is Start || ev is Stop ==> post.applied() == pre.applied()
    &&& event_outcome(ev, a)
    &&& ev is Undone ==> post.applied() == pre.applied() || (a is CheckStop && post.applied()
        == pre.applied().drop_last())
    &&& match a {
        TreeAction::Apply(m) => post.apply_fits(m),
        TreeAction::Undo => post.waiting() == TreeWait::Undo,
        TreeAction::CheckStop => post.waiting() == TreeWait::Stop,
        TreeAction::Done(r) => post.waiting() == TreeWait::Done && post.result_ok(r),
    }
}

impl ExhaustiveTreeStrategy {
    /// The modifiers, in the order in which they are tried.
    pub closed spec fn modifiers(&self) -> Seq<ConfigModifier> {
        self.modifiers@
    }

    /// The modifiers applied on the network, in order.
    pub closed spec fn applied(&self) -> Seq<ConfigModifier> {
        self.mod_sequence@
    }

    /// The sequences whose last modifier was applied successfully after the others.
    pub closed spec fn accepted(&self) -> Set<Seq<ConfigModifier>> {
        self.accepted@
    }

    /// The sequences whose last modifier failed to apply after the others.
    pub closed spec fn rejected(&self) -> Set<Seq<ConfigModifier>> {
        self.rejected@
    }

    /// The orderings found so far all of whose steps worked, in the order found.
    pub closed spec fn valid_orderings(&self) -> Seq<Seq<ConfigModifier>> {
        self.all_valid_ordering@.map_values(|v: Vec<ConfigModifier>| v@)
    }

    /// The modifiers that the network holds, in the order applied, as the actions the search
    /// asked for leave it: the accepted ones, and the one whose application is pending or
    /// failed and is still to be undone.
    pub closed spec fn on_network(&self) -> Seq<ConfigModifier> {
        self.held@
    }

    /// The modifiers held by the network follow the phase of the search.
    spec fn held_inv(&self) -> bool {
        match self.phase {
            Phase::Applying(_) => self.held@ == self.mod_sequence@.push(self.pending()),
            Phase::UndoFailed => self.held@.len() == self.mod_sequence@.len() + 1
                && self.held@.drop_last() == self.mod_sequence@,
            _ => self.held@ == self.mod_sequence@,
        }
    }

    /// The indices, in the modifiers, of the first ordering found all of whose steps worked.
    pub closed spec fn first_order(&self) -> Seq<int> {
        self.first@
    }

    /// The number of modifiers the search has asked to apply.
    pub closed spec fn states(&self) -> nat {
        self.num_states as nat
    }

    /// A bound on the number of steps left before the search ends.
    pub closed spec fn remaining(&self) -> nat {
        let pending = match self.phase {
            Phase::Applying(_) => frame_potential((self.stack@.last().rem_mod@.len() - 1) as nat, 0),
            _ => 0,
        };
        let rank: nat = match self.phase {
            Phase::UndoPop => 0,
            Phase::Finished => 0,
            _ => 1,
        };
        2 * (stack_potential(self.stack@) + pending) + rank
    }

    /// The event the search waits for.
    pub closed spec fn waiting(&self) -> TreeWait {
        match self.phase {
            Phase::NotStarted => TreeWait::Start,
            Phase::Applying(_) => TreeWait::Apply,
            Phase::UndoFailed => TreeWait::Undo,
            Phase::UndoPop => TreeWait::Undo,
            Phase::CheckStop => TreeWait::Stop,
            Phase::Finished => TreeWait::Done,
        }
    }

    /// The modifier whose application the search waits to hear about.
    pub closed spec fn pending(&self) -> ConfigModifier {
        match self.phase {
            Phase::Applying(c) => self.stack@.last().rem_mod@[c as int],
            _ => arbitrary(),
        }
    }

    spec fn done_children(&self, k: int) -> int {
        if k + 1 < self.stack@.len() || self.phase is Applying {
            self.stack@[k].cur_idx - 1
        } else {
            self.stack@[k].cur_idx as int
        }
    }

    /// The indices of the applied modifiers and of the modifiers left in each frame.
    spec fn idx_frames(&self) -> bool {
        let s = self.stack@;
        let m = self.modifiers@;
        let pth = self.path@;
        &&& self.mod_sequence@ == pick(m, pth)
        &&& forall|k: int|
            0 <= k < s.len() ==> (#[trigger] s[k]).rem_mod@ == pick(m, s[k].rem_idx@) && increasing(
                s[k].rem_idx@,
            )
        &&& forall|k: int, x: int|
            0 <= k < s.len() ==> (#[trigger] s[k].rem_idx@.contains(x) <==> (0 <= x < m.len()
                && !pth.take(k).contains(x)))
        &&& forall|k: int| 0 <= k < s.len() - 1 ==> pth[k] == (#[trigger] s[k]).rem_idx@[s[k].cur_idx - 1]
    }

    /// The first ordering found comes first, in the order of indices, among those that have
    /// no rejected prefix.
    spec fn first_inv(&self) -> bool {
        let m = self.modifiers@;
        let v = self.valid_orderings();
        let f = self.first@;
        v.len() > 0 ==> {
            &&& index_order(f, m.len())
            &&& pick(m, f) == v[0]
            &&& forall|p: Seq<int>|
                index_order(p, m.len()) && #[trigger] lex_before(p, f) ==> some_prefix_in(
                    pick(m, p),
                    self.rejected@,
                )
        }
    }

    /// The applications asked for, those still to come and those spared make up the whole
    /// tree of orderings.
    spec fn count_inv(&self) -> bool {
        let pending = match self.phase {
            Phase::Applying(_) => tree_nodes((self.stack@.last().rem_mod@.len() - 1) as nat),
            _ => 0,
        };
        &&& self.num_states + stack_applies(self.stack@) + pending + self.skipped@ == tree_nodes(
            self.modifiers@.len(),
        )
        &&& self.rejected@ == Set::<Seq<ConfigModifier>>::empty() ==> self.skipped@ == 0
    }

    /// The invariant of the search.
    pub closed spec fn wf(&self) -> bool {
        &&& self.num_states <= tree_nodes(self.modifiers@.len())
        &&& self.phase !is Finished ==> {
            &&& self.idx_frames()
            &&& self.first_inv()
            &&& self.count_inv()
            &&& self.held_inv()
            &&& self.wf_search()
        }
    }

    spec fn wf_search(&self) -> bool {
        let s = self.stack@;
        let q = self.mod_sequence@;
        let m = self.modifiers@;
        let v = self.valid_orderings();
        {
            &&& s.len() == 0 ==> self.phase is CheckStop && q.len() == 0 && covered(
                Seq::empty(),
                m,
                v,
                self.rejected@,
            )
            &&& s.len() > 0 ==> q.len() + 1 == s.len() && s[0].rem_mod@ == m
            &&& forall|k: int|
                0 <= k < s.len() - 1 ==> 1 <= #[trigger] s[k].cur_idx <= s[k].rem_mod@.len()
                    && s[k + 1].rem_mod@ == s[k].rem_mod@.remove(s[k].cur_idx - 1) && q[k]
                    == s[k].rem_mod@[s[k].cur_idx - 1]
            &&& s.len() > 0 ==> s.last().cur_idx <= s.last().rem_mod@.len()
            &&& self.phase matches Phase::Applying(c) ==> s.len() > 0 && s.last().cur_idx == c + 1
                && c < s.last().rem_mod@.len()
            &&& self.phase is UndoPop ==> s.len() > 0 && s.last().cur_idx >= s.last().rem_mod@.len()
                && (s.last().rem_mod@.len() == 0 ==> v.contains(q))
            &&& self.phase is NotStarted ==> s.len() == 1 && s[0].cur_idx == 0 && v.len() == 0
            &&& forall|k: int|
                0 <= k < s.len() ==> (#[trigger] q.take(k)).to_multiset().add(
                    s[k].rem_mod@.to_multiset(),
                ) == m.to_multiset()
            &&& all_prefixes_in(q, self.accepted@)
            &&& forall|t: int|
                0 <= t < v.len() ==> is_perm(#[trigger] v[t], m) && all_prefixes_in(
                    v[t],
                    self.accepted@,
                )
            &&& forall|k: int, j: int|
                0 <= k < s.len() && 0 <= j < self.done_children(k) ==> covered(
                    #[trigger] q.take(k).push(s[k].rem_mod@[j]),
                    s[k].rem_mod@.remove(j),
                    v,
                    self.rejected@,
                )
        }
    }

    /// A search over the orderings of `modifiers`, tried in the order that `ordering` gives.
    pub fn new(modifiers: Vec<ConfigModifier>, ordering: ModifierOrdering) -> (s: ExhaustiveTreeStrategy)
        ensures
            s.wf(),
            s.waiting() == TreeWait::Start,
            is_perm(s.modifiers(), modifiers@),
            ordering == ModifierOrdering::NoOrdering ==> s.modifiers() == modifiers@,
            s.applied() == Seq::<ConfigModifier>::empty(),
            s.accepted() == Set::<Seq<ConfigModifier>>::empty(),
            s.rejected() == Set::<Seq<ConfigModifier>>::empty(),
            s.valid_orderings() == Seq::<Seq<ConfigModifier>>::empty(),
            s.states() == 0,
            s.on_network() == Seq::<ConfigModifier>::empty(),
    {
        let mut modifiers = modifiers;
        if ordering == ModifierOrdering::RandomOrdering {
            shuffle_modifiers(&mut modifiers);
        }
        let ghost n = modifiers@.len();
        let root = Frame {
            rem_mod: copy_modifiers(&modifiers),
            cur_idx: 0,
            rem_idx: Ghost(Seq::new(n, |i: int| i)),
        };
        let mut stack: Vec<Frame> = Vec::new();
        stack.push(root);
        let s = ExhaustiveTreeStrategy {
            modifiers,
            stack,
            mod_sequence: Vec::new(),
            all_valid_ordering: Vec::new(),
            phase: Phase::NotStarted,
            num_states: 0,
            accepted: Ghost(Set::empty()),
            rejected: Ghost(Set::empty()),
            path: Ghost(Seq::empty()),
            first: Ghost(Seq::empty()),
            skipped: Ghost(0),
            held: Ghost(Seq::empty()),
        };
        proof {
            let ri = s.stack@[0].rem_idx@;
            assert(s.modifiers@ =~= pick(s.modifiers@, ri));
            assert(s.mod_sequence@ =~= pick(s.modifiers@, Seq::<int>::empty()));
            assert forall|x: int| #[trigger] ri.contains(x) <==> (0 <= x < n && !s.path@.take(0).contains(x)) by {
                if 0 <= x < n {
                    assert(ri[x] == x);
                }
            }
            assert(s.stack@.drop_last() =~= Seq::<Frame>::empty());
            assert(stack_applies(s.stack@.drop_last()) == 0);
            assert(s.stack@.last().rem_mod@.len() == n);
            assert(stack_applies(s.stack@) == frame_applies(n, 0));
            if n > 0 {
                lemma_frame_applies_step(n, 0);
            }
            assert(s.idx_frames());
            assert(s.valid_orderings() =~= Seq::<Seq<ConfigModifier>>::empty());
            assert(s.mod_sequence@.take(0) =~= Seq::<ConfigModifier>::empty());
            assert(Seq::<ConfigModifier>::empty().to_multiset().add(s.modifiers@.to_multiset()) =~= s.modifiers@.to_multiset()) by {
                assert(Seq::<ConfigModifier>::empty().to_multiset() =~= Multiset::empty());
            }
        }
        s
    }

    /// The properties of a result that the search hands out.
    pub open spec fn result_ok(&self, r: Result<Vec<ConfigModifier>, StrategyError>) -> bool {
        &&& r matches Ok(v) ==> is_perm(v@, self.modifiers()) && all_prefixes_in(v@, self.accepted())
            && self.valid_orderings().len() > 0 && v@ == self.valid_orderings()[0]
        &&& r is Ok ==> forall|p: Seq<ConfigModifier>| #[trigger] is_perm(p, self.modifiers())
            ==> self.valid_orderings().contains(p) || some_prefix_in(p, self.rejected())
        &&& r matches Ok(v) ==> index_order(self.first_order(), self.modifiers().len()) && pick(
            self.modifiers(),
            self.first_order(),
        ) == v@
        &&& r is Ok ==> forall|p: Seq<int>|
            index_order(p, self.modifiers().len()) && #[trigger] lex_before(p, self.first_order())
                ==> some_prefix_in(pick(self.modifiers(), p), self.rejected())
        &&& r matches Err(StrategyError::NoSafeOrdering) ==> self.valid_orderings().len() == 0
            && forall|p: Seq<ConfigModifier>| #[trigger] is_perm(p, self.modifiers()) ==> some_prefix_in(p, self.rejected())
    }

    /// The modifier about to be applied is one of those not applied yet.
    pub open spec fn apply_fits(&self, m: ConfigModifier) -> bool {
        &&& self.waiting() == TreeWait::Apply
        &&& self.pending() == m
        &&& self.applied().push(m).to_multiset().subset_of(self.modifiers().to_multiset())
    }

    /// Decides what to do next, from a state in which no event is pending.
    #[verifier::spinoff_prover]
    #[verifier::rlimit(100)]
    fn advance(&mut self) -> (a: TreeAction)
        requires
            old(self).wf(),
            old(self).phase is CheckStop,
            old(self).states() < usize::MAX,
        ensures
            final(self).states() == old(self).states() + (if a is Apply { 1int } else { 0int }),
            !(a is Done) ==> final(self).remaining() < old(self).remaining(),
            final(self).wf(),
            final(self).modifiers() == old(self).modifiers(),
            final(self).applied() == old(self).applied(),
            final(self).accepted() == old(self).accepted(),
            final(self).rejected() == old(self).rejected(),
            final(self).valid_orderings() == old(self).valid_orderings() || final(self).valid_orderings()
                == old(self).valid_orderings().push(old(self).applied()),
            match a {
                TreeAction::Apply(m) => final(self).apply_fits(m),
                TreeAction::Undo => final(self).waiting() == TreeWait::Undo,
                TreeAction::CheckStop => false,
                TreeAction::Done(r) => final(self).waiting() == TreeWait::Done && final(self).result_ok(r)
                    && (r is Ok || r matches Err(StrategyError::NoSafeOrdering)) && (final(self).rejected()
                    == Set::<Seq<ConfigModifier>>::empty() ==> final(self).states() == tree_nodes(
                    final(self).modifiers().len(),
                )),
            },
            final(self).first_order() == old(self).first_order() || old(self).valid_orderings().len() == 0,
            final(self).on_network() == match a {
                TreeAction::Apply(m) => old(self).on_network().push(m),
                _ => old(self).on_network(),
            },
            old(self).on_network() == old(self).applied(),
            a is Apply ==> final(self).on_network() == final(self).applied().push(final(self).pending()),
    {
        let ghost q = self.mod_sequence@;
        let ghost m = self.modifiers@;
        let ghost v = self.valid_orderings();
        let ghost rej = self.rejected@;
        if self.stack.len() == 0 {
            self.phase = Phase::Finished;
            if self.all_valid_ordering.len() > 0 {
                let first = copy_modifiers(&self.all_valid_ordering[0]);
                proof {
                    assert(v[0] == self.all_valid_ordering@[0]@);
                    assert forall|p: Seq<ConfigModifier>| #[trigger] is_perm(p, m) implies v.contains(p) || some_prefix_in(p, rej) by {
                        assert(Seq::<ConfigModifier>::empty() + p =~= p);
                    }
                }
                return TreeAction::Done(Ok(first));
            } else {
                proof {
                    assert forall|p: Seq<ConfigModifier>| #[trigger] is_perm(p, m) implies some_prefix_in(p, rej) by {
                        assert(Seq::<ConfigModifier>::empty() + p =~= p);
                    }
                }
                return TreeAction::Done(Err(StrategyError::NoSafeOrdering));
            }
        }
        let t = self.stack.len() - 1;
        let rem_len = self.stack[t].rem_mod.len();
        let cur = self.stack[t].cur_idx;
        if rem_len == 0 {
            proof {
                let s = self.stack@;
                assert(q.take(t as int) =~= q);
                assert(s[t as int].rem_mod@ =~= Seq::<ConfigModifier>::empty());
                assert(Seq::<ConfigModifier>::empty().to_multiset() =~= Multiset::empty());
                assert(q.to_multiset().add(s[t as int].rem_mod@.to_multiset()) == m.to_multiset());
                assert(q.to_multiset() =~= m.to_multiset());
                assert forall|k: int, j: int|
                    0 <= k < s.len() - 1 && 0 <= j < s[k].cur_idx - 1 implies covered(
                    #[trigger] q.take(k).push(s[k].rem_mod@[j]),
                    s[k].rem_mod@.remove(j),
                    v,
                    rej,
                ) by {
                    assert(self.done_children(k) == s[k].cur_idx - 1);
                }
                if v.len() == 0 {
                    lemma_leaf_path(*old(self));
                }
            }
            let found = copy_modifiers(&self.mod_sequence);
            self.all_valid_ordering.push(found);
            self.phase = Phase::UndoPop;
            self.first = Ghost(if v.len() == 0 { self.path@ } else { self.first@ });
            proof {
                lemma_frames_keep(*old(self), *self);
                if v.len() == 0 {
                    let f = self.first@;
                    assert(self.valid_orderings()[0] == q);
                    assert forall|p: Seq<int>| index_order(p, m.len()) && #[trigger] lex_before(p, f) implies some_prefix_in(
                        pick(m, p),
                        rej,
                    ) by {
                        let k = choose|k: int|
                            #![trigger p[k], f[k]]
                            0 <= k < p.len() && k < f.len() && p.take(k) == f.take(k) && p[k] < f[k];
                        lemma_leaf_before(*old(self), p, k);
                    }
                } else {
                    assert(self.valid_orderings()[0] == v[0]);
                    lemma_first_keep(*old(self), *self);
                }
                let v2 = self.valid_orderings();
                assert(v2 =~= v.push(q));
                assert(q.take(t as int) =~= q);
                assert(self.stack@[t as int].rem_mod@ =~= Seq::<ConfigModifier>::empty());
                assert(q.to_multiset().add(Seq::<ConfigModifier>::empty().to_multiset()) == m.to_multiset());
                assert(Seq::<ConfigModifier>::empty().to_multiset() =~= Multiset::empty()) by {
                }
                assert(q.to_multiset() =~= m.to_multiset());
                assert(v2[v.len() as int] == q);
                assert forall|x: Seq<ConfigModifier>| v.contains(x) implies v2.contains(x) by {
                    let i = choose|i: int| 0 <= i < v.len() && v[i] == x;
                    assert(v2[i] == x);
                }
                let s = self.stack@;
                assert forall|k: int, j: int|
                    0 <= k < s.len() && 0 <= j < self.done_children(k) implies covered(
                    #[trigger] q.take(k).push(s[k].rem_mod@[j]),
                    s[k].rem_mod@.remove(j),
                    v2,
                    rej,
                ) by {
                    lemma_covered_mono(q.take(k).push(s[k].rem_mod@[j]), s[k].rem_mod@.remove(j), v, rej, v2, rej);
                }
                assert forall|i: int| 0 <= i < v2.len() implies is_perm(#[trigger] v2[i], m) && all_prefixes_in(v2[i], self.accepted@) by {
                    if i < v.len() {
                        assert(v2[i] == v[i]);
                    }
                }
            }
            return TreeAction::Undo;
        }
        if cur >= rem_len {
            self.phase = Phase::UndoPop;
            proof {
                lemma_frames_keep(*old(self), *self);
                lemma_first_keep(*old(self), *self);
            }
            return TreeAction::Undo;
        }
        let ghost sp0 = stack_potential(self.stack@);
        let ghost sa0 = stack_applies(self.stack@);
        let mut top = self.stack.pop().unwrap();
        top.cur_idx = cur + 1;
        let md = top.rem_mod[cur];
        self.stack.push(top);
        proof {
            let s1 = self.stack@;
            let s0 = old(self).stack@;
            assert(s1.drop_last() =~= s0.drop_last());
            lemma_frame_potential_step(rem_len as nat, cur as nat);
            assert(stack_potential(s1) + subtree_bound((rem_len - 1) as nat) == sp0);
            lemma_frame_applies_step(rem_len as nat, cur as nat);
            assert(stack_applies(s1) + 1 + tree_nodes((rem_len - 1) as nat) == sa0);
        }
        self.phase = Phase::Applying(cur);
        self.num_states = self.num_states + 1;
        self.held = Ghost(q.push(md));
        proof {
            let s = self.stack@;
            let rem = s[t as int].rem_mod@;
            assert forall|k: int| 0 <= k < s.len() - 1 implies 1 <= #[trigger] s[k].cur_idx <= s[k].rem_mod@.len()
                && s[k + 1].rem_mod@ == s[k].rem_mod@.remove(s[k].cur_idx - 1) && q[k]
                == s[k].rem_mod@[s[k].cur_idx - 1] by {
                assert(s[k] == old(self).stack@[k]);
                assert(s[k + 1].rem_mod@ == old(self).stack@[k + 1].rem_mod@);
            }
            assert forall|k: int| 0 <= k < s.len() implies (#[trigger] q.take(k)).to_multiset().add(
                s[k].rem_mod@.to_multiset(),
            ) == m.to_multiset() by {
                assert(s[k].rem_mod@ == old(self).stack@[k].rem_mod@);
            }
            assert forall|k: int, j: int|
                0 <= k < s.len() && 0 <= j < self.done_children(k) implies covered(
                #[trigger] q.take(k).push(s[k].rem_mod@[j]),
                s[k].rem_mod@.remove(j),
                v,
                rej,
            ) by {
                assert(s[k].rem_mod@ == old(self).stack@[k].rem_mod@);
                assert(self.done_children(k) == old(self).done_children(k));
            }
            lemma_frames_keep(*old(self), *self);
            lemma_first_keep(*old(self), *self);
            // the modifier is one not applied yet
            assert(q.take(t as int) =~= q);
            assert(rem.contains(md)) by {
                assert(rem[cur as int] == md);
            }
            assert(q.push(md).to_multiset().subset_of(m.to_multiset())) by {
                assert(q.to_multiset().add(rem.to_multiset()) == m.to_multiset());
                assert(rem.to_multiset().count(md) > 0);
                assert forall|x: ConfigModifier| q.push(md).to_multiset().count(x) <= m.to_multiset().count(x) by {
                    assert(q.push(md).to_multiset() =~= q.to_multiset().insert(md));
                }
            }
        }
        TreeAction::Apply(md)
    }

    fn on_applied(&mut self, ok: bool) -> (a: TreeAction)
        requires
            old(self).wf(),
            event_fits(old(self).waiting(), TreeEvent::Applied(ok)),
            old(self).states() < usize::MAX,
        ensures
            step_post(*old(self), *final(self), TreeEvent::Applied(ok), a),
    {
        if ok {
            self.on_accepted()
        } else {
            self.on_rejected()
        }
    }

    #[verifier::spinoff_prover]
    #[verifier::rlimit(100)]
    fn on_accepted(&mut self) -> (a: TreeAction)
        requires
            old(self).wf(),
            event_fits(old(self).waiting(), TreeEvent::Applied(true)),
            old(self).states() < usize::MAX,
        ensures
            step_post(*old(self), *final(self), TreeEvent::Applied(true), a),
    {
        let ghost q = self.mod_sequence@;
        let ghost m = self.modifiers@;
        let ghost v = self.valid_orderings();
        let ghost rej = self.rejected@;
        let ghost acc = self.accepted@;
        let ghost s0 = self.stack@;
        let c = match self.phase {
            Phase::Applying(c) => c,
            _ => {
                proof {
                    assert(false);
                }
                0
            },
        };
        let t = self.stack.len() - 1;
        let md = self.stack[t].rem_mod[c];
        let ghost qm = q.push(md);
        let ghost ri = s0[t as int].rem_idx@;
        let ghost pth = self.path@;
        let ghost lenm1 = (s0[t as int].rem_mod@.len() - 1) as nat;
        proof {
            lemma_frame_applies_step(s0[t as int].rem_mod@.len(), c as nat);
        }
        let mut new_rem = copy_modifiers(&self.stack[t].rem_mod);
        new_rem.remove(c);
        self.mod_sequence.push(md);
        self.accepted = Ghost(acc.insert(qm));
        self.stack.push(Frame { rem_mod: new_rem, cur_idx: 0, rem_idx: Ghost(ri.remove(c as int)) });
        self.path = Ghost(pth.push(ri[c as int]));
        self.phase = Phase::CheckStop;
        proof {
            assert(self.idx_frames()) by {
                lemma_frames_push(*old(self), *self, c as int);
            }
            assert(self.first_inv()) by {
                lemma_first_keep(*old(self), *self);
            }
            assert(self.count_inv()) by {
                assert(self.stack@.drop_last() =~= s0);
                assert(stack_applies(self.stack@) == stack_applies(s0) + tree_nodes(lenm1));
            }
            assert(self.remaining() == old(self).remaining()) by {
                let s = self.stack@;
                let rem = s0[t as int].rem_mod@;
                assert(s.drop_last() =~= s0);
                assert(stack_potential(s) == stack_potential(s0) + frame_potential((rem.len() - 1) as nat, 0));
            }
            assert(self.wf_search()) by {
                let s = self.stack@;
                let q2 = self.mod_sequence@;
                let acc2 = self.accepted@;
                let rem = s0[t as int].rem_mod@;
                assert(s.drop_last() =~= s0);
                assert(stack_potential(s) == stack_potential(s0) + frame_potential((rem.len() - 1) as nat, 0));
                assert(q2 == qm);
                assert forall|k: int| 0 <= k <= t implies #[trigger] q2.take(k) == q.take(k) by {
                    assert(q2.take(k) =~= q.take(k));
                }
                assert forall|k: int| 0 <= k <= t implies #[trigger] s[k] == s0[k] by {}
                assert(s[t + 1].rem_mod@ == rem.remove(c as int));
                assert forall|k: int| 0 <= k < s.len() - 1 implies 1 <= #[trigger] s[k].cur_idx <= s[k].rem_mod@.len()
                    && s[k + 1].rem_mod@ == s[k].rem_mod@.remove(s[k].cur_idx - 1) && q2[k]
                    == s[k].rem_mod@[s[k].cur_idx - 1] by {
                    assert(s[k] == s0[k]);
                    if k + 1 < t + 1 {
                        assert(s[k + 1] == s0[k + 1]);
                    }
                }
                assert(q.take(t as int) =~= q);
                assert forall|k: int| 0 <= k < s.len() implies (#[trigger] q2.take(k)).to_multiset().add(
                    s[k].rem_mod@.to_multiset(),
                ) == m.to_multiset() by {
                    if k <= t {
                        assert(s[k] == s0[k]);
                        assert(q2.take(k) == q.take(k));
                    } else {
                        assert(q2.take(k) =~= q2);
                        assert(rem[c as int] == md);
                        assert(q.to_multiset().add(rem.to_multiset()) == m.to_multiset());
                        assert(q2.to_multiset().add(rem.remove(c as int).to_multiset()) =~= q.to_multiset().add(rem.to_multiset()));
                    }
                }
                assert forall|i: int| 1 <= i <= q2.len() implies acc2.contains(#[trigger] q2.take(i)) by {
                    if i <= t {
                        assert(q2.take(i) == q.take(i));
                        assert(acc.contains(q.take(i)));
                    } else {
                        assert(q2.take(i) =~= q2);
                    }
                }
                assert forall|i: int| 0 <= i < v.len() implies is_perm(#[trigger] v[i], m) && all_prefixes_in(v[i], acc2) by {
                    assert forall|x: int| 1 <= x <= v[i].len() implies acc2.contains(#[trigger] v[i].take(x)) by {
                        assert(acc.contains(v[i].take(x)));
                    }
                }
                assert forall|k: int, j: int|
                    0 <= k < s.len() && 0 <= j < self.done_children(k) implies covered(
                    #[trigger] q2.take(k).push(s[k].rem_mod@[j]),
                    s[k].rem_mod@.remove(j),
                    v,
                    rej,
                ) by {
                    assert(k <= t);
                    assert(s[k] == s0[k]);
                    assert(q2.take(k) == q.take(k));
                    assert(self.done_children(k) == old(self).done_children(k));
                }
            }
        }
        self.advance()
    }

    #[verifier::spinoff_prover]
    #[verifier::rlimit(100)]
    fn on_rejected(&mut self) -> (a: TreeAction)
        requires
            old(self).wf(),
            event_fits(old(self).waiting(), TreeEvent::Applied(false)),
            old(self).states() < usize::MAX,
        ensures
            step_post(*old(self), *final(self), TreeEvent::Applied(false), a),
    {
        let ghost q = self.mod_sequence@;
        let ghost m = self.modifiers@;
        let ghost v = self.valid_orderings();
        let ghost rej = self.rejected@;
        let ghost acc = self.accepted@;
        let ghost s0 = self.stack@;
        let c = match self.phase {
            Phase::Applying(c) => c,
            _ => {
                proof {
                    assert(false);
                }
                0
            },
        };
        let t = self.stack.len() - 1;
        let md = self.stack[t].rem_mod[c];
        let ghost qm = q.push(md);
        let ghost ri = s0[t as int].rem_idx@;
        let ghost pth = self.path@;
        let ghost lenm1 = (s0[t as int].rem_mod@.len() - 1) as nat;
        proof {
            lemma_frame_applies_step(s0[t as int].rem_mod@.len(), c as nat);
        }
        self.rejected = Ghost(rej.insert(qm));
        self.skipped = Ghost(self.skipped@ + tree_nodes(lenm1));
        self.phase = Phase::UndoFailed;
        proof {
            lemma_frames_keep(*old(self), *self);
            lemma_first_keep(*old(self), *self);
            assert(self.held@.drop_last() =~= self.mod_sequence@);
            assert(self.rejected@.contains(qm));
            let s = self.stack@;
            let rej2 = self.rejected@;
            assert(rej.subset_of(rej2));
            assert(q.take(t as int) =~= q);
            assert forall|k: int, j: int|
                0 <= k < s.len() && 0 <= j < self.done_children(k) implies covered(
                #[trigger] q.take(k).push(s[k].rem_mod@[j]),
                s[k].rem_mod@.remove(j),
                v,
                rej2,
            ) by {
                if k == t && j == c {
                    assert(s[k].rem_mod@[j] == md);
                    assert forall|p: Seq<ConfigModifier>| #[trigger] is_perm(p, s[k].rem_mod@.remove(j)) implies v.contains(qm + p) || some_prefix_in(qm + p, rej2) by {
                        assert((qm + p).take(qm.len() as int) =~= qm);
                    }
                } else {
                    lemma_covered_mono(q.take(k).push(s[k].rem_mod@[j]), s[k].rem_mod@.remove(j), v, rej, v, rej2);
                }
            }
        }
        TreeAction::Undo
    }

    fn on_undone(&mut self, r: Result<(), NetworkError>) -> (a: TreeAction)
        requires
            old(self).wf(),
            event_fits(old(self).waiting(), TreeEvent::Undone(r)),
            old(self).states() < usize::MAX,
        ensures
            step_post(*old(self), *final(self), TreeEvent::Undone(r), a),
    {
        let ghost q = self.mod_sequence@;
        let ghost m = self.modifiers@;
        let ghost v = self.valid_orderings();
        let ghost rej = self.rejected@;
        let ghost acc = self.accepted@;
        let ghost s0 = self.stack@;
        match r {
            Err(e) => {
                self.phase = Phase::Finished;
                TreeAction::Done(Err(StrategyError::Network(e)))
            },
            Ok(()) => {
                if self.phase == Phase::UndoFailed {
                    self.phase = Phase::CheckStop;
                    self.held = Ghost(self.held@.drop_last());
                    proof {
                        lemma_frames_keep(*old(self), *self);
                        lemma_first_keep(*old(self), *self);
                    }
                    self.advance()
                } else {
                    let t = self.stack.len() - 1;
                    let ghost pth = self.path@;
                    proof {
                        let rem = s0[t as int].rem_mod@;
                        assert(q.take(t as int) =~= q);
                        assert forall|j: int| 0 <= j < rem.len() implies covered(#[trigger] q.push(rem[j]), rem.remove(j), v, rej) by {
                            assert(old(self).done_children(t as int) == s0[t as int].cur_idx);
                        }
                        lemma_cover_frame(q, rem, v, rej);
                    }
                    self.stack.pop();
                    self.mod_sequence.pop();
                    self.path = Ghost(if pth.len() > 0 { pth.drop_last() } else { pth });
                    self.held = Ghost(if q.len() > 0 { q.drop_last() } else { q });
                    self.phase = Phase::CheckStop;
                    proof {
                        let s = self.stack@;
                        let q2 = self.mod_sequence@;
                        let p2 = self.path@;
                        lemma_first_keep(*old(self), *self);
                        assert(s =~= s0.drop_last());
                        assert(frame_applies(s0[t as int].rem_mod@.len(), s0[t as int].cur_idx as nat) == 0);
                        assert(q2 =~= pick(m, p2));
                        assert forall|k: int, x: int| 0 <= k < s.len() implies (#[trigger] s[k].rem_idx@.contains(x)
                            <==> (0 <= x < m.len() && !p2.take(k).contains(x))) by {
                            assert(s[k] == s0[k]);
                            assert(p2.take(k) =~= pth.take(k));
                        }
                        assert forall|k: int| 0 <= k < s.len() implies (#[trigger] s[k]).rem_mod@ == pick(m, s[k].rem_idx@)
                            && increasing(s[k].rem_idx@) by {
                            assert(s[k] == s0[k]);
                        }
                        assert forall|k: int| 0 <= k < s.len() - 1 implies p2[k] == (#[trigger] s[k]).rem_idx@[s[k].cur_idx
                            - 1] by {
                            assert(s[k] == s0[k]);
                            assert(p2[k] == pth[k]);
                        }
                        assert(self.idx_frames());
                        assert(q.len() > 0 ==> q2 =~= q.drop_last());
                        assert(q.len() == 0 ==> q2 == q);
                        assert forall|k: int| 0 <= k < t implies #[trigger] q2.take(k) == q.take(k) by {
                            assert(q2.take(k) =~= q.take(k));
                        }
                        assert forall|k: int| 0 <= k < t implies #[trigger] s[k] == s0[k] by {}
                        if t == 0 {
                            assert(q =~= Seq::<ConfigModifier>::empty());
                        } else {
                            let pr = s0[t - 1];
                            assert(q.take(t - 1).push(pr.rem_mod@[pr.cur_idx - 1]) =~= q);
                        }
                        assert forall|k: int| 0 <= k < s.len() - 1 implies 1 <= #[trigger] s[k].cur_idx <= s[k].rem_mod@.len()
                            && s[k + 1].rem_mod@ == s[k].rem_mod@.remove(s[k].cur_idx - 1) && q2[k]
                            == s[k].rem_mod@[s[k].cur_idx - 1] by {
                            assert(s[k] == s0[k] && s[k + 1] == s0[k + 1]);
                            assert(q2[k] == q[k]);
                        }
                        assert forall|k: int| 0 <= k < s.len() implies (#[trigger] q2.take(k)).to_multiset().add(
                            s[k].rem_mod@.to_multiset(),
                        ) == m.to_multiset() by {
                            assert(s[k] == s0[k]);
                            assert(q2.take(k) == q.take(k));
                        }
                        assert forall|i: int| 1 <= i <= q2.len() implies self.accepted@.contains(#[trigger] q2.take(i)) by {
                            assert(q2.take(i) =~= q.take(i));
                        }
                        assert forall|k: int, j: int|
                            0 <= k < s.len() && 0 <= j < self.done_children(k) implies covered(
                            #[trigger] q2.take(k).push(s[k].rem_mod@[j]),
                            s[k].rem_mod@.remove(j),
                            v,
                            rej,
                        ) by {
                            assert(s[k] == s0[k]);
                            assert(q2.take(k) == q.take(k));
                            if k + 1 < t {
                                assert(self.done_children(k) == old(self).done_children(k));
                            } else if j < s0[k].cur_idx - 1 {
                                assert(old(self).done_children(k) == s0[k].cur_idx - 1);
                            } else {
                                assert(j == s0[k].cur_idx - 1);
                                assert(q.take(k).push(s0[k].rem_mod@[j]) =~= q);
                            }
                        }
                    }
                    TreeAction::CheckStop
                }
            },
        }
    }

    fn on_stop(&mut self, timed_out: bool, aborted: bool) -> (a: TreeAction)
        requires
            old(self).wf(),
            event_fits(old(self).waiting(), (TreeEvent::Stop { timed_out: timed_out, aborted: aborted })),
            old(self).states() < usize::MAX,
        ensures
            step_post(*old(self), *final(self), (TreeEvent::Stop { timed_out: timed_out, aborted: aborted }), a),
    {
        let ghost q = self.mod_sequence@;
        let ghost m = self.modifiers@;
        let ghost v = self.valid_orderings();
        let ghost rej = self.rejected@;
        let ghost acc = self.accepted@;
        let ghost s0 = self.stack@;
        if timed_out {
            self.phase = Phase::Finished;
            TreeAction::Done(Err(StrategyError::Timeout))
        } else if aborted {
            self.phase = Phase::Finished;
            TreeAction::Done(Err(StrategyError::Abort))
        } else {
            self.advance()
        }
    }

    /// Reports how the last action went and returns the next one.
    ///
    /// Every ordering that the search answers with is an ordering of its modifiers each
    /// step of which was reported to work, and every ordering of the indices before it has a
    /// step that was reported to fail. When it answers that there is none, every ordering of
    /// its modifiers has a step that was reported to fail. It asks for at most as many
    /// applications as there are nonempty sequences of distinct modifiers, and for exactly
    /// that many when it completes without a failure.
    ///
    /// It keeps account of what the network holds: each application it asks for adds a
    /// modifier, each undo the network reports takes the last one back. A modifier that fails
    /// to apply is answered by an undo, at once, and the search asks for another application,
    /// a check or an end only when the network holds exactly the modifiers applied.
    pub fn step(&mut self, ev: TreeEvent) -> (a: TreeAction)
        requires
            old(self).wf(),
            event_fits(old(self).waiting(), ev),
            old(self).states() < usize::MAX,
        ensures
            step_post(*old(self), *final(self), ev, a),
    {
        match ev {
            TreeEvent::Start => {
                self.phase = Phase::CheckStop;
                proof {
                    lemma_frames_keep(*old(self), *self);
                    lemma_first_keep(*old(self), *self);
                }
                self.advance()
            },
            TreeEvent::Applied(ok) => self.on_applied(ok),
            TreeEvent::Undone(r) => self.on_undone(r),
            TreeEvent::Stop { timed_out, aborted } => self.on_stop(timed_out, aborted),
        }
    }

    /// The number of modifiers the search has asked to apply so far.
    pub fn num_states(&self) -> (n: usize)
        ensures
            n == self.states(),
    {
        self.num_states
    }

    /// The orderings found so far all of whose steps worked, in the order found.
    pub fn all_valid_orderings(&self) -> (r: &Vec<Vec<ConfigModifier>>)
        ensures
            r@.map_values(|v: Vec<ConfigModifier>| v@) == self.valid_orderings(),
    {
        &self.all_valid_ordering
    }
}


/// The indices of the frames stay right when only the top frame's count of tried modifiers
/// changes.
proof fn lemma_frames_keep(pre: ExhaustiveTreeStrategy, post: ExhaustiveTreeStrategy)
    requires
        pre.idx_frames(),
        post.modifiers@ == pre.modifiers@,
        post.mod_sequence@ == pre.mod_sequence@,
        post.path@ == pre.path@,
        post.stack@.len() == pre.stack@.len(),
        forall|k: int|
            0 <= k < pre.stack@.len() ==> (#[trigger] post.stack@[k]).rem_mod@ == pre.stack@[k].rem_mod@
                && post.stack@[k].rem_idx@ == pre.stack@[k].rem_idx@,
        forall|k: int| 0 <= k < pre.stack@.len() - 1 ==> (#[trigger] post.stack@[k]).cur_idx == pre.stack@[k].cur_idx,
    ensures
        post.idx_frames(),
{
    let s = post.stack@;
    assert forall|k: int, x: int| 0 <= k < s.len() implies (#[trigger] s[k].rem_idx@.contains(x) <==> (0
        <= x < post.modifiers@.len() && !post.path@.take(k).contains(x))) by {
        assert(s[k].rem_idx@ == pre.stack@[k].rem_idx@);
    }
    assert forall|k: int| 0 <= k < s.len() implies (#[trigger] s[k]).rem_mod@ == pick(
        post.modifiers@,
        s[k].rem_idx@,
    ) && increasing(s[k].rem_idx@) by {
        assert(s[k].rem_idx@ == pre.stack@[k].rem_idx@);
        assert(pre.stack@[k].rem_mod@ == pick(pre.modifiers@, pre.stack@[k].rem_idx@));
    }
    assert forall|k: int| 0 <= k < s.len() - 1 implies post.path@[k] == (#[trigger] s[k]).rem_idx@[s[k].cur_idx
        - 1] by {
        assert(s[k].cur_idx == pre.stack@[k].cur_idx);
        assert(s[k].rem_idx@ == pre.stack@[k].rem_idx@);
        assert(pre.path@[k] == pre.stack@[k].rem_idx@[pre.stack@[k].cur_idx - 1]);
    }
}

/// Applying modifier `c` of the top frame pushes a frame of the indices left after it.
proof fn lemma_frames_push(pre: ExhaustiveTreeStrategy, post: ExhaustiveTreeStrategy, c: int)
    requires
        pre.idx_frames(),
        pre.stack@.len() > 0,
        pre.mod_sequence@.len() + 1 == pre.stack@.len(),
        0 <= c < pre.stack@.last().rem_mod@.len(),
        pre.stack@.last().cur_idx == c + 1,
        post.modifiers@ == pre.modifiers@,
        post.stack@.len() == pre.stack@.len() + 1,
        forall|k: int| 0 <= k < pre.stack@.len() ==> post.stack@[k] == pre.stack@[k],
        post.stack@.last().rem_mod@ == pre.stack@.last().rem_mod@.remove(c),
        post.stack@.last().rem_idx@ == pre.stack@.last().rem_idx@.remove(c),
        post.path@ == pre.path@.push(pre.stack@.last().rem_idx@[c]),
        post.mod_sequence@ == pre.mod_sequence@.push(pre.stack@.last().rem_mod@[c]),
    ensures
        post.idx_frames(),
{
    let s0 = pre.stack@;
    let s = post.stack@;
    let m = pre.modifiers@;
    let t = s0.len() - 1;
    let ri = s0[t].rem_idx@;
    let ri2 = ri.remove(c);
    let pth = pre.path@;
    let p2 = post.path@;
    assert(s[t + 1].rem_mod@ =~= pick(m, ri2));
    assert(increasing(ri2)) by {
        assert forall|a: int, b: int| 0 <= a < b < ri2.len() implies #[trigger] ri2[a] < #[trigger] ri2[b] by {
            let a1 = if a < c { a } else { a + 1 };
            let b1 = if b < c { b } else { b + 1 };
            assert(ri[a1] == ri2[a] && ri[b1] == ri2[b]);
        }
    }
    assert(post.mod_sequence@ =~= pick(m, p2));
    assert(pth.take(t) =~= pth);
    assert(p2.take(t + 1) =~= p2);
    assert forall|k: int, x: int| 0 <= k < s.len() implies (#[trigger] s[k].rem_idx@.contains(x)
        <==> (0 <= x < m.len() && !p2.take(k).contains(x))) by {
        if k <= t {
            assert(s[k] == s0[k]);
            assert(p2.take(k) =~= pth.take(k));
        } else {
            if ri2.contains(x) {
                let b = choose|b: int| 0 <= b < ri2.len() && ri2[b] == x;
                let b1 = if b < c { b } else { b + 1 };
                assert(ri[b1] == x);
                assert(ri.contains(x));
                if b1 < c {
                    assert(ri[b1] < ri[c]);
                } else {
                    assert(ri[c] < ri[b1]);
                }
                if p2.contains(x) {
                    let l = choose|l: int| 0 <= l < p2.len() && p2[l] == x;
                    if l < t {
                        assert(pth.contains(x));
                    }
                }
            }
            if 0 <= x < m.len() && !p2.contains(x) {
                assert(!pth.contains(x)) by {
                    if pth.contains(x) {
                        let l = choose|l: int| 0 <= l < pth.len() && pth[l] == x;
                        assert(p2[l] == x);
                    }
                }
                assert(x != ri[c]) by {
                    assert(p2[t] == ri[c]);
                }
                assert(ri.contains(x));
                let b = choose|b: int| 0 <= b < ri.len() && ri[b] == x;
                assert(b != c);
                assert(ri2[if b < c { b } else { b - 1 }] == x);
            }
        }
    }
    assert forall|k: int| 0 <= k < s.len() implies (#[trigger] s[k]).rem_mod@ == pick(m, s[k].rem_idx@)
        && increasing(s[k].rem_idx@) by {
        if k <= t {
            assert(s[k] == s0[k]);
        }
    }
    assert forall|k: int| 0 <= k < s.len() - 1 implies p2[k] == (#[trigger] s[k]).rem_idx@[s[k].cur_idx
        - 1] by {
        assert(s[k] == s0[k]);
        if k < t {
            assert(p2[k] == pth[k]);
        }
    }
}

/// The first ordering found keeps its place while rejections only grow.
proof fn lemma_first_keep(pre: ExhaustiveTreeStrategy, post: ExhaustiveTreeStrategy)
    requires
        pre.first_inv(),
        post.modifiers@ == pre.modifiers@,
        post.first@ == pre.first@,
        pre.rejected@.subset_of(post.rejected@),
        post.valid_orderings().len() > 0 ==> pre.valid_orderings().len() > 0
            && post.valid_orderings()[0] == pre.valid_orderings()[0],
    ensures
        post.first_inv(),
{
    if post.valid_orderings().len() > 0 {
        let m = post.modifiers@;
        assert forall|p: Seq<int>| index_order(p, m.len()) && #[trigger] lex_before(p, post.first@) implies some_prefix_in(
            pick(m, p),
            post.rejected@,
        ) by {
            assert(some_prefix_in(pick(m, p), pre.rejected@));
            let i = choose|i: int| 1 <= i <= pick(m, p).len() && pre.rejected@.contains(#[trigger] pick(m, p).take(i));
            assert(post.rejected@.contains(pick(m, p).take(i)));
        }
    }
}

/// At the first leaf, the applied indices order all the modifiers.
proof fn lemma_leaf_path(st: ExhaustiveTreeStrategy)
    requires
        st.idx_frames(),
        st.stack@.len() > 0,
        st.stack@.last().rem_mod@.len() == 0,
        st.mod_sequence@.len() + 1 == st.stack@.len(),
        st.mod_sequence@.to_multiset() == st.modifiers@.to_multiset(),
        forall|k: int| 0 <= k < st.stack@.len() - 1 ==> 1 <= #[trigger] st.stack@[k].cur_idx <= st.stack@[k].rem_mod@.len(),
    ensures
        index_order(st.path@, st.modifiers@.len()),
        pick(st.modifiers@, st.path@) == st.mod_sequence@,
{
    let s = st.stack@;
    let q = st.mod_sequence@;
    let m = st.modifiers@;
    let pth = st.path@;
    let n = m.len();
    let t = s.len() - 1;
    assert(q.to_multiset().len() == q.len());
    assert(m.to_multiset().len() == m.len());
    assert(q.len() == n);
    assert(pth.take(t) =~= pth);
    assert(s[t].rem_idx@.len() == 0);
    assert forall|x: int| 0 <= x < n implies #[trigger] pth.contains(x) by {
        assert(!s[t].rem_idx@.contains(x));
    }
    assert forall|i: int| 0 <= i < pth.len() implies 0 <= #[trigger] pth[i] < n && !pth.take(i).contains(pth[i]) by {
        let c = s[i].cur_idx;
        assert(1 <= s[i].cur_idx <= s[i].rem_mod@.len());
        assert(s[i].rem_idx@[c - 1] == pth[i]);
        assert(s[i].rem_idx@.contains(pth[i]));
    }
    assert forall|i: int, j: int| 0 <= i < pth.len() && 0 <= j < pth.len() && i != j implies pth[i] != pth[j] by {
        if i < j {
            assert(pth.take(j)[i] == pth[i]);
            assert(!pth.take(j).contains(pth[j]));
        } else {
            assert(pth.take(i)[j] == pth[j]);
            assert(!pth.take(i).contains(pth[i]));
        }
    }
}

/// At the first leaf, an ordering of the indices that comes before the applied one has a
/// rejected prefix.
proof fn lemma_leaf_before(st: ExhaustiveTreeStrategy, p: Seq<int>, k: int)
    requires
        st.idx_frames(),
        st.stack@.len() > 0,
        st.mod_sequence@.len() + 1 == st.stack@.len(),
        forall|k: int| 0 <= k < st.stack@.len() - 1 ==> 1 <= #[trigger] st.stack@[k].cur_idx <= st.stack@[k].rem_mod@.len(),
        forall|k: int, j: int|
            0 <= k < st.stack@.len() - 1 && 0 <= j < st.stack@[k].cur_idx - 1 ==> covered(
                #[trigger] st.mod_sequence@.take(k).push(st.stack@[k].rem_mod@[j]),
                st.stack@[k].rem_mod@.remove(j),
                st.valid_orderings(),
                st.rejected@,
            ),
        st.valid_orderings().len() == 0,
        index_order(p, st.modifiers@.len()),
        index_order(st.path@, st.modifiers@.len()),
        0 <= k < p.len(),
        p.take(k) == st.path@.take(k),
        p[k] < st.path@[k],
    ensures
        some_prefix_in(pick(st.modifiers@, p), st.rejected@),
{
    let s = st.stack@;
    let q = st.mod_sequence@;
    let m = st.modifiers@;
    let pth = st.path@;
    let n = m.len();
    let t = s.len() - 1;
    assert(q.len() == pth.len());
    assert(k < t);
    let x = p[k];
    let ri = s[k].rem_idx@;
    let c = s[k].cur_idx as int;
    assert(!p.take(k).contains(x)) by {
        if p.take(k).contains(x) {
            let l = choose|l: int| 0 <= l < k && p.take(k)[l] == x;
            assert(p[l] == x);
        }
    }
    assert(ri.contains(x));
    let j = choose|j: int| 0 <= j < ri.len() && ri[j] == x;
    assert(1 <= c <= s[k].rem_mod@.len());
    assert(pth[k] == ri[c - 1]);
    assert(j < c - 1) by {
        if j > c - 1 {
            assert(ri[c - 1] < ri[j]);
        }
    }
    let rm = s[k].rem_mod@;
    assert(covered(q.take(k).push(rm[j]), rm.remove(j), st.valid_orderings(), st.rejected@));
    let rest = p.skip(k + 1);
    let rj = ri.remove(j);
    assert(rest.no_duplicates()) by {
        assert forall|a: int, b: int| 0 <= a < rest.len() && 0 <= b < rest.len() && a != b implies rest[a] != rest[b] by {
            assert(rest[a] == p[a + k + 1] && rest[b] == p[b + k + 1]);
        }
    }
    assert(rj.no_duplicates()) by {
        assert forall|a: int, b: int| 0 <= a < rj.len() && 0 <= b < rj.len() && a != b implies rj[a] != rj[b] by {
            let a1 = if a < j { a } else { a + 1 };
            let b1 = if b < j { b } else { b + 1 };
            assert(ri[a1] == rj[a] && ri[b1] == rj[b]);
            if a1 < b1 {
                assert(ri[a1] < ri[b1]);
            } else {
                assert(ri[b1] < ri[a1]);
            }
        }
    }
    assert forall|y: int| rest.contains(y) <==> rj.contains(y) by {
        if rest.contains(y) {
            let a = choose|a: int| 0 <= a < rest.len() && rest[a] == y;
            assert(p[a + k + 1] == y);
            assert(0 <= y < n);
            assert(!pth.take(k).contains(y)) by {
                if pth.take(k).contains(y) {
                    let l = choose|l: int| 0 <= l < k && pth.take(k)[l] == y;
                    assert(p.take(k)[l] == y);
                    assert(p[l] == y);
                }
            }
            assert(ri.contains(y));
            let b = choose|b: int| 0 <= b < ri.len() && ri[b] == y;
            assert(b != j);
            assert(rj[if b < j { b } else { b - 1 }] == y);
        }
        if rj.contains(y) {
            let b = choose|b: int| 0 <= b < rj.len() && rj[b] == y;
            let b1 = if b < j { b } else { b + 1 };
            assert(ri[b1] == y);
            assert(ri.contains(y));
            assert(y != x) by {
                if b1 < j {
                    assert(ri[b1] < ri[j]);
                } else {
                    assert(ri[j] < ri[b1]);
                }
            }
            assert(0 <= y < n && !pth.take(k).contains(y));
            assert(p.contains(y));
            let l = choose|l: int| 0 <= l < p.len() && p[l] == y;
            if l < k {
                assert(p.take(k)[l] == y);
                assert(pth.take(k).contains(y));
            }
            assert(l != k);
            assert(rest[l - k - 1] == y);
        }
    }
    lemma_pick_same_elements(m, rest, rj);
    assert(pick(m, rj) =~= rm.remove(j));
    assert(is_perm(pick(m, rest), rm.remove(j)));
    assert(!st.valid_orderings().contains(q.take(k).push(rm[j]) + pick(m, rest)));
    assert(q.take(k) =~= pick(m, pth.take(k)));
    assert(rm[j] == m[x]);
    assert(q.take(k).push(rm[j]) + pick(m, rest) =~= pick(m, p));
}

#[verifier::external_body]
/// Shuffles the modifiers with `rand`'s `SliceRandom::shuffle` and the thread-local
/// generator. The result is some ordering of the same modifiers; which one is chance.
fn shuffle_modifiers(v: &mut Vec<ConfigModifier>)
    ensures
        final(v)@.to_multiset() == old(v)@.to_multiset(),
{
    v.shuffle(&mut rand::thread_rng());
}

fn copy_modifiers(v: &Vec<ConfigModifier>) -> (r: Vec<ConfigModifier>)
    ensures
        r@ == v@,
{
    let mut r: Vec<ConfigModifier> = Vec::new();
    let mut i: usize = 0;
    while i < v.len()
        invariant
            i <= v@.len(),
            r@ == v@.take(i as int),
        decreases v@.len() - i,
    {
        r.push(v[i]);
        i = i + 1;
        assert(r@ =~= v@.take(i as int));
    }
    assert(r@ =~= v@);
    r
}

/// Law: when the network answers each application according to a fixed judgement of the
/// sequence applied, an answer that no ordering works means that every ordering of the
/// modifiers has a step that the judgement refuses; an ordering that the search answers
/// with has only steps that it accepts.
pub proof fn lemma_search_agrees_with_judgement(
    modifiers: Seq<ConfigModifier>,
    accepted: Set<Seq<ConfigModifier>>,
    rejected: Set<Seq<ConfigModifier>>,
    works: spec_fn(Seq<ConfigModifier>) -> bool,
    answer: Option<Seq<ConfigModifier>>,
)
    requires
        forall|x: Seq<ConfigModifier>| accepted.contains(x) ==> works(x),
        forall|x: Seq<ConfigModifier>| rejected.contains(x) ==> !works(x),
        answer matches Some(v) ==> is_perm(v, modifiers) && all_prefixes_in(v, accepted),
        answer is None ==> forall|p: Seq<ConfigModifier>| #[trigger] is_perm(p, modifiers) ==> some_prefix_in(p, rejected),
    ensures
        answer matches Some(v) ==> forall|i: int| 1 <= i <= v.len() ==> works(#[trigger] v.take(i)),
        answer is None ==> forall|p: Seq<ConfigModifier>| #[trigger] is_perm(p, modifiers) ==> exists|i: int|
            1 <= i <= p.len() && !works(#[trigger] p.take(i)),
{
    if answer is None {
        assert forall|p: Seq<ConfigModifier>| #[trigger] is_perm(p, modifiers) implies exists|i: int|
            1 <= i <= p.len() && !works(#[trigger] p.take(i)) by {
            let i = choose|i: int| 1 <= i <= p.len() && rejected.contains(#[trigger] p.take(i));
            assert(!works(p.take(i)));
        }
    }
}


proof fn lemma_first_difference(a: Seq<int>, b: Seq<int>, i: int) -> (k: int)
    requires
        a.len() == b.len(),
        0 <= i < a.len(),
        a[i] != b[i],
    ensures
        0 <= k <= i,
        a.take(k) == b.take(k),
        a[k] != b[k],
    decreases i,
{
    if a.take(i) =~= b.take(i) {
        i
    } else {
        assert(exists|j: int| 0 <= j < i && a[j] != b[j]) by {
            if !(exists|j: int| 0 <= j < i && a[j] != b[j]) {
                assert(a.take(i) =~= b.take(i));
            }
        }
        let j = choose|j: int| 0 <= j < i && a[j] != b[j];
        lemma_first_difference(a, b, j)
    }
}

/// Law: for a fixed judgement of sequences, there is at most one ordering of the indices
/// whose every step the judgement accepts and before which every ordering has a step that it
/// refuses. So two searches over the same modifiers, told the same judgement, answer with the
/// same ordering.
pub proof fn lemma_first_order_unique(
    m: Seq<ConfigModifier>,
    works: spec_fn(Seq<ConfigModifier>) -> bool,
    a: Seq<int>,
    b: Seq<int>,
)
    requires
        index_order(a, m.len()),
        index_order(b, m.len()),
        forall|i: int| 1 <= i <= a.len() ==> works(#[trigger] pick(m, a).take(i)),
        forall|i: int| 1 <= i <= b.len() ==> works(#[trigger] pick(m, b).take(i)),
        forall|p: Seq<int>|
            index_order(p, m.len()) && #[trigger] lex_before(p, a) ==> exists|i: int|
                1 <= i <= p.len() && !works(#[trigger] pick(m, p).take(i)),
        forall|p: Seq<int>|
            index_order(p, m.len()) && #[trigger] lex_before(p, b) ==> exists|i: int|
                1 <= i <= p.len() && !works(#[trigger] pick(m, p).take(i)),
    ensures
        a == b,
{
    if a != b {
        assert(exists|i: int| 0 <= i < a.len() && a[i] != b[i]) by {
            if !(exists|i: int| 0 <= i < a.len() && a[i] != b[i]) {
                assert(a =~= b);
            }
        }
        let i = choose|i: int| 0 <= i < a.len() && a[i] != b[i];
        let k = lemma_first_difference(a, b, i);
        if a[k] < b[k] {
            assert(lex_before(a, b));
            let j = choose|j: int| 1 <= j <= a.len() && !works(#[trigger] pick(m, a).take(j));
        } else {
            assert(b.take(k) == a.take(k));
            assert(lex_before(b, a));
            let j = choose|j: int| 1 <= j <= b.len() && !works(#[trigger] pick(m, b).take(j));
        }
    }
}

} // verus!
