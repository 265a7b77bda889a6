//! Chain-shaped benchmark networks: a line of internal routers `r00`, `r01`, ... between two
//! border routers `b00` and `b01`, each of which has an external neighbor (`e00`, `e01`) that
//! advertises the same prefix. The reconfiguration adds iBGP sessions from the first routers
//! of the chain to `b00`, one per step.
use vstd::prelude::*;
use crate::config::{Config, exprs_map, is_diff_patch, keys_distinct, lemma_exprs_map_push, lemma_exprs_map_len, diff_modifier, seq_has_key, lemma_exprs_map_index, config_routers_below};
use crate::decimal::{dec_pad2, lemma_dec_pad2_injective, to_decimal_pad2};
use crate::netsim::{AsId, BgpSessionType, ConfigExpr, ConfigExprKey, ConfigModifier, Prefix, RouteMap, RouteMapDirection, RouterId, expr_key, modifier_key};
use crate::network::{Network, RouteView, internal_routers};
use crate::policy::HardPolicy;

verus! {

/// The number of routers in a chain of `n` routers: at least one.
pub open spec fn chain_len(n: nat) -> nat {
    if n == 0 { 1 } else { n }
}

/// The name of router `j` of a chain network: `e00`, `e01`, `b00`, `b01`, then `r00`, `r01`, ...
pub open spec fn chain_name(j: int) -> Seq<char> {
    if j == 0 {
        "e00"@
    } else if j == 1 {
        "e01"@
    } else if j == 2 {
        "b00"@
    } else if j == 3 {
        "b01"@
    } else {
        seq!['r'] + dec_pad2((j - 4) as nat)
    }
}

/// The router names of a chain of `m` routers.
pub open spec fn chain_names(m: nat) -> Seq<Seq<char>> {
    Seq::new(m + 4, |j: int| chain_name(j))
}

/// The AS of each router of a chain of `m` routers.
pub open spec fn chain_ases(m: nat) -> Seq<Option<AsId>> {
    Seq::new(
        m + 4,
        |j: int|
            if j == 0 {
                Some(AsId(65100))
            } else if j == 1 {
                Some(AsId(65101))
            } else {
                None
            },
    )
}

/// The links of a chain of `m` routers: each external router to its border router, then
/// `r00` to `b00`, each router of the chain to the previous one, and the last one to `b01`.
pub open spec fn chain_links(m: nat) -> Seq<(RouterId, RouterId)> {
    Seq::new(
        m + 3,
        |j: int|
            if j == 0 {
                (RouterId(0), RouterId(2))
            } else if j == 1 {
                (RouterId(1), RouterId(3))
            } else if j == 2 {
                (RouterId(4), RouterId(2))
            } else if j < m + 2 {
                (RouterId((j + 2) as usize), RouterId((j + 1) as usize))
            } else {
                (RouterId((m + 3) as usize), RouterId(3))
            },
    )
}

/// The routes of a chain network: both external routers advertise prefix 0.
pub open spec fn chain_routes() -> Seq<RouteView> {
    seq![
        RouteView {
            router: RouterId(0),
            prefix: Prefix(0),
            as_path: seq![AsId(65100), AsId(65200)],
            med: None,
            community: None,
        },
        RouteView {
            router: RouterId(1),
            prefix: Prefix(0),
            as_path: seq![AsId(65101), AsId(65200)],
            med: None,
            community: None,
        },
    ]
}

/// An IGP link weight of 1.
pub open spec fn igp(s: int, t: int) -> ConfigExpr {
    ConfigExpr::IgpLinkWeight { source: RouterId(s as usize), target: RouterId(t as usize), weight: 1 }
}

/// A BGP session.
pub open spec fn session(s: int, t: int, ty: BgpSessionType) -> ConfigExpr {
    ConfigExpr::BgpSession {
        source: RouterId(s as usize),
        target: RouterId(t as usize),
        session_type: ty,
    }
}

/// The route map on `b00` that gives routes from `e00` a local preference of 200.
pub open spec fn local_pref_map() -> ConfigExpr {
    ConfigExpr::BgpRouteMap {
        router: RouterId(2),
        direction: RouteMapDirection::Incoming,
        map: RouteMap {
            order: 10,
            allow: true,
            match_neighbor: Some(RouterId(0)),
            set_local_pref: Some(200),
        },
    }
}

#[verifier::opaque]
/// Expression `j` of the configuration of a chain of `m` routers with `n` sessions to `b01`:
/// the link weights and eBGP sessions of the border, the local preference on `b00`, the link
/// weights along the chain, the sessions from `r00`, `r01`, ... to `b01`, then the sessions
/// from `r00`, `r01`, ... to `b00`.
pub open spec fn chain_expr(m: nat, n: nat, j: int) -> ConfigExpr {
    if j == 0 {
        igp(0, 2)
    } else if j == 1 {
        igp(2, 0)
    } else if j == 2 {
        igp(1, 3)
    } else if j == 3 {
        igp(3, 1)
    } else if j == 4 {
        session(0, 2, BgpSessionType::EBgp)
    } else if j == 5 {
        session(1, 3, BgpSessionType::EBgp)
    } else if j == 6 {
        local_pref_map()
    } else if j < 7 + 2 * m && j % 2 == 1 {
        igp((j - 7) / 2 + 4, (j - 7) / 2 + 3 - (if j == 7 { 1int } else { 0int }))
    } else if j < 7 + 2 * m {
        igp((j - 8) / 2 + 3 - (if j == 8 { 1int } else { 0int }), (j - 8) / 2 + 4)
    } else if j == 7 + 2 * m {
        igp(3, m + 3int)
    } else if j == 8 + 2 * m {
        igp(m + 3int, 3)
    } else if j < 9 + 2 * m + n {
        session(j - (9 + 2 * m) + 4, 3, BgpSessionType::IBgpPeer)
    } else {
        session(j - (9 + 2 * m + n) + 4, 2, BgpSessionType::IBgpPeer)
    }
}

/// The configuration expressions, in the order they are added, of a chain of `m` routers
/// with `n` sessions to `b01` and `k` sessions to `b00`.
pub open spec fn chain_exprs(m: nat, n: nat, k: nat) -> Seq<ConfigExpr> {
    Seq::new(9 + 2 * m + n + k, |j: int| chain_expr(m, n, j))
}

/// The configuration of a chain of `n` routers with `k` sessions to `b00`.
pub open spec fn chain_config(n: nat, k: nat) -> Map<ConfigExprKey, ConfigExpr> {
    exprs_map(chain_exprs(chain_len(n), n, k))
}

/// The index at which a key occurs in a chain configuration.
spec fn chain_key_index(m: nat, n: nat, key: ConfigExprKey) -> int {
    match key {
        ConfigExprKey::IgpLinkWeight { source, target } => {
            let s = source.0 as int;
            let t = target.0 as int;
            if s == 0 && t == 2 {
                0
            } else if s == 2 && t == 0 {
                1
            } else if s == 1 && t == 3 {
                2
            } else if s == 3 && t == 1 {
                3
            } else if s == 4 && t == 2 {
                7
            } else if s == 2 && t == 4 {
                8
            } else if s >= 5 && t == s - 1 {
                7 + 2 * (s - 4)
            } else if t >= 5 && s == t - 1 {
                8 + 2 * (t - 4)
            } else if s == 3 {
                7 + 2 * (m as int)
            } else {
                8 + 2 * (m as int)
            }
        },
        ConfigExprKey::BgpSession { speaker_a, speaker_b } => {
            let a = speaker_a.0 as int;
            let b = speaker_b.0 as int;
            if a == 0 {
                4
            } else if a == 1 {
                5
            } else if a == 3 {
                9 + 2 * m + (b - 4)
            } else {
                9 + 2 * m + n + (b - 4)
            }
        },
        _ => 6,
    }
}

proof fn lemma_chain_key_index(m: nat, n: nat, k: nat, j: int)
    requires
        m >= 1,
        n <= m,
        k <= m,
        m + 4 <= usize::MAX,
        0 <= j < 9 + 2 * m + n + k,
    ensures
        chain_key_index(m, n, expr_key(chain_expr(m, n, j))) == j,
{
    reveal(chain_expr);
    if j < 7 {
    } else if j < 7 + 2 * m {
        if j % 2 == 1 {
            let i = (j - 7) / 2;
            assert(j == 7 + 2 * i);
            if i == 0 {
                assert(chain_expr(m, n, j) == igp(4, 2));
            } else {
                assert(chain_expr(m, n, j) == igp(i + 4, i + 3));
            }
        } else {
            let i = (j - 8) / 2;
            assert(j == 8 + 2 * i);
            if i == 0 {
                assert(chain_expr(m, n, j) == igp(2, 4));
            } else {
                assert(chain_expr(m, n, j) == igp(i + 3, i + 4));
            }
        }
    } else if j < 9 + 2 * m {
    } else if j < 9 + 2 * m + n {
        assert(chain_expr(m, n, j) == session(j - (9 + 2 * m) + 4, 3, BgpSessionType::IBgpPeer));
    } else {
        assert(chain_expr(m, n, j) == session(j - (9 + 2 * m + n) + 4, 2, BgpSessionType::IBgpPeer));
    }
}

/// The expressions of a chain configuration have distinct keys.
pub proof fn lemma_chain_keys_distinct(m: nat, n: nat, k: nat)
    requires
        m >= 1,
        n <= m,
        k <= m,
        m + 4 <= usize::MAX,
    ensures
        keys_distinct(chain_exprs(m, n, k)),
{
    let s = chain_exprs(m, n, k);
    assert forall|a: int, b: int|
        0 <= a < s.len() && 0 <= b < s.len() && a != b implies expr_key(#[trigger] s[a]) != expr_key(
        #[trigger] s[b],
    ) by {
        lemma_chain_key_index(m, n, k, a);
        lemma_chain_key_index(m, n, k, b);
    }
}

/// The session that step `i` of a chain reconfiguration adds: from `r<i>` to `b00`.
pub open spec fn chain_step_session(i: int) -> ConfigExpr {
    session(i + 4, 2, BgpSessionType::IBgpPeer)
}

/// Law: one more step of a chain reconfiguration adds exactly one expression, the session
/// from `r<k>` to `b00`, under a key that the configuration of `k` steps lacks; that
/// configuration holds `9 + 2 * l + n + k` expressions for a line of `l` routers, and every
/// patch from it to the configuration of `k + 1` steps is that single insert.
pub proof fn lemma_chain_step(n: nat, k: nat, p: Seq<ConfigModifier>)
    requires
        chain_len(n) + 4 <= usize::MAX,
        k < chain_len(n),
        is_diff_patch(chain_config(n, k), chain_config(n, k + 1), p),
    ensures
        !chain_config(n, k).contains_key(expr_key(chain_step_session(k as int))),
        chain_config(n, k + 1) == chain_config(n, k).insert(
            expr_key(chain_step_session(k as int)),
            chain_step_session(k as int),
        ),
        chain_config(n, k).len() == 9 + 2 * chain_len(n) + n + k,
        chain_config(n, k + 1).len() == chain_config(n, k).len() + 1,
        p == seq![ConfigModifier::Insert(chain_step_session(k as int))],
{
    let m = chain_len(n);
    let s = chain_exprs(m, n, k);
    let t = chain_exprs(m, n, k + 1);
    let e = chain_step_session(k as int);
    let q = expr_key(e);
    lemma_chain_keys_distinct(m, n, k);
    lemma_chain_keys_distinct(m, n, k + 1);
    assert(t[s.len() as int] == e) by {
        reveal(chain_expr);
    }
    assert(t =~= s.push(e));
    assert(!seq_has_key(s, q)) by {
        if seq_has_key(s, q) {
            let j = choose|j: int| 0 <= j < s.len() && expr_key(#[trigger] s[j]) == q;
            assert(t[j] == s[j]);
            assert(expr_key(t[j]) == expr_key(t[s.len() as int]));
        }
    }
    lemma_exprs_map_push(s, e);
    lemma_exprs_map_len(s);
    let a = chain_config(n, k);
    let b = chain_config(n, k + 1);
    assert(b =~= a.insert(q, e));
    assert(a.dom().finite()) by {
        crate::config::lemma_exprs_map_wf(s);
    }
    // the patch: the only key on which the two configurations differ is `q`
    assert(diff_modifier(a, b, q) == Some(ConfigModifier::Insert(e)));
    let i0 = choose|i: int| 0 <= i < p.len() && modifier_key(#[trigger] p[i]) == q;
    assert forall|i: int| 0 <= i < p.len() implies i == i0 && #[trigger] p[i] == p[i0] by {
        let qi = modifier_key(p[i]);
        assert(diff_modifier(a, b, qi) == Some(p[i]));
        if qi != q {
            assert(diff_modifier(a, b, qi) is None);
        }
    }
    assert(p[i0] == ConfigModifier::Insert(e));
    assert(p =~= seq![ConfigModifier::Insert(e)]) by {
        if p.len() > 1 {
            let other = if i0 == 0 { 1int } else { 0int };
            assert(p[other] == p[i0]);
        }
    }
}

/// Law: the reconfiguration of a chain of `n` routers in `k` steps consists of exactly `k`
/// modifiers: one insert of the session from `r<i>` to `b00` for each `i < k`.
#[verifier::spinoff_prover]
#[verifier::rlimit(40)]
pub proof fn lemma_chain_patch(n: nat, k: nat, p: Seq<ConfigModifier>)
    requires
        chain_len(n) + 4 <= usize::MAX,
        k <= chain_len(n),
        is_diff_patch(chain_config(n, 0), chain_config(n, k), p),
    ensures
        p.len() == k,
        forall|t: int| 0 <= t < p.len() ==> exists|i: int| 0 <= i < k && #[trigger] p[t] == ConfigModifier::Insert(chain_step_session(i)),
        forall|i: int| #![trigger chain_step_session(i)] 0 <= i < k ==> exists|t: int| 0 <= t < p.len() && #[trigger] p[t] == ConfigModifier::Insert(chain_step_session(i)),
{
    let m = chain_len(n);
    let full = chain_exprs(m, n, k);
    let init = chain_exprs(m, n, 0);
    let l0 = 9 + 2 * m + n;
    let a = chain_config(n, 0);
    let b = chain_config(n, k);
    lemma_chain_keys_distinct(m, n, k);
    lemma_chain_keys_distinct(m, n, 0);
    assert forall|j: int| 0 <= j < l0 implies #[trigger] init[j] == full[j] by {}
    // keys of the initial expressions: present in both, with the same value
    assert forall|j: int| 0 <= j < l0 implies a.contains_key(expr_key(#[trigger] full[j])) && b.contains_key(expr_key(full[j]))
        && a[expr_key(full[j])] == full[j] && b[expr_key(full[j])] == full[j] by {
        lemma_exprs_map_index(init, j);
        lemma_exprs_map_index(full, j);
        assert(init[j] == full[j]);
    }
    // keys of the added expressions: present only in the final configuration
    assert forall|j: int| l0 <= j < l0 + k implies !a.contains_key(expr_key(#[trigger] full[j])) && b.contains_key(expr_key(full[j]))
        && b[expr_key(full[j])] == full[j] && full[j] == chain_step_session(j - l0) by {
        reveal(chain_expr);
        lemma_exprs_map_index(full, j);
        if a.contains_key(expr_key(full[j])) {
            let j2 = choose|j2: int| 0 <= j2 < init.len() && expr_key(#[trigger] init[j2]) == expr_key(full[j]);
            assert(init[j2] == full[j2]);
        }
    }
    assert forall|t: int| 0 <= t < p.len() implies exists|i: int| 0 <= i < k && #[trigger] p[t] == ConfigModifier::Insert(chain_step_session(i)) by {
        let q = modifier_key(p[t]);
        assert(diff_modifier(a, b, q) == Some(p[t]));
        if a.contains_key(q) {
            let j = choose|j: int| 0 <= j < init.len() && expr_key(#[trigger] init[j]) == q;
            assert(init[j] == full[j]);
        } else {
            assert(b.contains_key(q));
            let j = choose|j: int| 0 <= j < full.len() && expr_key(#[trigger] full[j]) == q;
            if j < l0 {
            } else {
                assert(p[t] == ConfigModifier::Insert(chain_step_session(j - l0)));
            }
        }
    }
    assert forall|i: int| #![trigger chain_step_session(i)] 0 <= i < k implies exists|t: int| 0 <= t < p.len() && #[trigger] p[t] == ConfigModifier::Insert(chain_step_session(i)) by {
        let q = expr_key(full[l0 + i]);
        assert(diff_modifier(a, b, q) is Some);
        let t = choose|t: int| 0 <= t < p.len() && modifier_key(#[trigger] p[t]) == q;
        assert(diff_modifier(a, b, modifier_key(p[t])) == Some(p[t]));
    }
    // counting: the keys of `p` are exactly the keys of the added expressions
    let pk = p.map_values(|x: ConfigModifier| modifier_key(x));
    let ks = Seq::new(k, |i: int| expr_key(full[l0 + i]));
    assert(pk.no_duplicates()) by {
        assert forall|x: int, y: int| 0 <= x < pk.len() && 0 <= y < pk.len() && x != y implies pk[x] != pk[y] by {
            assert(pk[x] == modifier_key(p[x]) && pk[y] == modifier_key(p[y]));
        }
    }
    assert(ks.no_duplicates()) by {
        assert forall|x: int, y: int| 0 <= x < ks.len() && 0 <= y < ks.len() && x != y implies ks[x] != ks[y] by {
            assert(ks[x] == expr_key(full[l0 + x]) && ks[y] == expr_key(full[l0 + y]));
        }
    }
    assert(pk.to_set() =~= ks.to_set()) by {
        assert forall|q: ConfigExprKey| pk.to_set().contains(q) implies ks.to_set().contains(q) by {
            let t = choose|t: int| 0 <= t < pk.len() && pk[t] == q;
            let i = choose|i: int| 0 <= i < k && #[trigger] p[t] == ConfigModifier::Insert(chain_step_session(i));
            assert(full[l0 + i] == chain_step_session(i));
            assert(ks[i] == q);
        }
        assert forall|q: ConfigExprKey| ks.to_set().contains(q) implies pk.to_set().contains(q) by {
            let i = choose|i: int| 0 <= i < ks.len() && ks[i] == q;
            let t = choose|t: int| 0 <= t < p.len() && #[trigger] p[t] == ConfigModifier::Insert(chain_step_session(i));
            assert(full[l0 + i] == chain_step_session(i));
            assert(pk[t] == q);
        }
    }
    pk.unique_seq_to_set();
    ks.unique_seq_to_set();
}

/// The router names of a chain network are distinct.
pub proof fn lemma_chain_names_distinct(a: int, b: int)
    requires
        0 <= a,
        0 <= b,
        a != b,
    ensures
        chain_name(a) != chain_name(b),
{
    reveal_strlit("e00");
    reveal_strlit("e01");
    reveal_strlit("b00");
    reveal_strlit("b01");
    if a >= 4 && b >= 4 {
        if chain_name(a) == chain_name(b) {
            assert(chain_name(a).drop_first() =~= dec_pad2((a - 4) as nat));
            assert(chain_name(b).drop_first() =~= dec_pad2((b - 4) as nat));
            lemma_dec_pad2_injective((a - 4) as nat, (b - 4) as nat);
        }
    } else if a >= 4 {
        assert(chain_name(a)[0] == 'r');
        assert(chain_name(b)[0] != 'r');
    } else if b >= 4 {
        assert(chain_name(b)[0] == 'r');
        assert(chain_name(a)[0] != 'r');
    } else {
        assert(chain_name(a)[0] != chain_name(b)[0] || chain_name(a)[2] != chain_name(b)[2]);
    }
}

/// A chain configuration is configured only on the routers of the chain.
proof fn lemma_chain_routers_below(m: nat, n: nat, k: nat)
    requires
        m >= 1,
        n <= m,
        k <= m,
        m + 4 <= usize::MAX,
    ensures
        config_routers_below(exprs_map(chain_exprs(m, n, k)), m + 4),
{
    let s = chain_exprs(m, n, k);
    lemma_chain_keys_distinct(m, n, k);
    assert forall|q: ConfigExprKey| #[trigger] exprs_map(s).contains_key(q) implies crate::config::expr_routers_below(
        exprs_map(s)[q],
        m + 4,
    ) by {
        let j = choose|j: int| 0 <= j < s.len() && expr_key(#[trigger] s[j]) == q;
        lemma_exprs_map_index(s, j);
        reveal(chain_expr);
        assert(s[j] == chain_expr(m, n, j));
    }
}

/// The name of router `r<i>` of a chain.
fn router_name(i: usize) -> (name: String)
    ensures
        name@ == chain_name(i + 4),
{
    let mut name = String::from_str("r");
    proof {
        reveal_strlit("r");
    }
    let digits = to_decimal_pad2(i as u64);
    name.append(digits.as_str());
    assert(name@ =~= seq!['r'] + dec_pad2(i as nat));
    name
}

/// The identifier of router `j` of a chain network, looked up by its name.
fn lookup(net: &Network, name: &str, Ghost(j): Ghost<int>) -> (id: RouterId)
    requires
        0 <= j < net.num_routers(),
        net.router_names() == chain_names((net.num_routers() - 4) as nat),
        name@ == chain_name(j),
    ensures
        id == RouterId(j as usize),
{
    match net.get_router_id(name) {
        Ok(id) => {
            proof {
                if id.0 != j {
                    lemma_chain_names_distinct(id.0 as int, j);
                }
            }
            id
        },
        Err(_) => {
            proof {
                assert(net.router_names()[j] == name@);
            }
            RouterId(0)
        },
    }
}

/// Adds expression `j` of `full` to a configuration that holds the ones before it.
fn add_next(c: &mut Config, e: ConfigExpr, Ghost(full): Ghost<Seq<ConfigExpr>>, Ghost(j): Ghost<int>)
    requires
        keys_distinct(full),
        0 <= j < full.len(),
        full[j] == e,
        old(c)@ == exprs_map(full.take(j)),
    ensures
        final(c)@ == exprs_map(full.take(j + 1)),
{
    proof {
        let pre = full.take(j);
        assert(keys_distinct(pre));
        assert(!seq_has_key(pre, expr_key(e))) by {
            if seq_has_key(pre, expr_key(e)) {
                let i = choose|i: int| 0 <= i < pre.len() && expr_key(#[trigger] pre[i]) == expr_key(e);
                assert(pre[i] == full[i]);
            }
        }
        lemma_exprs_map_push(pre, e);
        assert(pre.push(e) =~= full.take(j + 1));
    }
    match c.add(e) {
        Ok(()) => {},
        Err(_) => {
            proof {
                assert(false);
            }
        },
    }
}

/// Builds the configuration of a chain network of `n` routers with `k` sessions to `b00`,
/// looking the routers up by name.
fn build_chain_config(net: &Network, n: usize, k: usize) -> (c: Config)
    requires
        chain_len(n as nat) + 4 <= usize::MAX,
        k <= chain_len(n as nat),
        net.router_names() == chain_names(chain_len(n as nat)),
    ensures
        c@ == chain_config(n as nat, k as nat),
{
    let ghost m = chain_len(n as nat);
    let ghost full = chain_exprs(m, n as nat, k as nat);
    proof {
        lemma_chain_keys_distinct(m, n as nat, k as nat);
        reveal(chain_expr);
        reveal_strlit("e00");
        reveal_strlit("e01");
        reveal_strlit("b00");
        reveal_strlit("b01");
        assert(full.take(0) =~= Seq::<ConfigExpr>::empty());
    }
    let mut c = Config::new();
    assert(c@ =~= exprs_map(full.take(0)));

    let e0 = lookup(net, "e00", Ghost(0));
    let e1 = lookup(net, "e01", Ghost(1));
    let b0 = lookup(net, "b00", Ghost(2));
    let b1 = lookup(net, "b01", Ghost(3));

    // the link weights and sessions of the border routers
    add_next(&mut c, ConfigExpr::IgpLinkWeight { source: e0, target: b0, weight: 1 }, Ghost(full), Ghost(0));
    add_next(&mut c, ConfigExpr::IgpLinkWeight { source: b0, target: e0, weight: 1 }, Ghost(full), Ghost(1));
    add_next(&mut c, ConfigExpr::IgpLinkWeight { source: e1, target: b1, weight: 1 }, Ghost(full), Ghost(2));
    add_next(&mut c, ConfigExpr::IgpLinkWeight { source: b1, target: e1, weight: 1 }, Ghost(full), Ghost(3));
    add_next(&mut c, ConfigExpr::BgpSession { source: e0, target: b0, session_type: BgpSessionType::EBgp }, Ghost(full), Ghost(4));
    add_next(&mut c, ConfigExpr::BgpSession { source: e1, target: b1, session_type: BgpSessionType::EBgp }, Ghost(full), Ghost(5));

    // the local preference of the routes from e00
    let map = RouteMap { order: 10, allow: true, match_neighbor: Some(e0), set_local_pref: Some(200) };
    add_next(&mut c, ConfigExpr::BgpRouteMap { router: b0, direction: RouteMapDirection::Incoming, map }, Ghost(full), Ghost(6));

    // the link weights along the chain
    let r00 = router_name(0);
    let mut current_r = lookup(net, r00.as_str(), Ghost(4));
    let mut last_r = b0;
    add_next(&mut c, ConfigExpr::IgpLinkWeight { source: current_r, target: last_r, weight: 1 }, Ghost(full), Ghost(7));
    add_next(&mut c, ConfigExpr::IgpLinkWeight { source: last_r, target: current_r, weight: 1 }, Ghost(full), Ghost(8));

    let mut i: usize = 1;
    while i < n
        invariant
            1 <= i <= m,
            m == chain_len(n as nat),
            m + 4 <= usize::MAX,
            k <= m,
            full == chain_exprs(m, n as nat, k as nat),
            keys_distinct(full),
            net.router_names() == chain_names(m),
            current_r == RouterId((i + 3) as usize),
            c@ == exprs_map(full.take(7 + 2 * i)),
        decreases n - i,
    {
        last_r = current_r;
        let name = router_name(i);
        current_r = lookup(net, name.as_str(), Ghost(i + 4));
        proof {
            reveal(chain_expr);
        }
        add_next(&mut c, ConfigExpr::IgpLinkWeight { source: current_r, target: last_r, weight: 1 }, Ghost(full), Ghost(7 + 2 * i));
        add_next(&mut c, ConfigExpr::IgpLinkWeight { source: last_r, target: current_r, weight: 1 }, Ghost(full), Ghost(8 + 2 * i));
        i = i + 1;
    }

    // the link weights between the last router of the chain and b01
    last_r = current_r;
    current_r = b1;
    add_next(&mut c, ConfigExpr::IgpLinkWeight { source: current_r, target: last_r, weight: 1 }, Ghost(full), Ghost(7 + 2 * (m as int)));
    add_next(&mut c, ConfigExpr::IgpLinkWeight { source: last_r, target: current_r, weight: 1 }, Ghost(full), Ghost(8 + 2 * (m as int)));

    // the sessions from the chain to b01
    let mut i: usize = 0;
    while i < n
        invariant
            i <= n,
            m == chain_len(n as nat),
            m + 4 <= usize::MAX,
            k <= m,
            full == chain_exprs(m, n as nat, k as nat),
            keys_distinct(full),
            net.router_names() == chain_names(m),
            b1 == RouterId(3),
            c@ == exprs_map(full.take(9 + 2 * m + i)),
        decreases n - i,
    {
        let name = router_name(i);
        let r = lookup(net, name.as_str(), Ghost(i + 4));
        proof {
            reveal(chain_expr);
        }
        add_next(&mut c, ConfigExpr::BgpSession { source: r, target: b1, session_type: BgpSessionType::IBgpPeer }, Ghost(full), Ghost(9 + 2 * m + i));
        i = i + 1;
    }

    // the sessions from the first routers of the chain to b00
    let mut i: usize = 0;
    while i < k
        invariant
            i <= k,
            m == chain_len(n as nat),
            m + 4 <= usize::MAX,
            k <= m,
            full == chain_exprs(m, n as nat, k as nat),
            keys_distinct(full),
            net.router_names() == chain_names(m),
            b0 == RouterId(2),
            c@ == exprs_map(full.take(9 + 2 * m + n + i)),
        decreases k - i,
    {
        let name = router_name(i);
        let r = lookup(net, name.as_str(), Ghost(i + 4));
        proof {
            reveal(chain_expr);
        }
        add_next(&mut c, ConfigExpr::BgpSession { source: r, target: b0, session_type: BgpSessionType::IBgpPeer }, Ghost(full), Ghost(9 + 2 * m + n + i));
        i = i + 1;
    }
    assert(full.take(9 + 2 * m + n + k) =~= full);
    c
}

/// `net` is the chain network of `n` routers, in its initial configuration.
pub open spec fn is_chain_network(net: Network, n: nat) -> bool {
    &&& net.router_names() == chain_names(chain_len(n))
    &&& net.router_ases() == chain_ases(chain_len(n))
    &&& net.links() == chain_links(chain_len(n))
    &&& net.config() == chain_config(n, 0)
    &&& net.routes() == chain_routes()
    &&& net.known_prefixes() == seq![Prefix(0)]
}

/// Builds the chain network of `n` routers: its routers and links, its initial
/// configuration, and the routes that both external routers advertise for prefix 0.
pub fn chain_net(n: usize) -> (net: Network)
    requires
        chain_len(n as nat) + 4 <= usize::MAX,
    ensures
        is_chain_network(net, n as nat),
{
    let ghost m = chain_len(n as nat);
    let mut net = Network::new();
    let e0 = net.add_external_router(String::from_str("e00"), AsId(65100));
    let e1 = net.add_external_router(String::from_str("e01"), AsId(65101));
    let b0 = net.add_router(String::from_str("b00"));
    let b1 = net.add_router(String::from_str("b01"));

    net.add_link(e0, b0);
    net.add_link(e1, b1);

    let mut current_r = net.add_router(router_name(0));
    let mut last_r = b0;
    net.add_link(current_r, last_r);
    proof {
        assert(net.router_names() =~= chain_names(1));
        assert(net.router_ases() =~= chain_ases(1));
        assert(net.links() =~= chain_links(m).take(3));
    }

    let mut i: usize = 1;
    while i < n
        invariant
            1 <= i <= m,
            m == chain_len(n as nat),
            m + 4 <= usize::MAX,
            net.router_names() == chain_names(i as nat),
            net.router_ases() == chain_ases(i as nat),
            net.links() == chain_links(m).take(i + 2),
            net.config() == Map::<ConfigExprKey, ConfigExpr>::empty(),
            net.routes() == Seq::<RouteView>::empty(),
            net.known_prefixes() == Seq::<Prefix>::empty(),
            current_r == RouterId((i + 3) as usize),
        decreases n - i,
    {
        last_r = current_r;
        current_r = net.add_router(router_name(i));
        net.add_link(current_r, last_r);
        i = i + 1;
        proof {
            assert(net.router_names() =~= chain_names(i as nat));
            assert(net.router_ases() =~= chain_ases(i as nat));
            assert(net.links() =~= chain_links(m).take(i + 2));
        }
    }
    net.add_link(current_r, b1);
    proof {
        assert(net.links() =~= chain_links(m));
    }

    // apply the initial configuration
    let cf = build_chain_config(&net, n, 0);
    proof {
        lemma_chain_routers_below(m, n as nat, 0);
    }
    match net.set_config(&cf) {
        Ok(()) => {},
        Err(_) => {
            proof {
                assert(false);
            }
        },
    }

    // advertise the prefix from both external routers
    match net.advertise_external_route(e0, Prefix(0), vec![AsId(65100), AsId(65200)], None, None) {
        Ok(()) => {},
        Err(_) => {
            proof {
                assert(false);
            }
        },
    }
    proof {
        assert(net.known_prefixes() =~= seq![Prefix(0)]);
        assert(net.known_prefixes()[0] == Prefix(0));
        assert(net.known_prefixes().contains(Prefix(0)));
    }
    match net.advertise_external_route(e1, Prefix(0), vec![AsId(65101), AsId(65200)], None, None) {
        Ok(()) => {},
        Err(_) => {
            proof {
                assert(false);
            }
        },
    }
    proof {
        assert(net.routes() =~= chain_routes());
        assert(net.known_prefixes() =~= seq![Prefix(0)]);
    }
    net
}

/// The initial configuration of a chain network of `n` routers.
pub fn chain_initial_config(net: &Network, n: usize) -> (c: Config)
    requires
        chain_len(n as nat) + 4 <= usize::MAX,
        net.router_names() == chain_names(chain_len(n as nat)),
    ensures
        c@ == chain_config(n as nat, 0),
{
    build_chain_config(net, n, 0)
}

/// The final configuration of a chain network of `n` routers: the initial one and the
/// sessions from the first `k` routers of the chain to `b00`.
pub fn chain_final_config(net: &Network, n: usize, k: usize) -> (c: Config)
    requires
        chain_len(n as nat) + 4 <= usize::MAX,
        k <= chain_len(n as nat),
        net.router_names() == chain_names(chain_len(n as nat)),
    ensures
        c@ == chain_config(n as nat, k as nat),
{
    build_chain_config(net, n, k)
}

/// The reachability policy over all internal routers and all known prefixes of a network.
pub fn reachability_policy(net: &Network) -> (p: HardPolicy)
    ensures
        p.routers@ == internal_routers(net.router_ases()),
        p.prefixes@ == net.known_prefixes(),
{
    HardPolicy::reachability(&net.get_routers(), &net.get_known_prefixes())
}


/// Law: every chain configuration, whatever its size and number of steps, accepts the routes
/// from `e00` at `b00` with a local preference of 200: under the key of the incoming route map
/// of order 10 on `b00` it holds an allow entry that matches neighbor `e00` and sets local
/// preference 200.
pub proof fn lemma_chain_local_pref(n: nat, k: nat)
    requires
        chain_len(n) + 4 <= usize::MAX,
        k <= chain_len(n),
    ensures
        chain_config(n, k).contains_key(
            (ConfigExprKey::BgpRouteMap {
                router: RouterId(2),
                direction: RouteMapDirection::Incoming,
                order: 10,
            }),
        ),
        chain_config(n, k)[(ConfigExprKey::BgpRouteMap {
            router: RouterId(2),
            direction: RouteMapDirection::Incoming,
            order: 10,
        })] == (ConfigExpr::BgpRouteMap {
            router: RouterId(2),
            direction: RouteMapDirection::Incoming,
            map: RouteMap {
                order: 10,
                allow: true,
                match_neighbor: Some(RouterId(0)),
                set_local_pref: Some(200),
            },
        }),
{
    let m = chain_len(n);
    let s = chain_exprs(m, n, k);
    lemma_chain_keys_distinct(m, n, k);
    assert(s[6] == local_pref_map()) by {
        reveal(chain_expr);
    }
    lemma_exprs_map_index(s, 6);
}

/// The link from router `x` to router `x - 1`.
pub open spec fn link_back(x: int) -> (RouterId, RouterId) {
    (RouterId(x as usize), RouterId((x - 1) as usize))
}

/// Law: the links of a chain network with a line of `l` routers make the single path
/// `e00 - b00 - r00 - r01 - ... - r(l-1) - b01 - e01`: each external router is linked to its
/// border router, `r00` to `b00`, each later router of the line to the one before it, and the
/// last one to `b01`; there is no other link, and in particular the last router of a line of
/// two or more is not linked to `b00`.
pub proof fn lemma_chain_links_line(net: Network, n: nat)
    requires
        chain_len(n) + 4 <= usize::MAX,
        is_chain_network(net, n),
    ensures
        net.links().contains((RouterId(0), RouterId(2))),
        net.links().contains((RouterId(1), RouterId(3))),
        net.links().contains((RouterId(4), RouterId(2))),
        forall|x: int| 5 <= x < chain_len(n) + 4 ==> #[trigger] net.links().contains(link_back(x)),
        net.links().contains((RouterId((chain_len(n) + 3) as usize), RouterId(3))),
        forall|i: int|
            0 <= i < net.links().len() ==> {
                let (a, b) = #[trigger] net.links()[i];
                ||| (a, b) == (RouterId(0), RouterId(2))
                ||| (a, b) == (RouterId(1), RouterId(3))
                ||| (a, b) == (RouterId(4), RouterId(2))
                ||| (a, b) == (RouterId((chain_len(n) + 3) as usize), RouterId(3))
                ||| 5 <= a.0 < chain_len(n) + 4 && a.0 == b.0 + 1
            },
        chain_len(n) > 1 ==> !net.links().contains(
            (RouterId((chain_len(n) + 3) as usize), RouterId(2)),
        ) && !net.links().contains((RouterId(2), RouterId((chain_len(n) + 3) as usize))),
{
    let m = chain_len(n);
    let l = net.links();
    assert(l[0] == (RouterId(0), RouterId(2)));
    assert(l[1] == (RouterId(1), RouterId(3)));
    assert(l[2] == (RouterId(4), RouterId(2)));
    assert(l[m + 2int] == (RouterId((m + 3) as usize), RouterId(3)));
    assert forall|x: int| 5 <= x < m + 4 implies #[trigger] l.contains(link_back(x)) by {
        assert(l[x - 2] == link_back(x));
    }
    if m > 1 {
        assert(!l.contains((RouterId((m + 3) as usize), RouterId(2)))) by {
            if l.contains((RouterId((m + 3) as usize), RouterId(2))) {
                let i = choose|i: int| 0 <= i < l.len() && l[i] == (RouterId((m + 3) as usize), RouterId(2));
            }
        }
        assert(!l.contains((RouterId(2), RouterId((m + 3) as usize)))) by {
            if l.contains((RouterId(2), RouterId((m + 3) as usize))) {
                let i = choose|i: int| 0 <= i < l.len() && l[i] == (RouterId(2), RouterId((m + 3) as usize));
            }
        }
    }
}

} // verus!
