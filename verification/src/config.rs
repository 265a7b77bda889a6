//! Network configurations: a set of configuration expressions with at most one expression
//! per key, the differences between two configurations, and the application of modifiers.
use vstd::prelude::*;
use crate::netsim::{ConfigExpr, ConfigExprKey, ConfigModifier, RouterId, expr_key, modifier_key};

verus! {

/// Errors of configuration changes.
#[derive(Clone, Copy, Debug, PartialEq, Eq, Structural)]
pub enum ConfigError {
    /// An expression with the same key is already present.
    ConfigExprOverload,
    /// The modifier does not fit the configuration it is applied to.
    ConfigModifierError(ConfigModifier),
}

/// No two expressions of the sequence have the same key.
pub open spec fn keys_distinct(s: Seq<ConfigExpr>) -> bool {
    forall|i: int, j: int|
        0 <= i < s.len() && 0 <= j < s.len() && i != j ==> expr_key(#[trigger] s[i]) != expr_key(
            #[trigger] s[j],
        )
}

/// Some expression of the sequence has key `k`.
pub open spec fn seq_has_key(s: Seq<ConfigExpr>, k: ConfigExprKey) -> bool {
    exists|i: int| 0 <= i < s.len() && expr_key(#[trigger] s[i]) == k
}

/// The configuration that a sequence of expressions with distinct keys describes.
pub open spec fn exprs_map(s: Seq<ConfigExpr>) -> Map<ConfigExprKey, ConfigExpr> {
    Map::new(
        |k: ConfigExprKey| seq_has_key(s, k),
        |k: ConfigExprKey| s[choose|i: int| 0 <= i < s.len() && expr_key(#[trigger] s[i]) == k],
    )
}

/// A configuration maps each key to an expression with that key.
pub open spec fn config_map_wf(m: Map<ConfigExprKey, ConfigExpr>) -> bool {
    &&& m.dom().finite()
    &&& forall|k: ConfigExprKey| #[trigger] m.contains_key(k) ==> expr_key(m[k]) == k
}

/// The result of applying one modifier to a configuration, or `None` when it does not fit:
/// an insert needs the key to be free, a removal needs the expression to be present, and an
/// update needs the old expression to be present and the new one to have the same key.
pub open spec fn map_apply(m: Map<ConfigExprKey, ConfigExpr>, modifier: ConfigModifier) -> Option<
    Map<ConfigExprKey, ConfigExpr>,
> {
    match modifier {
        ConfigModifier::Insert(e) => if m.contains_key(expr_key(e)) {
            None
        } else {
            Some(m.insert(expr_key(e), e))
        },
        ConfigModifier::Remove(e) => if m.contains_key(expr_key(e)) && m[expr_key(e)] == e {
            Some(m.remove(expr_key(e)))
        } else {
            None
        },
        ConfigModifier::Update { from, to } => if expr_key(from) == expr_key(to) && m.contains_key(
            expr_key(from),
        ) && m[expr_key(from)] == from {
            Some(m.insert(expr_key(to), to))
        } else {
            None
        },
    }
}

/// The result of applying the modifiers one after the other, or `None` when one does not fit.
pub open spec fn map_apply_seq(
    m: Map<ConfigExprKey, ConfigExpr>,
    mods: Seq<ConfigModifier>,
) -> Option<Map<ConfigExprKey, ConfigExpr>>
    decreases mods.len(),
{
    if mods.len() == 0 {
        Some(m)
    } else {
        match map_apply(m, mods[0]) {
            Some(m2) => map_apply_seq(m2, mods.drop_first()),
            None => None,
        }
    }
}

/// The modifier that changes key `k` of configuration `a` into its value in `b`, if they differ.
pub open spec fn diff_modifier(
    a: Map<ConfigExprKey, ConfigExpr>,
    b: Map<ConfigExprKey, ConfigExpr>,
    k: ConfigExprKey,
) -> Option<ConfigModifier> {
    if a.contains_key(k) && !b.contains_key(k) {
        Some(ConfigModifier::Remove(a[k]))
    } else if !a.contains_key(k) && b.contains_key(k) {
        Some(ConfigModifier::Insert(b[k]))
    } else if a.contains_key(k) && b.contains_key(k) && a[k] != b[k] {
        Some(ConfigModifier::Update { from: a[k], to: b[k] })
    } else {
        None
    }
}

/// Removals come first, then inserts, then updates.
pub open spec fn modifier_rank(m: ConfigModifier) -> int {
    match m {
        ConfigModifier::Remove(_) => 0,
        ConfigModifier::Insert(_) => 1,
        ConfigModifier::Update { .. } => 2,
    }
}

/// `p` holds exactly one modifier for each key on which `a` and `b` differ, the one that
/// changes it from its value in `a` to its value in `b`; removals first, then inserts, then
/// updates.
pub open spec fn is_diff_patch(
    a: Map<ConfigExprKey, ConfigExpr>,
    b: Map<ConfigExprKey, ConfigExpr>,
    p: Seq<ConfigModifier>,
) -> bool {
    &&& forall|i: int, j: int|
        0 <= i < p.len() && 0 <= j < p.len() && i != j ==> modifier_key(#[trigger] p[i])
            != modifier_key(#[trigger] p[j])
    &&& forall|i: int| 0 <= i < p.len() ==> diff_modifier(a, b, modifier_key(#[trigger] p[i])) == Some(p[i])
    &&& forall|k: ConfigExprKey| #[trigger] diff_modifier(a, b, k) is Some ==> exists|i: int|
        0 <= i < p.len() && modifier_key(#[trigger] p[i]) == k
    &&& forall|i: int, j: int|
        0 <= i < j < p.len() ==> modifier_rank(#[trigger] p[i]) <= modifier_rank(#[trigger] p[j])
}

/// The expression at an index of a sequence with distinct keys is the one its map holds.
pub proof fn lemma_exprs_map_index(s: Seq<ConfigExpr>, i: int)
    requires
        keys_distinct(s),
        0 <= i < s.len(),
    ensures
        exprs_map(s).contains_key(expr_key(s[i])),
        exprs_map(s)[expr_key(s[i])] == s[i],
{
    let k = expr_key(s[i]);
    assert(seq_has_key(s, k));
    let j = choose|j: int| 0 <= j < s.len() && expr_key(#[trigger] s[j]) == k;
    assert(j == i);
}

/// The map of a sequence with distinct keys is a well-formed configuration.
pub proof fn lemma_exprs_map_wf(s: Seq<ConfigExpr>)
    requires
        keys_distinct(s),
    ensures
        config_map_wf(exprs_map(s)),
{
    let m = exprs_map(s);
    assert forall|k: ConfigExprKey| #[trigger] m.contains_key(k) implies expr_key(m[k]) == k by {
        let j = choose|j: int| 0 <= j < s.len() && expr_key(#[trigger] s[j]) == k;
        lemma_exprs_map_index(s, j);
    }
    let ks = s.map_values(|e: ConfigExpr| expr_key(e));
    let keys = ks.to_set();
    assert(m.dom() =~= keys) by {
        assert forall|k: ConfigExprKey| m.dom().contains(k) implies keys.contains(k) by {
            let j = choose|j: int| 0 <= j < s.len() && expr_key(#[trigger] s[j]) == k;
            assert(ks[j] == k);
        }
        assert forall|k: ConfigExprKey| keys.contains(k) implies m.dom().contains(k) by {
            let j = choose|j: int| 0 <= j < ks.len() && #[trigger] ks[j] == k;
            assert(expr_key(s[j]) == k);
        }
    }
    ks.lemma_cardinality_of_set();
}

/// A sequence of expressions with distinct keys describes a configuration of as many
/// expressions.
pub proof fn lemma_exprs_map_len(s: Seq<ConfigExpr>)
    requires
        keys_distinct(s),
    ensures
        exprs_map(s).len() == s.len(),
{
    lemma_exprs_map_wf(s);
    let keys = s.map_values(|e: ConfigExpr| expr_key(e));
    assert(keys.no_duplicates()) by {
        assert forall|i: int, j: int|
            0 <= i < keys.len() && 0 <= j < keys.len() && i != j implies keys[i] != keys[j] by {
            assert(keys[i] == expr_key(s[i]) && keys[j] == expr_key(s[j]));
        }
    }
    keys.unique_seq_to_set();
    assert(exprs_map(s).dom() =~= keys.to_set()) by {
        assert forall|k: ConfigExprKey| exprs_map(s).dom().contains(k) implies keys.to_set().contains(k) by {
            let j = choose|j: int| 0 <= j < s.len() && expr_key(#[trigger] s[j]) == k;
            assert(keys[j] == k);
        }
        assert forall|k: ConfigExprKey| keys.to_set().contains(k) implies exprs_map(s).dom().contains(k) by {
            let j = choose|j: int| 0 <= j < keys.len() && #[trigger] keys[j] == k;
            assert(expr_key(s[j]) == k);
        }
    }
}

/// Appending an expression with a fresh key inserts it into the map.
pub proof fn lemma_exprs_map_push(s: Seq<ConfigExpr>, e: ConfigExpr)
    requires
        keys_distinct(s),
        !seq_has_key(s, expr_key(e)),
    ensures
        keys_distinct(s.push(e)),
        exprs_map(s.push(e)) == exprs_map(s).insert(expr_key(e), e),
{
    let t = s.push(e);
    assert(keys_distinct(t)) by {
        assert forall|i: int, j: int|
            0 <= i < t.len() && 0 <= j < t.len() && i != j implies expr_key(#[trigger] t[i])
            != expr_key(#[trigger] t[j]) by {
            if i < s.len() && j < s.len() {
                assert(t[i] == s[i] && t[j] == s[j]);
            } else if i < s.len() {
                assert(t[i] == s[i]);
            } else {
                assert(t[j] == s[j]);
            }
        }
    }
    let m1 = exprs_map(t);
    let m2 = exprs_map(s).insert(expr_key(e), e);
    assert forall|k: ConfigExprKey| m1.contains_key(k) <==> m2.contains_key(k) by {
        if seq_has_key(s, k) {
            let j = choose|j: int| 0 <= j < s.len() && expr_key(#[trigger] s[j]) == k;
            assert(t[j] == s[j]);
        }
        if seq_has_key(t, k) && k != expr_key(e) {
            let j = choose|j: int| 0 <= j < t.len() && expr_key(#[trigger] t[j]) == k;
            assert(s[j] == t[j]);
        }
        assert(t[s.len() as int] == e);
    }
    assert forall|k: ConfigExprKey| m1.contains_key(k) implies m1[k] == m2[k] by {
        let j = choose|j: int| 0 <= j < t.len() && expr_key(#[trigger] t[j]) == k;
        lemma_exprs_map_index(t, j);
        if j < s.len() {
            assert(t[j] == s[j]);
            lemma_exprs_map_index(s, j);
        }
    }
    assert(m1 =~= m2);
}

/// Removing the expression at an index removes its key from the map.
pub proof fn lemma_exprs_map_remove(s: Seq<ConfigExpr>, i: int)
    requires
        keys_distinct(s),
        0 <= i < s.len(),
    ensures
        keys_distinct(s.remove(i)),
        exprs_map(s.remove(i)) == exprs_map(s).remove(expr_key(s[i])),
{
    let t = s.remove(i);
    assert forall|a: int| 0 <= a < t.len() implies #[trigger] t[a] == s[if a < i { a } else { a + 1 }] by {}
    assert(keys_distinct(t)) by {
        assert forall|a: int, b: int|
            0 <= a < t.len() && 0 <= b < t.len() && a != b implies expr_key(#[trigger] t[a])
            != expr_key(#[trigger] t[b]) by {
            assert(t[a] == s[if a < i { a } else { a + 1 }]);
            assert(t[b] == s[if b < i { b } else { b + 1 }]);
        }
    }
    let m1 = exprs_map(t);
    let m2 = exprs_map(s).remove(expr_key(s[i]));
    assert forall|k: ConfigExprKey| m1.contains_key(k) <==> m2.contains_key(k) by {
        if seq_has_key(t, k) {
            let a = choose|a: int| 0 <= a < t.len() && expr_key(#[trigger] t[a]) == k;
            assert(t[a] == s[if a < i { a } else { a + 1 }]);
        }
        if seq_has_key(s, k) && k != expr_key(s[i]) {
            let b = choose|b: int| 0 <= b < s.len() && expr_key(#[trigger] s[b]) == k;
            if b < i {
                assert(t[b] == s[b]);
            } else {
                assert(t[b - 1] == s[b]);
            }
        }
    }
    assert forall|k: ConfigExprKey| m1.contains_key(k) implies m1[k] == m2[k] by {
        let a = choose|a: int| 0 <= a < t.len() && expr_key(#[trigger] t[a]) == k;
        lemma_exprs_map_index(t, a);
        let b = if a < i { a } else { a + 1 };
        assert(t[a] == s[b]);
        lemma_exprs_map_index(s, b);
    }
    assert(m1 =~= m2);
}

/// Replacing the expression at an index by one with the same key replaces it in the map.
pub proof fn lemma_exprs_map_update(s: Seq<ConfigExpr>, i: int, e: ConfigExpr)
    requires
        keys_distinct(s),
        0 <= i < s.len(),
        expr_key(e) == expr_key(s[i]),
    ensures
        keys_distinct(s.update(i, e)),
        exprs_map(s.update(i, e)) == exprs_map(s).insert(expr_key(e), e),
{
    let t = s.update(i, e);
    assert(keys_distinct(t)) by {
        assert forall|a: int, b: int|
            0 <= a < t.len() && 0 <= b < t.len() && a != b implies expr_key(#[trigger] t[a])
            != expr_key(#[trigger] t[b]) by {
            assert(expr_key(t[a]) == expr_key(s[a]));
            assert(expr_key(t[b]) == expr_key(s[b]));
        }
    }
    let m1 = exprs_map(t);
    let m2 = exprs_map(s).insert(expr_key(e), e);
    assert forall|k: ConfigExprKey| m1.contains_key(k) <==> m2.contains_key(k) by {
        if seq_has_key(t, k) {
            let a = choose|a: int| 0 <= a < t.len() && expr_key(#[trigger] t[a]) == k;
            assert(expr_key(t[a]) == expr_key(s[a]));
        }
        if seq_has_key(s, k) {
            let b = choose|b: int| 0 <= b < s.len() && expr_key(#[trigger] s[b]) == k;
            assert(expr_key(t[b]) == expr_key(s[b]));
        }
        assert(expr_key(t[i]) == expr_key(e));
        lemma_exprs_map_index(s, i);
    }
    assert forall|k: ConfigExprKey| m1.contains_key(k) implies m1[k] == m2[k] by {
        let a = choose|a: int| 0 <= a < t.len() && expr_key(#[trigger] t[a]) == k;
        lemma_exprs_map_index(t, a);
        if a != i {
            assert(t[a] == s[a]);
            lemma_exprs_map_index(s, a);
        }
    }
    assert(m1 =~= m2);
}

/// Some modifier of `mods` changes key `k`.
pub open spec fn mods_have_key(mods: Seq<ConfigModifier>, k: ConfigExprKey) -> bool {
    exists|t: int| 0 <= t < mods.len() && modifier_key(#[trigger] mods[t]) == k
}

spec fn src_has_key_before(src: Seq<ConfigExpr>, i: int, k: ConfigExprKey) -> bool {
    exists|j: int| 0 <= j < i && expr_key(#[trigger] src[j]) == k
}

/// Progress of the difference computation: `mods` holds the modifiers of all ranks below
/// `phase`, and those of rank `phase` for the keys of `src[..i]`.
spec fn diff_progress(
    a: Map<ConfigExprKey, ConfigExpr>,
    b: Map<ConfigExprKey, ConfigExpr>,
    mods: Seq<ConfigModifier>,
    phase: int,
    src: Seq<ConfigExpr>,
    i: int,
) -> bool {
    &&& 0 <= i <= src.len()
    &&& keys_distinct(src)
    &&& forall|t1: int, t2: int|
        0 <= t1 < mods.len() && 0 <= t2 < mods.len() && t1 != t2 ==> modifier_key(
            #[trigger] mods[t1],
        ) != modifier_key(#[trigger] mods[t2])
    &&& forall|t: int| 0 <= t < mods.len() ==> diff_modifier(a, b, modifier_key(#[trigger] mods[t])) == Some(mods[t])
    &&& forall|t1: int, t2: int|
        0 <= t1 < t2 < mods.len() ==> modifier_rank(#[trigger] mods[t1]) <= modifier_rank(
            #[trigger] mods[t2],
        )
    &&& forall|t: int| 0 <= t < mods.len() ==> modifier_rank(#[trigger] mods[t]) <= phase
    &&& forall|t: int|
        0 <= t < mods.len() && modifier_rank(#[trigger] mods[t]) == phase ==> src_has_key_before(
            src,
            i,
            modifier_key(mods[t]),
        )
    &&& forall|k: ConfigExprKey|
        #[trigger] diff_modifier(a, b, k) is Some && modifier_rank(diff_modifier(a, b, k)->0)
            < phase ==> mods_have_key(mods, k)
    &&& forall|j: int|
        0 <= j < i && diff_modifier(a, b, expr_key(#[trigger] src[j])) is Some && modifier_rank(
            diff_modifier(a, b, expr_key(src[j]))->0,
        ) == phase ==> mods_have_key(mods, expr_key(src[j]))
}

proof fn lemma_diff_progress_skip(
    a: Map<ConfigExprKey, ConfigExpr>,
    b: Map<ConfigExprKey, ConfigExpr>,
    mods: Seq<ConfigModifier>,
    phase: int,
    src: Seq<ConfigExpr>,
    i: int,
)
    requires
        diff_progress(a, b, mods, phase, src, i),
        i < src.len(),
        !(diff_modifier(a, b, expr_key(src[i])) is Some && modifier_rank(
            diff_modifier(a, b, expr_key(src[i]))->0,
        ) == phase),
    ensures
        diff_progress(a, b, mods, phase, src, i + 1),
{
    assert forall|t: int|
        0 <= t < mods.len() && modifier_rank(#[trigger] mods[t]) == phase implies src_has_key_before(
        src,
        i + 1,
        modifier_key(mods[t]),
    ) by {
        assert(src_has_key_before(src, i, modifier_key(mods[t])));
        let j = choose|j: int| 0 <= j < i && expr_key(#[trigger] src[j]) == modifier_key(mods[t]);
        assert(0 <= j < i + 1 && expr_key(src[j]) == modifier_key(mods[t]));
    }
}

proof fn lemma_diff_progress_push(
    a: Map<ConfigExprKey, ConfigExpr>,
    b: Map<ConfigExprKey, ConfigExpr>,
    mods: Seq<ConfigModifier>,
    phase: int,
    src: Seq<ConfigExpr>,
    i: int,
    m: ConfigModifier,
)
    requires
        diff_progress(a, b, mods, phase, src, i),
        i < src.len(),
        modifier_key(m) == expr_key(src[i]),
        diff_modifier(a, b, expr_key(src[i])) == Some(m),
        modifier_rank(m) == phase,
    ensures
        diff_progress(a, b, mods.push(m), phase, src, i + 1),
{
    let k = expr_key(src[i]);
    let n = mods.push(m);
    assert(!mods_have_key(mods, k)) by {
        if mods_have_key(mods, k) {
            let t = choose|t: int| 0 <= t < mods.len() && modifier_key(#[trigger] mods[t]) == k;
            assert(diff_modifier(a, b, modifier_key(mods[t])) == Some(mods[t]));
            assert(src_has_key_before(src, i, modifier_key(mods[t])));
            let j = choose|j: int| 0 <= j < i && expr_key(#[trigger] src[j]) == modifier_key(mods[t]);
            assert(expr_key(src[j]) != expr_key(src[i]));
        }
    }
    assert(n[mods.len() as int] == m);
    assert forall|t: int| 0 <= t < mods.len() implies #[trigger] n[t] == mods[t] by {}
    assert forall|t1: int, t2: int|
        0 <= t1 < n.len() && 0 <= t2 < n.len() && t1 != t2 implies modifier_key(#[trigger] n[t1])
        != modifier_key(#[trigger] n[t2]) by {
        if t1 == mods.len() {
            assert(n[t2] == mods[t2]);
        } else if t2 == mods.len() {
            assert(n[t1] == mods[t1]);
        } else {
            assert(n[t1] == mods[t1] && n[t2] == mods[t2]);
        }
    }
    assert forall|t: int|
        0 <= t < n.len() && modifier_rank(#[trigger] n[t]) == phase implies src_has_key_before(
        src,
        i + 1,
        modifier_key(n[t]),
    ) by {
        if t < mods.len() {
            assert(n[t] == mods[t]);
            assert(src_has_key_before(src, i, modifier_key(mods[t])));
            let j = choose|j: int| 0 <= j < i && expr_key(#[trigger] src[j]) == modifier_key(mods[t]);
            assert(0 <= j < i + 1 && expr_key(src[j]) == modifier_key(n[t]));
        } else {
            assert(0 <= i < i + 1 && expr_key(src[i]) == modifier_key(n[t]));
        }
    }
    assert forall|kk: ConfigExprKey| mods_have_key(mods, kk) implies mods_have_key(n, kk) by {
        let t = choose|t: int| 0 <= t < mods.len() && modifier_key(#[trigger] mods[t]) == kk;
        assert(n[t] == mods[t]);
    }
    assert(mods_have_key(n, k)) by {
        assert(modifier_key(n[mods.len() as int]) == k);
    }
    assert forall|t1: int, t2: int| 0 <= t1 < t2 < n.len() implies modifier_rank(#[trigger] n[t1])
        <= modifier_rank(#[trigger] n[t2]) by {
        if t2 < mods.len() {
            assert(n[t1] == mods[t1] && n[t2] == mods[t2]);
        } else {
            assert(n[t1] == mods[t1]);
        }
    }
}

proof fn lemma_diff_progress_next_phase(
    a: Map<ConfigExprKey, ConfigExpr>,
    b: Map<ConfigExprKey, ConfigExpr>,
    mods: Seq<ConfigModifier>,
    phase: int,
    src: Seq<ConfigExpr>,
    next_src: Seq<ConfigExpr>,
)
    requires
        diff_progress(a, b, mods, phase, src, src.len() as int),
        keys_distinct(next_src),
        forall|k: ConfigExprKey|
            #[trigger] diff_modifier(a, b, k) is Some && modifier_rank(diff_modifier(a, b, k)->0)
                == phase ==> seq_has_key(src, k),
    ensures
        diff_progress(a, b, mods, phase + 1, next_src, 0),
{
    assert forall|k: ConfigExprKey|
        #[trigger] diff_modifier(a, b, k) is Some && modifier_rank(diff_modifier(a, b, k)->0) < phase
            + 1 implies mods_have_key(mods, k) by {
        if modifier_rank(diff_modifier(a, b, k)->0) == phase {
            assert(seq_has_key(src, k));
            let j = choose|j: int| 0 <= j < src.len() && expr_key(#[trigger] src[j]) == k;
            assert(diff_modifier(a, b, expr_key(src[j])) is Some);
        }
    }
}

/// The ranks of the modifiers that change a key.
proof fn lemma_diff_rank(
    a: Map<ConfigExprKey, ConfigExpr>,
    b: Map<ConfigExprKey, ConfigExpr>,
    k: ConfigExprKey,
)
    ensures
        diff_modifier(a, b, k) is Some && modifier_rank(diff_modifier(a, b, k)->0) == 0 ==> a.contains_key(k),
        diff_modifier(a, b, k) is Some && modifier_rank(diff_modifier(a, b, k)->0) == 1 ==> b.contains_key(k),
        diff_modifier(a, b, k) is Some && modifier_rank(diff_modifier(a, b, k)->0) == 2 ==> a.contains_key(k),
        diff_modifier(a, b, k) is Some ==> modifier_rank(diff_modifier(a, b, k)->0) <= 2,
        diff_modifier(a, b, k) is Some ==> modifier_key(diff_modifier(a, b, k)->0) == k || !config_map_wf(a) || !config_map_wf(b),
{
}

/// The error that applying a modifier that does not fit reports.
pub open spec fn apply_error(m: ConfigModifier) -> ConfigError {
    match m {
        ConfigModifier::Insert(_) => ConfigError::ConfigExprOverload,
        _ => ConfigError::ConfigModifierError(m),
    }
}

/// Applying one more modifier after a sequence.
pub proof fn lemma_apply_seq_push(m: Map<ConfigExprKey, ConfigExpr>, s: Seq<ConfigModifier>, x: ConfigModifier)
    ensures
        map_apply_seq(m, s.push(x)) == match map_apply_seq(m, s) {
            Some(m2) => map_apply(m2, x),
            None => None,
        },
    decreases s.len(),
{
    if s.len() == 0 {
        assert(s.push(x).drop_first() =~= Seq::<ConfigModifier>::empty());
        assert(s.push(x)[0] == x);
        match map_apply(m, x) {
            Some(m2) => {
                assert(map_apply_seq(m2, s.push(x).drop_first()) == Some(m2));
            },
            None => {},
        }
    } else {
        assert(s.push(x)[0] == s[0]);
        assert(s.push(x).drop_first() =~= s.drop_first().push(x));
        match map_apply(m, s[0]) {
            Some(m2) => {
                lemma_apply_seq_push(m2, s.drop_first(), x);
            },
            None => {},
        }
    }
}

proof fn lemma_apply_seq_none_extends(m: Map<ConfigExprKey, ConfigExpr>, s: Seq<ConfigModifier>, t: int, u: int)
    requires
        0 <= t <= u <= s.len(),
        map_apply_seq(m, s.take(t)) is None,
    ensures
        map_apply_seq(m, s.take(u)) is None,
    decreases u - t,
{
    if t < u {
        lemma_apply_seq_push(m, s.take(t), s[t]);
        assert(s.take(t).push(s[t]) =~= s.take(t + 1));
        lemma_apply_seq_none_extends(m, s, t + 1, u);
    }
}

spec fn patch_fits(
    m: Map<ConfigExprKey, ConfigExpr>,
    b: Map<ConfigExprKey, ConfigExpr>,
    p: Seq<ConfigModifier>,
) -> bool {
    &&& config_map_wf(m)
    &&& config_map_wf(b)
    &&& forall|i: int, j: int|
        0 <= i < p.len() && 0 <= j < p.len() && i != j ==> modifier_key(#[trigger] p[i])
            != modifier_key(#[trigger] p[j])
    &&& forall|i: int| 0 <= i < p.len() ==> diff_modifier(m, b, modifier_key(#[trigger] p[i])) == Some(p[i])
    &&& forall|k: ConfigExprKey| #[trigger] diff_modifier(m, b, k) is Some ==> exists|i: int|
        0 <= i < p.len() && modifier_key(#[trigger] p[i]) == k
}

proof fn lemma_patch_fits_apply(
    m: Map<ConfigExprKey, ConfigExpr>,
    b: Map<ConfigExprKey, ConfigExpr>,
    p: Seq<ConfigModifier>,
)
    requires
        patch_fits(m, b, p),
    ensures
        map_apply_seq(m, p) == Some(b),
    decreases p.len(),
{
    if p.len() == 0 {
        assert forall|k: ConfigExprKey| m.contains_key(k) <==> b.contains_key(k) by {
            if m.contains_key(k) != b.contains_key(k) {
                assert(diff_modifier(m, b, k) is Some);
            }
        }
        assert forall|k: ConfigExprKey| m.contains_key(k) implies m[k] == b[k] by {
            if m[k] != b[k] {
                assert(diff_modifier(m, b, k) is Some);
            }
        }
        assert(m =~= b);
    } else {
        let k0 = modifier_key(p[0]);
        assert(diff_modifier(m, b, k0) == Some(p[0]));
        let m2 = map_apply(m, p[0])->0;
        assert(map_apply(m, p[0]) is Some);
        assert(m2.contains_key(k0) == b.contains_key(k0));
        assert(m2.contains_key(k0) ==> m2[k0] == b[k0]);
        assert forall|k: ConfigExprKey| k != k0 implies (m2.contains_key(k) == m.contains_key(k) && (
        m.contains_key(k) ==> m2[k] == m[k])) by {}
        assert(config_map_wf(m2)) by {
            assert forall|k: ConfigExprKey| #[trigger] m2.contains_key(k) implies expr_key(m2[k])
                == k by {
                if k != k0 {
                    assert(m.contains_key(k));
                }
            }
        }
        let q = p.drop_first();
        assert forall|i: int| 0 <= i < q.len() implies diff_modifier(m2, b, modifier_key(#[trigger] q[i]))
            == Some(q[i]) by {
            assert(q[i] == p[i + 1]);
            assert(modifier_key(p[i + 1]) != modifier_key(p[0]));
            assert(diff_modifier(m, b, modifier_key(p[i + 1])) == Some(p[i + 1]));
        }
        assert forall|k: ConfigExprKey| #[trigger] diff_modifier(m2, b, k) is Some implies exists|i: int|
            0 <= i < q.len() && modifier_key(#[trigger] q[i]) == k by {
            assert(k != k0);
            assert(diff_modifier(m, b, k) == diff_modifier(m2, b, k));
            let i = choose|i: int| 0 <= i < p.len() && modifier_key(#[trigger] p[i]) == k;
            assert(i != 0);
            assert(q[i - 1] == p[i]);
        }
        assert forall|i: int, j: int|
            0 <= i < q.len() && 0 <= j < q.len() && i != j implies modifier_key(#[trigger] q[i])
            != modifier_key(#[trigger] q[j]) by {
            assert(q[i] == p[i + 1] && q[j] == p[j + 1]);
        }
        lemma_patch_fits_apply(m2, b, q);
    }
}

/// Law: applying the difference between two configurations to the first one, modifier
/// by modifier, succeeds and yields the second.
pub proof fn lemma_diff_then_apply(
    a: Map<ConfigExprKey, ConfigExpr>,
    b: Map<ConfigExprKey, ConfigExpr>,
    p: Seq<ConfigModifier>,
)
    requires
        config_map_wf(a),
        config_map_wf(b),
        is_diff_patch(a, b, p),
    ensures
        map_apply_seq(a, p) == Some(b),
{
    lemma_patch_fits_apply(a, b, p);
}

/// Law: a configuration does not differ from itself.
pub proof fn lemma_diff_self_empty(a: Map<ConfigExprKey, ConfigExpr>, p: Seq<ConfigModifier>)
    requires
        is_diff_patch(a, a, p),
    ensures
        p.len() == 0,
{
    if p.len() > 0 {
        assert(diff_modifier(a, a, modifier_key(p[0])) == Some(p[0]));
    }
}

/// The routers on which an expression is configured all have an index below `n`.
pub open spec fn expr_routers_below(e: ConfigExpr, n: nat) -> bool {
    match e {
        ConfigExpr::IgpLinkWeight { source, target, .. } => source.0 < n && target.0 < n,
        ConfigExpr::BgpSession { source, target, .. } => source.0 < n && target.0 < n,
        ConfigExpr::BgpRouteMap { router, .. } => router.0 < n,
        ConfigExpr::StaticRoute { router, target, .. } => router.0 < n && target.0 < n,
    }
}

/// Router `r` is one on which expression `e` is configured.
pub open spec fn expr_names_router(e: ConfigExpr, r: RouterId) -> bool {
    match e {
        ConfigExpr::IgpLinkWeight { source, target, .. } => source == r || target == r,
        ConfigExpr::BgpSession { source, target, .. } => source == r || target == r,
        ConfigExpr::BgpRouteMap { router, .. } => router == r,
        ConfigExpr::StaticRoute { router, target, .. } => router == r || target == r,
    }
}

/// Every expression of the configuration names only routers with an index below `n`.
pub open spec fn config_routers_below(m: Map<ConfigExprKey, ConfigExpr>, n: nat) -> bool {
    forall|k: ConfigExprKey| #[trigger] m.contains_key(k) ==> expr_routers_below(m[k], n)
}

/// Router `x` has an index of at least `n`, and some expression of `m` is configured on it.
pub open spec fn names_missing_router(m: Map<ConfigExprKey, ConfigExpr>, n: nat, x: RouterId) -> bool {
    x.0 >= n && exists|k: ConfigExprKey| #[trigger] m.contains_key(k) && expr_names_router(m[k], x)
}

/// `x` is, among the routers with an index of at least `n` on which some expression of `m` is
/// configured, the one with the least index.
pub open spec fn least_missing_router(m: Map<ConfigExprKey, ConfigExpr>, n: nat, x: RouterId) -> bool {
    &&& names_missing_router(m, n, x)
    &&& forall|y: RouterId| #[trigger] names_missing_router(m, n, y) ==> x.0 <= y.0
}

fn expr_missing_router(e: &ConfigExpr, n: usize) -> (r: Option<RouterId>)
    ensures
        r is None <==> expr_routers_below(*e, n as nat),
        r matches Some(x) ==> x.0 >= n && expr_names_router(*e, x) && forall|y: RouterId|
            #[trigger] expr_names_router(*e, y) && y.0 >= n ==> x.0 <= y.0,
{
    match *e {
        ConfigExpr::IgpLinkWeight { source, target, .. } | ConfigExpr::BgpSession {
            source,
            target,
            ..
        } | ConfigExpr::StaticRoute { router: source, target, .. } => {
            if source.0 >= n && (target.0 < n || source.0 <= target.0) {
                Some(source)
            } else if target.0 >= n {
                Some(target)
            } else {
                None
            }
        },
        ConfigExpr::BgpRouteMap { router, .. } => {
            if router.0 >= n {
                Some(router)
            } else {
                None
            }
        },
    }
}

/// A network configuration: at most one expression for each key.
pub struct Config {
    exprs: Vec<ConfigExpr>,
}

/// A sequence of modifiers that changes one configuration into another.
pub struct ConfigPatch {
    pub modifiers: Vec<ConfigModifier>,
}

impl View for Config {
    type V = Map<ConfigExprKey, ConfigExpr>;

    closed spec fn view(&self) -> Map<ConfigExprKey, ConfigExpr> {
        exprs_map(self.exprs@)
    }
}

impl Config {
    #[verifier::type_invariant]
    spec fn inv(self) -> bool {
        keys_distinct(self.exprs@)
    }

    /// The empty configuration.
    pub fn new() -> (c: Config)
        ensures
            c@ == Map::<ConfigExprKey, ConfigExpr>::empty(),
    {
        let c = Config { exprs: Vec::new() };
        assert(c@ =~= Map::<ConfigExprKey, ConfigExpr>::empty());
        c
    }

    fn find(&self, k: ConfigExprKey) -> (r: Option<usize>)
        ensures
            match r {
                Some(i) => i < self.exprs@.len() && expr_key(self.exprs@[i as int]) == k,
                None => !seq_has_key(self.exprs@, k),
            },
    {
        let mut i: usize = 0;
        while i < self.exprs.len()
            invariant
                i <= self.exprs@.len(),
                forall|j: int| 0 <= j < i ==> expr_key(#[trigger] self.exprs@[j]) != k,
            decreases self.exprs@.len() - i,
        {
            if self.exprs[i].key() == k {
                return Some(i);
            }
            i = i + 1;
        }
        None
    }

    /// The expression stored under key `k`, if any.
    pub fn get(&self, k: ConfigExprKey) -> (r: Option<ConfigExpr>)
        ensures
            r == (if self@.contains_key(k) { Some(self@[k]) } else { None::<ConfigExpr> }),
    {
        proof {
            use_type_invariant(self);
        }
        match self.find(k) {
            Some(i) => {
                proof {
                    lemma_exprs_map_index(self.exprs@, i as int);
                }
                Some(self.exprs[i])
            },
            None => None,
        }
    }

    /// The number of expressions.
    pub fn len(&self) -> (n: usize)
        ensures
            n == self@.len(),
    {
        proof {
            use_type_invariant(self);
            lemma_exprs_map_len(self.exprs@);
        }
        self.exprs.len()
    }

    /// Adds an expression. Fails, and leaves the configuration as it was, when an expression
    /// with the same key is present.
    pub fn add(&mut self, e: ConfigExpr) -> (r: Result<(), ConfigError>)
        ensures
            old(self)@.contains_key(expr_key(e)) ==> r == Err::<(), ConfigError>(
                ConfigError::ConfigExprOverload,
            ) && final(self)@ == old(self)@,
            !old(self)@.contains_key(expr_key(e)) ==> r is Ok && final(self)@ == old(self)@.insert(
                expr_key(e),
                e,
            ),
    {
        proof {
            use_type_invariant(&*self);
        }
        let k = e.key();
        match self.find(k) {
            Some(i) => {
                proof {
                    lemma_exprs_map_index(self.exprs@, i as int);
                }
                Err(ConfigError::ConfigExprOverload)
            },
            None => {
                proof {
                    lemma_exprs_map_push(self.exprs@, e);
                }
                let mut v: Vec<ConfigExpr> = Vec::new();
                std::mem::swap(&mut v, &mut self.exprs);
                v.push(e);
                self.exprs = v;
                Ok(())
            },
        }
    }

    /// The modifiers that change this configuration into `other`: one for each key on which
    /// the two differ; removals first, then inserts, then updates.
    pub fn get_diff(&self, other: &Config) -> (patch: ConfigPatch)
        ensures
            is_diff_patch(self@, other@, patch.modifiers@),
            config_map_wf(self@),
            config_map_wf(other@),
    {
        proof {
            use_type_invariant(self);
            use_type_invariant(other);
            lemma_exprs_map_wf(self.exprs@);
            lemma_exprs_map_wf(other.exprs@);
        }
        let ghost a = self@;
        let ghost b = other@;
        let ghost sa = self.exprs@;
        let ghost sb = other.exprs@;
        let mut mods: Vec<ConfigModifier> = Vec::new();
        // removals: keys of `self` that `other` lacks
        let mut i: usize = 0;
        while i < self.exprs.len()
            invariant
                a == self@,
                b == other@,
                sa == self.exprs@,
                sb == other.exprs@,
                a == exprs_map(sa),
                b == exprs_map(sb),
                keys_distinct(sb),
                diff_progress(a, b, mods@, 0, sa, i as int),
            decreases sa.len() - i,
        {
            let e = self.exprs[i];
            let k = e.key();
            proof {
                lemma_exprs_map_index(sa, i as int);
            }
            match other.find(k) {
                None => {
                    proof {
                        lemma_diff_progress_push(a, b, mods@, 0, sa, i as int, ConfigModifier::Remove(e));
                    }
                    mods.push(ConfigModifier::Remove(e));
                },
                Some(j) => {
                    proof {
                        lemma_diff_progress_skip(a, b, mods@, 0, sa, i as int);
                    }
                },
            }
            i = i + 1;
        }
        proof {
            assert forall|k: ConfigExprKey|
                #[trigger] diff_modifier(a, b, k) is Some && modifier_rank(diff_modifier(a, b, k)->0)
                    == 0 implies seq_has_key(sa, k) by {
                lemma_diff_rank(a, b, k);
            }
            lemma_diff_progress_next_phase(a, b, mods@, 0, sa, sb);
        }
        // inserts: keys of `other` that `self` lacks
        let mut i: usize = 0;
        while i < other.exprs.len()
            invariant
                a == self@,
                b == other@,
                sa == self.exprs@,
                sb == other.exprs@,
                a == exprs_map(sa),
                b == exprs_map(sb),
                keys_distinct(sa),
                diff_progress(a, b, mods@, 1, sb, i as int),
            decreases sb.len() - i,
        {
            let e = other.exprs[i];
            let k = e.key();
            proof {
                lemma_exprs_map_index(sb, i as int);
            }
            match self.find(k) {
                None => {
                    proof {
                        lemma_diff_progress_push(a, b, mods@, 1, sb, i as int, ConfigModifier::Insert(e));
                    }
                    mods.push(ConfigModifier::Insert(e));
                },
                Some(j) => {
                    proof {
                        lemma_diff_progress_skip(a, b, mods@, 1, sb, i as int);
                    }
                },
            }
            i = i + 1;
        }
        proof {
            assert forall|k: ConfigExprKey|
                #[trigger] diff_modifier(a, b, k) is Some && modifier_rank(diff_modifier(a, b, k)->0)
                    == 1 implies seq_has_key(sb, k) by {
                lemma_diff_rank(a, b, k);
            }
            lemma_diff_progress_next_phase(a, b, mods@, 1, sb, sa);
        }
        // updates: keys of both whose expressions differ
        let mut i: usize = 0;
        while i < self.exprs.len()
            invariant
                a == self@,
                b == other@,
                sa == self.exprs@,
                sb == other.exprs@,
                a == exprs_map(sa),
                b == exprs_map(sb),
                keys_distinct(sb),
                diff_progress(a, b, mods@, 2, sa, i as int),
            decreases sa.len() - i,
        {
            let e = self.exprs[i];
            let k = e.key();
            proof {
                lemma_exprs_map_index(sa, i as int);
            }
            match other.find(k) {
                None => {
                    proof {
                        lemma_diff_progress_skip(a, b, mods@, 2, sa, i as int);
                    }
                },
                Some(j) => {
                    let f = other.exprs[j];
                    proof {
                        lemma_exprs_map_index(sb, j as int);
                    }
                    if f != e {
                        proof {
                            lemma_diff_progress_push(
                                a,
                                b,
                                mods@,
                                2,
                                sa,
                                i as int,
                                ConfigModifier::Update { from: e, to: f },
                            );
                        }
                        mods.push(ConfigModifier::Update { from: e, to: f });
                    } else {
                        proof {
                            lemma_diff_progress_skip(a, b, mods@, 2, sa, i as int);
                        }
                    }
                },
            }
            i = i + 1;
        }
        proof {
            assert forall|k: ConfigExprKey|
                #[trigger] diff_modifier(a, b, k) is Some && modifier_rank(diff_modifier(a, b, k)->0)
                    == 2 implies seq_has_key(sa, k) by {
                lemma_diff_rank(a, b, k);
            }
            lemma_diff_progress_next_phase(a, b, mods@, 2, sa, Seq::<ConfigExpr>::empty());
            assert forall|k: ConfigExprKey| #[trigger] diff_modifier(a, b, k) is Some implies exists|t: int|
                0 <= t < mods@.len() && modifier_key(#[trigger] mods@[t]) == k by {
                lemma_diff_rank(a, b, k);
                assert(mods_have_key(mods@, k));
            }
        }
        ConfigPatch { modifiers: mods }
    }

    /// Applies one modifier. When it does not fit, the configuration is left as it was and
    /// the error says why.
    pub fn apply_modifier(&mut self, m: &ConfigModifier) -> (r: Result<(), ConfigError>)
        ensures
            match map_apply(old(self)@, *m) {
                Some(n) => r is Ok && final(self)@ == n,
                None => r == Err::<(), ConfigError>(apply_error(*m)) && final(self)@ == old(self)@,
            },
    {
        proof {
            use_type_invariant(&*self);
        }
        match *m {
            ConfigModifier::Insert(e) => self.add(e),
            ConfigModifier::Remove(e) => {
                match self.find(e.key()) {
                    Some(i) => {
                        proof {
                            lemma_exprs_map_index(self.exprs@, i as int);
                        }
                        if self.exprs[i] == e {
                            proof {
                                lemma_exprs_map_remove(self.exprs@, i as int);
                            }
                            let mut v: Vec<ConfigExpr> = Vec::new();
                            std::mem::swap(&mut v, &mut self.exprs);
                            v.remove(i);
                            self.exprs = v;
                            Ok(())
                        } else {
                            Err(ConfigError::ConfigModifierError(*m))
                        }
                    },
                    None => Err(ConfigError::ConfigModifierError(*m)),
                }
            },
            ConfigModifier::Update { from, to } => {
                if from.key() != to.key() {
                    return Err(ConfigError::ConfigModifierError(*m));
                }
                match self.find(from.key()) {
                    Some(i) => {
                        proof {
                            lemma_exprs_map_index(self.exprs@, i as int);
                        }
                        if self.exprs[i] == from {
                            proof {
                                lemma_exprs_map_update(self.exprs@, i as int, to);
                            }
                            let mut v: Vec<ConfigExpr> = Vec::new();
                            std::mem::swap(&mut v, &mut self.exprs);
                            v.set(i, to);
                            self.exprs = v;
                            Ok(())
                        } else {
                            Err(ConfigError::ConfigModifierError(*m))
                        }
                    },
                    None => Err(ConfigError::ConfigModifierError(*m)),
                }
            },
        }
    }

    /// Applies the modifiers of a patch one after the other. Stops at the first one that
    /// does not fit: the ones before it stay applied.
    pub fn apply_patch(&mut self, patch: &ConfigPatch) -> (r: Result<(), ConfigError>)
        ensures
            r is Ok <==> map_apply_seq(old(self)@, patch.modifiers@) is Some,
            r is Ok ==> map_apply_seq(old(self)@, patch.modifiers@) == Some(final(self)@),
            r is Err ==> exists|t: int|
                0 <= t < patch.modifiers@.len() && map_apply_seq(
                    old(self)@,
                    #[trigger] patch.modifiers@.take(t),
                ) == Some(final(self)@) && map_apply(final(self)@, patch.modifiers@[t]) is None
                    && r == Err::<(), ConfigError>(apply_error(patch.modifiers@[t])),
    {
        let ghost start = self@;
        let mods = &patch.modifiers;
        let mut t: usize = 0;
        assert(mods@.take(0) =~= Seq::<ConfigModifier>::empty());
        while t < mods.len()
            invariant
                t <= mods@.len(),
                start == old(self)@,
                mods@ == patch.modifiers@,
                map_apply_seq(start, mods@.take(t as int)) == Some(self@),
            decreases mods@.len() - t,
        {
            proof {
                lemma_apply_seq_push(start, mods@.take(t as int), mods@[t as int]);
                assert(mods@.take(t as int).push(mods@[t as int]) =~= mods@.take(t + 1));
            }
            let r = self.apply_modifier(&mods[t]);
            if r.is_err() {
                proof {
                    assert forall|u: int| t < u <= mods@.len() implies map_apply_seq(start, mods@.take(u)) is None by {
                        lemma_apply_seq_none_extends(start, mods@, t as int + 1, u);
                    }
                    assert(mods@.take(mods@.len() as int) =~= mods@);
                    assert(map_apply(self@, mods@[t as int]) is None);
                    assert(map_apply_seq(start, mods@.take(t as int)) == Some(self@));
                    assert(map_apply_seq(start, mods@) is None);
                }
                return r;
            }
            t = t + 1;
        }
        assert(mods@.take(mods@.len() as int) =~= mods@);
        Ok(())
    }

    /// The router of least index among those with an index of at least `n` on which some
    /// expression is configured, if there is one.
    pub fn missing_router(&self, n: usize) -> (r: Option<RouterId>)
        ensures
            r is None <==> config_routers_below(self@, n as nat),
            r matches Some(x) ==> least_missing_router(self@, n as nat, x),
    {
        proof {
            use_type_invariant(self);
        }
        let mut best: Option<RouterId> = None;
        let mut i: usize = 0;
        while i < self.exprs.len()
            invariant
                i <= self.exprs@.len(),
                keys_distinct(self.exprs@),
                best is None <==> forall|j: int|
                    0 <= j < i ==> expr_routers_below(#[trigger] self.exprs@[j], n as nat),
                best matches Some(x) ==> x.0 >= n && exists|j: int|
                    0 <= j < i && expr_names_router(#[trigger] self.exprs@[j], x),
                best matches Some(x) ==> forall|j: int, y: RouterId|
                    0 <= j < i && #[trigger] expr_names_router(self.exprs@[j], y) && y.0 >= n ==> x.0
                        <= y.0,
            decreases self.exprs@.len() - i,
        {
            let here = expr_missing_router(&self.exprs[i], n);
            match here {
                Some(x) => {
                    match best {
                        Some(b) => {
                            if x.0 < b.0 {
                                best = Some(x);
                            }
                        },
                        None => {
                            best = Some(x);
                        },
                    }
                },
                None => {},
            }
            i = i + 1;
        }
        proof {
            assert forall|k: ConfigExprKey| #[trigger] self@.contains_key(k) implies exists|j: int|
                0 <= j < self.exprs@.len() && expr_key(#[trigger] self.exprs@[j]) == k && self@[k]
                    == self.exprs@[j] by {
                let j = choose|j: int| 0 <= j < self.exprs@.len() && expr_key(#[trigger] self.exprs@[j]) == k;
                lemma_exprs_map_index(self.exprs@, j);
            }
            if best is None {
                assert forall|k: ConfigExprKey| #[trigger] self@.contains_key(k) implies expr_routers_below(
                    self@[k],
                    n as nat,
                ) by {
                    let j = choose|j: int|
                        0 <= j < self.exprs@.len() && expr_key(#[trigger] self.exprs@[j]) == k && self@[k]
                            == self.exprs@[j];
                }
            } else {
                let x = best->0;
                let j0 = choose|j: int| 0 <= j < self.exprs@.len() && expr_names_router(#[trigger] self.exprs@[j], x);
                lemma_exprs_map_index(self.exprs@, j0);
                assert(self@.contains_key(expr_key(self.exprs@[j0])));
                assert(names_missing_router(self@, n as nat, x));
                assert forall|y: RouterId| #[trigger] names_missing_router(self@, n as nat, y) implies x.0
                    <= y.0 by {
                    let k = choose|k: ConfigExprKey| #[trigger] self@.contains_key(k) && expr_names_router(self@[k], y);
                    let j = choose|j: int|
                        0 <= j < self.exprs@.len() && expr_key(#[trigger] self.exprs@[j]) == k && self@[k]
                            == self.exprs@[j];
                    assert(expr_names_router(self.exprs@[j], y));
                }
                let k0 = expr_key(self.exprs@[j0]);
                assert(!expr_routers_below(self@[k0], n as nat));
            }
        }
        best
    }

    /// A copy of the configuration.
    pub fn copy(&self) -> (c: Config)
        ensures
            c@ == self@,
    {
        proof {
            use_type_invariant(self);
        }
        let mut v: Vec<ConfigExpr> = Vec::new();
        let mut i: usize = 0;
        while i < self.exprs.len()
            invariant
                i <= self.exprs@.len(),
                v@ == self.exprs@.take(i as int),
            decreases self.exprs@.len() - i,
        {
            v.push(self.exprs[i]);
            i = i + 1;
            assert(v@ =~= self.exprs@.take(i as int));
        }
        assert(v@ =~= self.exprs@);
        Config { exprs: v }
    }
}

} // verus!
