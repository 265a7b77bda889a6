//! Soft policy that prefers one modifier to be applied before another.
use vstd::prelude::*;
use crate::netsim::ConfigModifier;

verus! {

/// In the history `s`, `u2` occurs at a position where `u1` has not occurred yet.
pub open spec fn order_violated(s: Seq<ConfigModifier>, u1: ConfigModifier, u2: ConfigModifier) -> bool {
    exists|j: int|
        0 <= j < s.len() && #[trigger] s[j] == u2 && forall|i: int| 0 <= i <= j ==> s[i] != u1
}

/// Prefers `u1` to be applied before `u2`: once `u2` has been applied while `u1` had not
/// been, the policy is violated for good.
#[derive(Clone, Debug)]
pub struct PreferOrdering {
    u1: ConfigModifier,
    u2: ConfigModifier,
    violation: bool,
}

impl PreferOrdering {
    /// The modifier that should come first.
    pub closed spec fn first(&self) -> ConfigModifier {
        self.u1
    }

    /// The modifier that should come second.
    pub closed spec fn second(&self) -> ConfigModifier {
        self.u2
    }

    /// Whether the policy has been violated.
    pub closed spec fn violation(&self) -> bool {
        self.violation
    }

    /// A policy that prefers `u1` to be applied before `u2`, not violated yet.
    pub fn new_with_modifiers(u1: ConfigModifier, u2: ConfigModifier) -> (p: PreferOrdering)
        ensures
            p.first() == u1,
            p.second() == u2,
            !p.violation(),
    {
        PreferOrdering { u1, u2, violation: false }
    }

    /// Updates the policy with the history of the modifiers applied so far, in order.
    pub fn update(&mut self, applied: &[ConfigModifier])
        ensures
            final(self).first() == old(self).first(),
            final(self).second() == old(self).second(),
            final(self).violation() == (old(self).violation() || order_violated(
                applied@,
                old(self).first(),
                old(self).second(),
            )),
    {
        if self.violation {
            return;
        }
        let mut u1_seen = false;
        let mut idx: usize = 0;
        while idx < applied.len()
            invariant
                idx <= applied@.len(),
                !self.violation,
                self.u1 == old(self).first(),
                self.u2 == old(self).second(),
                u1_seen <==> exists|i: int| 0 <= i < idx && applied@[i] == self.u1,
                forall|j: int|
                    0 <= j < idx && #[trigger] applied@[j] == self.u2 ==> exists|i: int|
                        0 <= i <= j && applied@[i] == self.u1,
            decreases applied@.len() - idx,
        {
            let m = applied[idx];
            if m == self.u1 {
                u1_seen = true;
            }
            if m == self.u2 && !u1_seen {
                self.violation = true;
                proof {
                    assert(applied@[idx as int] == self.u2);
                    assert(forall|i: int| 0 <= i <= idx ==> applied@[i] != self.u1);
                }
                return;
            }
            idx = idx + 1;
        }
        proof {
            assert forall|j: int|
                0 <= j < applied@.len() && #[trigger] applied@[j] == self.u2 implies !forall|i: int|
                0 <= i <= j ==> applied@[i] != self.u1 by {
                let i = choose|i: int| 0 <= i <= j && applied@[i] == self.u1;
            }
        }
    }

    /// Whether the policy has been violated: then its cost is 1, else 0.
    pub fn is_violated(&self) -> (b: bool)
        ensures
            b == self.violation(),
    {
        self.violation
    }
}

#[verifier::external_body]
/// Two distinct indices below `n`, drawn at random by `rand::seq::index::sample` with the
/// thread-local generator. The source documents that the indices are distinct and below
/// `n` and that it panics when `n < 2`; which two come out is chance.
fn sample_two_indices(n: usize) -> (r: (usize, usize))
    requires
        n >= 2,
    ensures
        r.0 < n,
        r.1 < n,
        r.0 != r.1,
{
    let s = rand::seq::index::sample(&mut rand::thread_rng(), n, 2);
    (s.index(0), s.index(1))
}

/// A preference between two modifiers of a patch drawn at random: two different positions
/// when the patch has at least two modifiers, else its only one, preferred before itself.
pub fn random_preference(modifiers: &Vec<ConfigModifier>) -> (p: PreferOrdering)
    requires
        modifiers@.len() >= 1,
    ensures
        !p.violation(),
        exists|i: int, j: int|
            0 <= i < modifiers@.len() && 0 <= j < modifiers@.len() && p.first() == modifiers@[i]
                && p.second() == modifiers@[j] && (modifiers@.len() >= 2 ==> i != j) && (
            modifiers@.len() < 2 ==> i == 0 && j == 0),
{
    let n = modifiers.len();
    let (i, j) = if n >= 2 {
        sample_two_indices(n)
    } else {
        (0, 0)
    };
    let p = PreferOrdering::new_with_modifiers(modifiers[i], modifiers[j]);
    assert(p.first() == modifiers@[i as int] && p.second() == modifiers@[j as int]);
    p
}

/// The preferences to test for a patch of `n` modifiers: for each two neighbors, the first
/// before the second (`true`, forward) and the second before the first (`false`, reverse).
pub fn preference_pairs(n: usize) -> (r: Vec<(bool, usize, usize)>)
    ensures
        r@.len() == (if n >= 1 { 2 * (n - 1) } else { 0 }),
        forall|i: int| 0 <= i < r@.len() / 2 ==> #[trigger] r@[2 * i] == (true, i as usize, (i + 1) as usize)
            && r@[2 * i + 1] == (false, (i + 1) as usize, i as usize),
{
    let mut r: Vec<(bool, usize, usize)> = Vec::new();
    let last = if n >= 1 { n - 1 } else { 0 };
    let mut i: usize = 0;
    while i < last
        invariant
            last == (if n >= 1 { n - 1 } else { 0 }),
            i <= last,
            r@.len() == 2 * i,
            forall|k: int| 0 <= k < i ==> #[trigger] r@[2 * k] == (true, k as usize, (k + 1) as usize)
                && r@[2 * k + 1] == (false, (k + 1) as usize, k as usize),
        decreases last - i,
    {
        let ghost before = r@;
        r.push((true, i, i + 1));
        r.push((false, i + 1, i));
        proof {
            assert forall|k: int| 0 <= k < i + 1 implies #[trigger] r@[2 * k] == (true, k as usize, (k + 1) as usize)
                && r@[2 * k + 1] == (false, (k + 1) as usize, k as usize) by {
                if k < i {
                    assert(r@[2 * k] == before[2 * k]);
                    assert(r@[2 * k + 1] == before[2 * k + 1]);
                }
            }
        }
        i = i + 1;
    }
    r
}

/// The first position of `m` in `ordering`.
pub fn position(ordering: &Vec<ConfigModifier>, m: &ConfigModifier) -> (r: Option<usize>)
    ensures
        match r {
            Some(i) => i < ordering@.len() && ordering@[i as int] == *m && forall|j: int|
                0 <= j < i ==> ordering@[j] != *m,
            None => !ordering@.contains(*m),
        },
{
    let mut i: usize = 0;
    while i < ordering.len()
        invariant
            i <= ordering@.len(),
            forall|j: int| 0 <= j < i ==> ordering@[j] != *m,
        decreases ordering@.len() - i,
    {
        if ordering[i] == *m {
            return Some(i);
        }
        i = i + 1;
    }
    None
}

} // verus!
