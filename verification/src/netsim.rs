//! The vocabulary of network configurations: routers, prefixes, BGP sessions, route maps,
//! configuration expressions and the modifiers that change them.
use vstd::prelude::*;

verus! {

/// Identifier of a router: its index in the network.
#[derive(Clone, Copy, Debug, PartialEq, Eq, Structural)]
pub struct RouterId(pub usize);

/// Autonomous system number.
#[derive(Clone, Copy, Debug, PartialEq, Eq, Structural)]
pub struct AsId(pub u32);

/// An IP prefix, identified by a number.
#[derive(Clone, Copy, Debug, PartialEq, Eq, Structural)]
pub struct Prefix(pub u32);

/// The kind of a BGP session between two routers.
#[derive(Clone, Copy, Debug, PartialEq, Eq, Structural)]
pub enum BgpSessionType {
    IBgpPeer,
    IBgpClient,
    EBgp,
}

/// Whether a route map applies to incoming or to outgoing routes.
#[derive(Clone, Copy, Debug, PartialEq, Eq, Structural)]
pub enum RouteMapDirection {
    Incoming,
    Outgoing,
}

/// A route map entry: its order, whether it allows or denies the routes it matches, an
/// optional match on the neighbor that sent the route, and an optional local preference
/// that it sets.
#[derive(Clone, Copy, Debug, PartialEq, Eq, Structural)]
pub struct RouteMap {
    pub order: i16,
    pub allow: bool,
    pub match_neighbor: Option<RouterId>,
    pub set_local_pref: Option<u32>,
}

/// One expression of a network configuration. IGP link weights are whole numbers.
#[derive(Clone, Copy, Debug, PartialEq, Eq, Structural)]
pub enum ConfigExpr {
    IgpLinkWeight { source: RouterId, target: RouterId, weight: u32 },
    BgpSession { source: RouterId, target: RouterId, session_type: BgpSessionType },
    BgpRouteMap { router: RouterId, direction: RouteMapDirection, map: RouteMap },
    StaticRoute { router: RouterId, prefix: Prefix, target: RouterId },
}

/// What a configuration expression configures. A configuration holds at most one
/// expression for each key. A BGP session is undirected: its key orders the two speakers.
#[derive(Clone, Copy, Debug, PartialEq, Eq, Structural)]
pub enum ConfigExprKey {
    IgpLinkWeight { source: RouterId, target: RouterId },
    BgpSession { speaker_a: RouterId, speaker_b: RouterId },
    BgpRouteMap { router: RouterId, direction: RouteMapDirection, order: i16 },
    StaticRoute { router: RouterId, prefix: Prefix },
}

/// A change of a configuration.
#[derive(Clone, Copy, Debug, PartialEq, Eq, Structural)]
pub enum ConfigModifier {
    Insert(ConfigExpr),
    Remove(ConfigExpr),
    Update { from: ConfigExpr, to: ConfigExpr },
}

/// The key of a configuration expression.
pub open spec fn expr_key(e: ConfigExpr) -> ConfigExprKey {
    match e {
        ConfigExpr::IgpLinkWeight { source, target, .. } => ConfigExprKey::IgpLinkWeight {
            source,
            target,
        },
        ConfigExpr::BgpSession { source, target, .. } => if source.0 <= target.0 {
            ConfigExprKey::BgpSession { speaker_a: source, speaker_b: target }
        } else {
            ConfigExprKey::BgpSession { speaker_a: target, speaker_b: source }
        },
        ConfigExpr::BgpRouteMap { router, direction, map } => ConfigExprKey::BgpRouteMap {
            router,
            direction,
            order: map.order,
        },
        ConfigExpr::StaticRoute { router, prefix, .. } => ConfigExprKey::StaticRoute {
            router,
            prefix,
        },
    }
}

/// The key of the expression that a modifier changes (for an update, of its new value).
pub open spec fn modifier_key(m: ConfigModifier) -> ConfigExprKey {
    match m {
        ConfigModifier::Insert(e) => expr_key(e),
        ConfigModifier::Remove(e) => expr_key(e),
        ConfigModifier::Update { to, .. } => expr_key(to),
    }
}

impl ConfigExpr {
    /// Returns the key of the expression.
    pub fn key(&self) -> (k: ConfigExprKey)
        ensures
            k == expr_key(*self),
    {
        match *self {
            ConfigExpr::IgpLinkWeight { source, target, .. } => ConfigExprKey::IgpLinkWeight {
                source,
                target,
            },
            ConfigExpr::BgpSession { source, target, .. } => if source.0 <= target.0 {
                ConfigExprKey::BgpSession { speaker_a: source, speaker_b: target }
            } else {
                ConfigExprKey::BgpSession { speaker_a: target, speaker_b: source }
            },
            ConfigExpr::BgpRouteMap { router, direction, map } => ConfigExprKey::BgpRouteMap {
                router,
                direction,
                order: map.order,
            },
            ConfigExpr::StaticRoute { router, prefix, .. } => ConfigExprKey::StaticRoute {
                router,
                prefix,
            },
        }
    }
}

impl ConfigModifier {
    /// Returns the key of the expression that the modifier changes.
    pub fn key(&self) -> (k: ConfigExprKey)
        ensures
            k == modifier_key(*self),
    {
        match self {
            ConfigModifier::Insert(e) => e.key(),
            ConfigModifier::Remove(e) => e.key(),
            ConfigModifier::Update { to, .. } => to.key(),
        }
    }
}


/// Law: the key of a route map keeps its router, its direction and its order, so route maps
/// that differ in any of these are different expressions of a configuration, and an incoming
/// and an outgoing route map never share a key.
pub proof fn lemma_route_map_key(
    router: RouterId,
    direction: RouteMapDirection,
    map: RouteMap,
    other_direction: RouteMapDirection,
    other_map: RouteMap,
)
    ensures
        expr_key((ConfigExpr::BgpRouteMap { router, direction, map })) == (ConfigExprKey::BgpRouteMap {
            router,
            direction,
            order: map.order,
        }),
        direction != other_direction ==> expr_key(
            (ConfigExpr::BgpRouteMap { router, direction, map }),
        ) != expr_key((ConfigExpr::BgpRouteMap { router, direction: other_direction, map: other_map })),
{
}

} // verus!
