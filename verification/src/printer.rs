//! Textual rendering of configuration expressions and modifiers, with the name of every
//! router they mention in place of its index.
use vstd::prelude::*;
use crate::decimal::{dec, to_decimal};
use crate::netsim::{BgpSessionType, ConfigExpr, ConfigModifier, RouteMap, RouteMapDirection, RouterId};
use crate::network::{Network, NetworkError};

verus! {

/// The router that a route map matches on, when the network has no router with its index.
pub open spec fn route_map_missing(names: Seq<Seq<char>>, map: RouteMap) -> Option<RouterId> {
    match map.match_neighbor {
        Some(r) => if r.0 < names.len() { None } else { Some(r) },
        None => None,
    }
}

/// `r` when the network has no router with its index, else `rest`: the first router missing
/// among `r` and those that `rest` was computed from.
pub open spec fn missing_then(names: Seq<Seq<char>>, r: RouterId, rest: Option<RouterId>) -> Option<RouterId> {
    if r.0 < names.len() { rest } else { Some(r) }
}

/// The first router, in printing order, that an expression mentions and the network lacks:
/// source before target, and the router of a route map before the neighbor it matches on.
pub open spec fn expr_missing(names: Seq<Seq<char>>, e: ConfigExpr) -> Option<RouterId> {
    match e {
        ConfigExpr::IgpLinkWeight { source, target, .. } => missing_then(
            names,
            source,
            missing_then(names, target, None),
        ),
        ConfigExpr::BgpSession { source, target, .. } => missing_then(
            names,
            source,
            missing_then(names, target, None),
        ),
        ConfigExpr::BgpRouteMap { router, map, .. } => missing_then(
            names,
            router,
            route_map_missing(names, map),
        ),
        ConfigExpr::StaticRoute { router, target, .. } => missing_then(
            names,
            router,
            missing_then(names, target, None),
        ),
    }
}

/// The router that a modifier refers to by name, when the network lacks it.
pub open spec fn modifier_missing(names: Seq<Seq<char>>, m: ConfigModifier) -> Option<RouterId> {
    match m {
        ConfigModifier::Insert(e) => expr_missing(names, e),
        ConfigModifier::Remove(e) => expr_missing(names, e),
        ConfigModifier::Update { to, .. } => expr_missing(names, to),
    }
}

/// The text of a route map, in this library's own format: `allow` or `deny `, a space, the
/// condition (`*` when there is none, else `Neighbor <name>`), the local preference it sets if
/// any (`; LocalPref = <n>`), and a dot.
pub open spec fn route_map_text(names: Seq<Seq<char>>, map: RouteMap) -> Seq<char> {
    (if map.allow { "allow"@ } else { "deny "@ }) + " "@ + (match map.match_neighbor {
        Some(r) => "Neighbor "@ + names[r.0 as int],
        None => "*"@,
    }) + (match map.set_local_pref {
        Some(lp) => "; LocalPref = "@ + dec(lp as nat),
        None => ""@,
    }) + "."@
}

/// The name of a session type.
pub open spec fn session_type_text(t: BgpSessionType) -> Seq<char> {
    match t {
        BgpSessionType::EBgp => "eBGP"@,
        BgpSessionType::IBgpClient => "iBGP Client"@,
        BgpSessionType::IBgpPeer => "iBGP Peer"@,
    }
}

/// The text of a configuration expression, each router given by its name.
pub open spec fn expr_text(names: Seq<Seq<char>>, e: ConfigExpr) -> Seq<char> {
    match e {
        ConfigExpr::IgpLinkWeight { source, target, weight } => "IGP Link Weight: "@
            + names[source.0 as int] + " -> "@ + names[target.0 as int] + ": "@ + dec(
            weight as nat,
        ),
        ConfigExpr::BgpSession { source, target, session_type } => session_type_text(session_type)
            + " Session: "@ + names[source.0 as int] + " -> "@ + names[target.0 as int],
        ConfigExpr::BgpRouteMap { router, direction, map } => "BGP Route Map on "@
            + names[router.0 as int] + " ["@ + (match direction {
            RouteMapDirection::Incoming => "in"@,
            RouteMapDirection::Outgoing => "out"@,
        }) + "]: "@ + route_map_text(names, map),
        ConfigExpr::StaticRoute { router, prefix, target } => "Static Route: "@
            + names[router.0 as int] + ": Prefix "@ + dec(prefix.0 as nat) + " via "@
            + names[target.0 as int],
    }
}

/// The text of a modifier: `+ `, `- ` or `m ` and the text of the (new) expression.
pub open spec fn modifier_text(names: Seq<Seq<char>>, m: ConfigModifier) -> Seq<char> {
    match m {
        ConfigModifier::Insert(e) => "+ "@ + expr_text(names, e),
        ConfigModifier::Remove(e) => "- "@ + expr_text(names, e),
        ConfigModifier::Update { to, .. } => "m "@ + expr_text(names, to),
    }
}

fn append_dec(s: &mut String, n: u64)
    ensures
        final(s)@ == old(s)@ + dec(n as nat),
{
    let d = to_decimal(n);
    s.append(d.as_str());
}

/// Renders a route map in this library's own format (see `route_map_text`), with the name of
/// the neighbor it matches on.
pub fn route_map(net: &Network, map: &RouteMap) -> (r: Result<String, NetworkError>)
    ensures
        match route_map_missing(net.router_names(), *map) {
            None => r matches Ok(t) && t@ == route_map_text(net.router_names(), *map),
            Some(x) => r matches Err(e) && e == NetworkError::DeviceNotFound(x),
        },
{
    let mut s = if map.allow { String::from_str("allow") } else { String::from_str("deny ") };
    s.append(" ");
    match map.match_neighbor {
        Some(r) => {
            let name = net.get_router_name(r)?;
            s.append("Neighbor ");
            s.append(name);
        },
        None => {
            s.append("*");
        },
    }
    match map.set_local_pref {
        Some(lp) => {
            s.append("; LocalPref = ");
            append_dec(&mut s, lp as u64);
        },
        None => {
            s.append("");
        },
    }
    s.append(".");
    Ok(s)
}

/// Renders a configuration expression, with the name of each router it mentions; fails with
/// `DeviceNotFound` on the first router, in printing order, that the network lacks.
pub fn config_expr(net: &Network, expr: &ConfigExpr) -> (r: Result<String, NetworkError>)
    ensures
        match expr_missing(net.router_names(), *expr) {
            None => r matches Ok(t) && t@ == expr_text(net.router_names(), *expr),
            Some(x) => r matches Err(e) && e == NetworkError::DeviceNotFound(x),
        },
{
    match *expr {
        ConfigExpr::IgpLinkWeight { source, target, weight } => {
            let a = net.get_router_name(source)?;
            let b = net.get_router_name(target)?;
            let mut s = String::from_str("IGP Link Weight: ");
            s.append(a);
            s.append(" -> ");
            s.append(b);
            s.append(": ");
            append_dec(&mut s, weight as u64);
            Ok(s)
        },
        ConfigExpr::BgpSession { source, target, session_type } => {
            let a = net.get_router_name(source)?;
            let b = net.get_router_name(target)?;
            let mut s = match session_type {
                BgpSessionType::EBgp => String::from_str("eBGP"),
                BgpSessionType::IBgpClient => String::from_str("iBGP Client"),
                BgpSessionType::IBgpPeer => String::from_str("iBGP Peer"),
            };
            s.append(" Session: ");
            s.append(a);
            s.append(" -> ");
            s.append(b);
            Ok(s)
        },
        ConfigExpr::BgpRouteMap { router, direction, map } => {
            let a = net.get_router_name(router)?;
            let text = route_map(net, &map)?;
            let mut s = String::from_str("BGP Route Map on ");
            s.append(a);
            s.append(" [");
            match direction {
                RouteMapDirection::Incoming => s.append("in"),
                RouteMapDirection::Outgoing => s.append("out"),
            }
            s.append("]: ");
            s.append(text.as_str());
            Ok(s)
        },
        ConfigExpr::StaticRoute { router, prefix, target } => {
            let a = net.get_router_name(router)?;
            let b = net.get_router_name(target)?;
            let mut s = String::from_str("Static Route: ");
            s.append(a);
            s.append(": Prefix ");
            append_dec(&mut s, prefix.0 as u64);
            s.append(" via ");
            s.append(b);
            Ok(s)
        },
    }
}

/// Renders a modifier (`+ `, `- ` or `m ` and its new expression), with the name of each
/// router it mentions; fails as `config_expr` does.
pub fn config_modifier(net: &Network, modifier: &ConfigModifier) -> (r: Result<String, NetworkError>)
    ensures
        match modifier_missing(net.router_names(), *modifier) {
            None => r matches Ok(t) && t@ == modifier_text(net.router_names(), *modifier),
            Some(x) => r matches Err(e) && e == NetworkError::DeviceNotFound(x),
        },
{
    let (mut s, e) = match modifier {
        ConfigModifier::Insert(e) => (String::from_str("+ "), e),
        ConfigModifier::Remove(e) => (String::from_str("- "), e),
        ConfigModifier::Update { from: _, to } => (String::from_str("m "), to),
    };
    let text = config_expr(net, e)?;
    s.append(text.as_str());
    Ok(s)
}


/// Law: the text of an IGP link weight names its source before its target, whatever their
/// indices: `IGP Link Weight: <source> -> <target>: <weight>`.
pub proof fn lemma_igp_text_source_first(names: Seq<Seq<char>>, s: RouterId, t: RouterId, w: u32)
    ensures
        expr_text(names, (ConfigExpr::IgpLinkWeight { source: s, target: t, weight: w })) == "IGP Link Weight: "@
            + names[s.0 as int] + " -> "@ + names[t.0 as int] + ": "@ + dec(w as nat),
{
}

} // verus!
