//! A network as a configuration store: its routers, the links between them, its current
//! configuration and the routes that external routers advertise. Routing itself is not
//! computed here.
use vstd::prelude::*;
use crate::config::{Config, config_routers_below, least_missing_router};
use crate::netsim::{AsId, ConfigExprKey, ConfigExpr, Prefix, RouterId};

verus! {

/// Errors of network operations.
#[derive(Debug)]
pub enum NetworkError {
    /// No router has this index.
    DeviceNotFound(RouterId),
    /// No router has this name.
    DeviceNameNotFound(String),
    /// The router is internal where an external one is needed.
    DeviceIsInternalRouter(RouterId),
    /// The BGP computation runs in a loop.
    ConvergenceLoop,
    /// The BGP computation does not converge.
    NoConvergence,
    /// There is no action to undo.
    EmptyUndoStack,
}

/// A router: its name, and the AS it belongs to when it is external.
pub struct Router {
    pub name: String,
    pub as_id: Option<AsId>,
}

/// A route that an external router advertises.
pub struct ExternalRoute {
    pub router: RouterId,
    pub prefix: Prefix,
    pub as_path: Vec<AsId>,
    pub med: Option<u32>,
    pub community: Option<u32>,
}

/// The plain values of an advertised route.
pub struct RouteView {
    pub router: RouterId,
    pub prefix: Prefix,
    pub as_path: Seq<AsId>,
    pub med: Option<u32>,
    pub community: Option<u32>,
}

/// A network.
pub struct Network {
    routers: Vec<Router>,
    links: Vec<(RouterId, RouterId)>,
    config: Config,
    routes: Vec<ExternalRoute>,
    known_prefixes: Vec<Prefix>,
}

impl Network {
    #[verifier::type_invariant]
    spec fn inv(self) -> bool {
        &&& forall|i: int|
            0 <= i < self.links@.len() ==> (#[trigger] self.links@[i]).0.0 < self.routers@.len()
                && self.links@[i].1.0 < self.routers@.len()
        &&& config_routers_below(self.config@, self.routers@.len())
        &&& forall|i: int|
            0 <= i < self.routes@.len() ==> (#[trigger] self.routes@[i]).router.0
                < self.routers@.len() && self.routers@[self.routes@[i].router.0 as int].as_id is Some
        &&& self.known_prefixes@.no_duplicates()
    }

    /// The names of the routers, by index.
    pub closed spec fn router_names(&self) -> Seq<Seq<char>> {
        self.routers@.map_values(|r: Router| r.name@)
    }

    /// The AS of each router, by index: `None` for internal routers.
    pub closed spec fn router_ases(&self) -> Seq<Option<AsId>> {
        self.routers@.map_values(|r: Router| r.as_id)
    }

    /// The links, in the order they were added.
    pub closed spec fn links(&self) -> Seq<(RouterId, RouterId)> {
        self.links@
    }

    /// The current configuration.
    pub closed spec fn config(&self) -> Map<ConfigExprKey, ConfigExpr> {
        self.config@
    }

    /// The advertised routes, in the order they were advertised.
    pub closed spec fn routes(&self) -> Seq<RouteView> {
        self.routes@.map_values(
            |r: ExternalRoute|
                RouteView {
                    router: r.router,
                    prefix: r.prefix,
                    as_path: r.as_path@,
                    med: r.med,
                    community: r.community,
                },
        )
    }

    /// The prefixes that some route advertises, in the order they first were.
    pub closed spec fn known_prefixes(&self) -> Seq<Prefix> {
        self.known_prefixes@
    }

    /// The number of routers.
    pub open spec fn num_routers(&self) -> nat {
        self.router_names().len()
    }

    /// An empty network.
    pub fn new() -> (net: Network)
        ensures
            net.router_names() == Seq::<Seq<char>>::empty(),
            net.router_ases() == Seq::<Option<AsId>>::empty(),
            net.links() == Seq::<(RouterId, RouterId)>::empty(),
            net.config() == Map::<ConfigExprKey, ConfigExpr>::empty(),
            net.routes() == Seq::<RouteView>::empty(),
            net.known_prefixes() == Seq::<Prefix>::empty(),
    {
        let net = Network {
            routers: Vec::new(),
            links: Vec::new(),
            config: Config::new(),
            routes: Vec::new(),
            known_prefixes: Vec::new(),
        };
        assert(net.router_names() =~= Seq::<Seq<char>>::empty());
        assert(net.router_ases() =~= Seq::<Option<AsId>>::empty());
        assert(net.routes() =~= Seq::<RouteView>::empty());
        net
    }

    fn push_router(&mut self, name: String, as_id: Option<AsId>) -> (id: RouterId)
        requires
            old(self).routers@.len() < usize::MAX,
        ensures
            id.0 == old(self).num_routers(),
            final(self).router_names() == old(self).router_names().push(name@),
            final(self).router_ases() == old(self).router_ases().push(as_id),
            final(self).links() == old(self).links(),
            final(self).config() == old(self).config(),
            final(self).routes() == old(self).routes(),
            final(self).known_prefixes() == old(self).known_prefixes(),
    {
        proof {
            use_type_invariant(&*self);
        }
        let id = RouterId(self.routers.len());
        let mut whole = Network::new();
        std::mem::swap(&mut whole, self);
        let Network { routers, links, config, routes, known_prefixes } = whole;
        let mut v = routers;
        let ghost before = v@;
        v.push(Router { name, as_id });
        assert(forall|i: int| 0 <= i < before.len() ==> #[trigger] v@[i] == before[i]);
        *self = Network { routers: v, links, config, routes, known_prefixes };
        assert(self.router_names() =~= old(self).router_names().push(name@));
        assert(self.router_ases() =~= old(self).router_ases().push(as_id));
        id
    }

    /// Adds an internal router and returns its identifier, the next free index.
    pub fn add_router(&mut self, name: String) -> (id: RouterId)
        requires
            old(self).num_routers() < usize::MAX,
        ensures
            id.0 == old(self).num_routers(),
            final(self).router_names() == old(self).router_names().push(name@),
            final(self).router_ases() == old(self).router_ases().push(None),
            final(self).links() == old(self).links(),
            final(self).config() == old(self).config(),
            final(self).routes() == old(self).routes(),
            final(self).known_prefixes() == old(self).known_prefixes(),
    {
        self.push_router(name, None)
    }

    /// Adds an external router of AS `as_id` and returns its identifier, the next free index.
    pub fn add_external_router(&mut self, name: String, as_id: AsId) -> (id: RouterId)
        requires
            old(self).num_routers() < usize::MAX,
        ensures
            id.0 == old(self).num_routers(),
            final(self).router_names() == old(self).router_names().push(name@),
            final(self).router_ases() == old(self).router_ases().push(Some(as_id)),
            final(self).links() == old(self).links(),
            final(self).config() == old(self).config(),
            final(self).routes() == old(self).routes(),
            final(self).known_prefixes() == old(self).known_prefixes(),
    {
        self.push_router(name, Some(as_id))
    }

    /// Adds a link between two routers of the network.
    pub fn add_link(&mut self, a: RouterId, b: RouterId)
        requires
            a.0 < old(self).num_routers(),
            b.0 < old(self).num_routers(),
        ensures
            final(self).router_names() == old(self).router_names(),
            final(self).router_ases() == old(self).router_ases(),
            final(self).links() == old(self).links().push((a, b)),
            final(self).config() == old(self).config(),
            final(self).routes() == old(self).routes(),
            final(self).known_prefixes() == old(self).known_prefixes(),
    {
        proof {
            use_type_invariant(&*self);
        }
        let mut v: Vec<(RouterId, RouterId)> = Vec::new();
        std::mem::swap(&mut v, &mut self.links);
        let ghost before = v@;
        v.push((a, b));
        assert(forall|i: int| 0 <= i < before.len() ==> #[trigger] v@[i] == before[i]);
        self.links = v;
    }

    /// The identifier of the first router named `name`.
    pub fn get_router_id(&self, name: &str) -> (r: Result<RouterId, NetworkError>)
        ensures
            match r {
                Ok(id) => id.0 < self.num_routers() && self.router_names()[id.0 as int] == name@
                    && forall|j: int| 0 <= j < id.0 ==> self.router_names()[j] != name@,
                Err(e) => e matches NetworkError::DeviceNameNotFound(n) && n@ == name@ && forall|j: int|
                    0 <= j < self.num_routers() ==> self.router_names()[j] != name@,
            },
    {
        let target = String::from_str(name);
        let mut i: usize = 0;
        while i < self.routers.len()
            invariant
                i <= self.routers@.len(),
                target@ == name@,
                forall|j: int| 0 <= j < i ==> self.router_names()[j] != name@,
            decreases self.routers@.len() - i,
        {
            if self.routers[i].name == target {
                return Ok(RouterId(i));
            }
            i = i + 1;
        }
        Err(NetworkError::DeviceNameNotFound(target))
    }

    /// The name of a router.
    pub fn get_router_name(&self, id: RouterId) -> (r: Result<&str, NetworkError>)
        ensures
            match r {
                Ok(n) => id.0 < self.num_routers() && n@ == self.router_names()[id.0 as int],
                Err(e) => id.0 >= self.num_routers() && e == NetworkError::DeviceNotFound(id),
            },
    {
        if id.0 < self.routers.len() {
            Ok(self.routers[id.0].name.as_str())
        } else {
            Err(NetworkError::DeviceNotFound(id))
        }
    }

    /// The internal routers, in the order of their indices.
    pub fn get_routers(&self) -> (r: Vec<RouterId>)
        ensures
            r@ == internal_routers(self.router_ases()),
    {
        let mut r: Vec<RouterId> = Vec::new();
        let mut i: usize = 0;
        while i < self.routers.len()
            invariant
                i <= self.routers@.len(),
                r@ == internal_routers(self.router_ases().take(i as int)),
            decreases self.routers@.len() - i,
        {
            proof {
                assert(self.router_ases().take(i + 1).drop_last() =~= self.router_ases().take(i as int));
            }
            if self.routers[i].as_id.is_none() {
                r.push(RouterId(i));
            }
            i = i + 1;
        }
        assert(self.router_ases().take(self.routers@.len() as int) =~= self.router_ases());
        r
    }

    /// The prefixes that some route advertises.
    pub fn get_known_prefixes(&self) -> (r: Vec<Prefix>)
        ensures
            r@ == self.known_prefixes(),
    {
        let mut r: Vec<Prefix> = Vec::new();
        let mut i: usize = 0;
        while i < self.known_prefixes.len()
            invariant
                i <= self.known_prefixes@.len(),
                r@ == self.known_prefixes@.take(i as int),
            decreases self.known_prefixes@.len() - i,
        {
            r.push(self.known_prefixes[i]);
            i = i + 1;
            assert(r@ =~= self.known_prefixes@.take(i as int));
        }
        assert(r@ =~= self.known_prefixes@);
        r
    }

    /// The current configuration.
    pub fn current_config(&self) -> (c: &Config)
        ensures
            c@ == self.config(),
    {
        &self.config
    }

    /// Replaces the configuration. Fails, and leaves the network as it was, when an
    /// expression of `config` is configured on a router that the network lacks; the error
    /// names the least index of such a router.
    pub fn set_config(&mut self, config: &Config) -> (r: Result<(), NetworkError>)
        ensures
            r is Ok <==> config_routers_below(config@, old(self).num_routers()),
            r is Ok ==> final(self).config() == config@,
            r matches Err(e) ==> final(self).config() == old(self).config() && exists|x: RouterId|
                e == NetworkError::DeviceNotFound(x) && least_missing_router(
                    config@,
                    old(self).num_routers(),
                    x,
                ),
            final(self).router_names() == old(self).router_names(),
            final(self).router_ases() == old(self).router_ases(),
            final(self).links() == old(self).links(),
            final(self).routes() == old(self).routes(),
            final(self).known_prefixes() == old(self).known_prefixes(),
    {
        proof {
            use_type_invariant(&*self);
        }
        match config.missing_router(self.routers.len()) {
            Some(x) => Err(NetworkError::DeviceNotFound(x)),
            None => {
                self.config = config.copy();
                Ok(())
            },
        }
    }

    /// Records a route that external router `source` advertises for `prefix`.
    pub fn advertise_external_route(
        &mut self,
        source: RouterId,
        prefix: Prefix,
        as_path: Vec<AsId>,
        med: Option<u32>,
        community: Option<u32>,
    ) -> (r: Result<(), NetworkError>)
        ensures
            source.0 >= old(self).num_routers() ==> (r matches Err(e) && e == NetworkError::DeviceNotFound(source)),
            source.0 < old(self).num_routers() && old(self).router_ases()[source.0 as int] is None
                ==> (r matches Err(e) && e == NetworkError::DeviceIsInternalRouter(source)),
            r is Err ==> final(self).routes() == old(self).routes() && final(self).known_prefixes()
                == old(self).known_prefixes(),
            source.0 < old(self).num_routers() && old(self).router_ases()[source.0 as int] is Some
                ==> r is Ok && final(self).routes() == old(self).routes().push(
                RouteView { router: source, prefix, as_path: as_path@, med, community },
            ) && final(self).known_prefixes() == (if old(self).known_prefixes().contains(prefix) {
                old(self).known_prefixes()
            } else {
                old(self).known_prefixes().push(prefix)
            }),
            final(self).router_names() == old(self).router_names(),
            final(self).router_ases() == old(self).router_ases(),
            final(self).links() == old(self).links(),
            final(self).config() == old(self).config(),
    {
        proof {
            use_type_invariant(&*self);
        }
        if source.0 >= self.routers.len() {
            return Err(NetworkError::DeviceNotFound(source));
        }
        if self.routers[source.0].as_id.is_none() {
            return Err(NetworkError::DeviceIsInternalRouter(source));
        }
        let mut known = false;
        let mut i: usize = 0;
        while i < self.known_prefixes.len()
            invariant
                i <= self.known_prefixes@.len(),
                known <==> exists|j: int| 0 <= j < i && self.known_prefixes@[j] == prefix,
            decreases self.known_prefixes@.len() - i,
        {
            if self.known_prefixes[i] == prefix {
                known = true;
            }
            i = i + 1;
        }
        if !known {
            let mut p: Vec<Prefix> = Vec::new();
            std::mem::swap(&mut p, &mut self.known_prefixes);
            let ghost before = p@;
            p.push(prefix);
            proof {
                assert(!before.contains(prefix));
                assert forall|a: int, b: int| 0 <= a < b < p@.len() implies p@[a] != p@[b] by {
                    if b == before.len() {
                        assert(p@[a] == before[a]);
                    } else {
                        assert(p@[a] == before[a] && p@[b] == before[b]);
                    }
                }
            }
            self.known_prefixes = p;
        }
        let mut v: Vec<ExternalRoute> = Vec::new();
        std::mem::swap(&mut v, &mut self.routes);
        let ghost before = v@;
        v.push(ExternalRoute { router: source, prefix, as_path, med, community });
        assert(forall|i: int| 0 <= i < before.len() ==> #[trigger] v@[i] == before[i]);
        self.routes = v;
        proof {
            assert(self.routes() =~= old(self).routes().push(
                RouteView { router: source, prefix, as_path: as_path@, med, community },
            ));
        }
        Ok(())
    }

    /// A copy of the network.
    pub fn copy(&self) -> (n: Network)
        ensures
            n.router_names() == self.router_names(),
            n.router_ases() == self.router_ases(),
            n.links() == self.links(),
            n.config() == self.config(),
            n.routes() == self.routes(),
            n.known_prefixes() == self.known_prefixes(),
    {
        proof {
            use_type_invariant(self);
        }
        let mut routers: Vec<Router> = Vec::new();
        let mut i: usize = 0;
        while i < self.routers.len()
            invariant
                i <= self.routers@.len(),
                routers@.len() == i,
                forall|j: int| 0 <= j < i ==> (#[trigger] routers@[j]).name@ == self.routers@[j].name@
                    && routers@[j].as_id == self.routers@[j].as_id,
            decreases self.routers@.len() - i,
        {
            let r = &self.routers[i];
            routers.push(Router { name: r.name.clone(), as_id: r.as_id });
            i = i + 1;
        }
        let mut routes: Vec<ExternalRoute> = Vec::new();
        let mut i: usize = 0;
        while i < self.routes.len()
            invariant
                i <= self.routes@.len(),
                routes@.len() == i,
                forall|j: int| 0 <= j < i ==> (#[trigger] routes@[j]).router == self.routes@[j].router
                    && routes@[j].prefix == self.routes@[j].prefix && routes@[j].as_path@
                    == self.routes@[j].as_path@ && routes@[j].med == self.routes@[j].med
                    && routes@[j].community == self.routes@[j].community,
            decreases self.routes@.len() - i,
        {
            let r = &self.routes[i];
            let as_path = r.as_path.clone();
            assert(as_path@ =~= r.as_path@);
            routes.push(ExternalRoute { router: r.router, prefix: r.prefix, as_path, med: r.med, community: r.community });
            i = i + 1;
        }
        let mut links: Vec<(RouterId, RouterId)> = Vec::new();
        let mut i: usize = 0;
        while i < self.links.len()
            invariant
                i <= self.links@.len(),
                links@ == self.links@.take(i as int),
            decreases self.links@.len() - i,
        {
            let (a, b) = self.links[i];
            links.push((a, b));
            i = i + 1;
            assert(links@ =~= self.links@.take(i as int));
        }
        assert(links@ =~= self.links@);
        let known_prefixes = self.known_prefixes.clone();
        assert(known_prefixes@ =~= self.known_prefixes@);
        let n = Network { routers, links, config: self.config.copy(), routes, known_prefixes };
        assert(n.router_names() =~= self.router_names());
        assert(n.router_ases() =~= self.router_ases());
        assert(n.routes() =~= self.routes());
        n
    }
}

/// The indices of the internal routers, in increasing order.
pub open spec fn internal_routers(ases: Seq<Option<AsId>>) -> Seq<RouterId>
    decreases ases.len(),
{
    if ases.len() == 0 {
        Seq::empty()
    } else if ases.last() is None {
        internal_routers(ases.drop_last()).push(RouterId((ases.len() - 1) as usize))
    } else {
        internal_routers(ases.drop_last())
    }
}

} // verus!
