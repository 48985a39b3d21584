use crate::addr::{IpAddress, SocketAddress};
use crate::assoc::{
    distinct_keys, has_key, lemma_remove_value_absent, lemma_remove_value_at, lemma_table_keys,
    lemma_table_push, lemma_table_remove, lemma_table_row, lemma_table_update, table_keys,
    table_map,
};
use crate::text::str_eq;
use vstd::prelude::*;

verus! {

/// Where a route leads: the upstream's TCP endpoint and its UDP endpoint.
#[derive(Clone, Copy, Debug, PartialEq, Eq, Structural)]
pub struct Route {
    pub tcp: SocketAddress,
    pub udp: SocketAddress,
}

/// A route table row: a route under its name.
pub struct NamedRoute {
    pub name: String,
    pub route: Route,
}

/// The clients that wait for the first reply of one upstream IP.
struct PendingClients {
    upstream_ip: IpAddress,
    clients: Vec<SocketAddress>,
}

/// The state that the TCP workers and the UDP relay share: the route table,
/// the exact client-to-upstream mappings, the IP hints, and the clients that
/// wait for a first upstream reply.
pub struct Router {
    routes: Vec<NamedRoute>,
    client_udp_map: Vec<(SocketAddress, SocketAddress)>,
    client_upstream_ip_map: Vec<(IpAddress, IpAddress)>,
    pending_clients: Vec<PendingClients>,
}

/// Holds of the addresses whose IP is `ip`.
pub open spec fn at_ip(ip: IpAddress) -> spec_fn(SocketAddress) -> bool {
    |a: SocketAddress| a.ip_of() == ip
}

/// Gives the UDP endpoint of the route that `routes` has under a name.
pub open spec fn udp_of(routes: Map<Seq<char>, Route>) -> spec_fn(Seq<char>) -> SocketAddress {
    |name: Seq<char>| routes[name].udp
}

/// `exact` once every client of `clients` is mapped to `upstream`.
pub open spec fn promoted_exact(
    exact: Map<SocketAddress, SocketAddress>,
    clients: Seq<SocketAddress>,
    upstream: SocketAddress,
) -> Map<SocketAddress, SocketAddress> {
    Map::new(
        |c: SocketAddress| exact.contains_key(c) || clients.contains(c),
        |c: SocketAddress|
            if clients.contains(c) {
                upstream
            } else {
                exact[c]
            },
    )
}

/// The clients that wait for `upstream_ip` in `pending`; none where it has no
/// entry.
pub open spec fn waiting_for(
    pending: Map<IpAddress, Seq<SocketAddress>>,
    upstream_ip: IpAddress,
) -> Seq<SocketAddress> {
    if pending.contains_key(upstream_ip) {
        pending[upstream_ip]
    } else {
        Seq::empty()
    }
}

/// `pending` once `client` no longer waits for `upstream_ip`; an entry
/// that is left without clients goes too.
pub open spec fn pending_without(
    pending: Map<IpAddress, Seq<SocketAddress>>,
    upstream_ip: IpAddress,
    client: SocketAddress,
) -> Map<IpAddress, Seq<SocketAddress>> {
    if pending.contains_key(upstream_ip) {
        let rest = pending[upstream_ip].remove_value(client);
        if rest.len() == 0 {
            pending.remove(upstream_ip)
        } else {
            pending.insert(upstream_ip, rest)
        }
    } else {
        pending
    }
}

fn position_of(list: &Vec<SocketAddress>, x: SocketAddress) -> (r: Option<usize>)
    ensures
        match r {
            Some(i) => i < list@.len() && list@[i as int] == x,
            None => !list@.contains(x),
        },
{
    let mut i: usize = 0;
    while i < list.len()
        invariant
            i <= list@.len(),
            forall|j: int| 0 <= j < i ==> list@[j] != x,
        decreases list@.len() - i,
    {
        if list[i] == x {
            return Some(i);
        }
        i = i + 1;
    }
    None
}

impl Router {
    spec fn route_rows(&self) -> Seq<(Seq<char>, Route)> {
        self.routes@.map_values(|row: NamedRoute| (row.name@, row.route))
    }

    spec fn pending_rows(&self) -> Seq<(IpAddress, Seq<SocketAddress>)> {
        self.pending_clients@.map_values(|row: PendingClients| (row.upstream_ip, row.clients@))
    }

    /// The route table: each name with its route.
    pub closed spec fn routes(&self) -> Map<Seq<char>, Route> {
        table_map(self.route_rows())
    }

    /// The names of the route table in table order.
    pub closed spec fn route_names(&self) -> Seq<Seq<char>> {
        table_keys(self.route_rows())
    }

    /// The exact mappings: each client socket with its upstream socket.
    pub closed spec fn exact(&self) -> Map<SocketAddress, SocketAddress> {
        table_map(self.client_udp_map@)
    }

    /// The IP hints: each client IP with its upstream IP.
    pub closed spec fn ip_hints(&self) -> Map<IpAddress, IpAddress> {
        table_map(self.client_upstream_ip_map@)
    }

    /// The pending set: each upstream IP with the clients that wait for it, in
    /// the order in which they came.
    pub closed spec fn pending(&self) -> Map<IpAddress, Seq<SocketAddress>> {
        table_map(self.pending_rows())
    }

    /// No key stands twice in a table, and no list of waiting clients is
    /// empty or names a client twice.
    pub closed spec fn wf(&self) -> bool {
        &&& distinct_keys(self.route_rows())
        &&& distinct_keys(self.client_udp_map@)
        &&& distinct_keys(self.client_upstream_ip_map@)
        &&& distinct_keys(self.pending_rows())
        &&& forall|i: int|
            0 <= i < self.pending_rows().len() ==> (#[trigger] self.pending_rows()[i]).1.len() > 0
                && self.pending_rows()[i].1.no_duplicates()
    }

    /// The two states have the same route table.
    pub open spec fn same_routes(&self, other: &Router) -> bool {
        self.routes() == other.routes() && self.route_names() == other.route_names()
    }

    /// The two states have the same exact mappings.
    pub open spec fn same_exact(&self, other: &Router) -> bool {
        self.exact() == other.exact()
    }

    /// The two states have the same IP hints.
    pub open spec fn same_hints(&self, other: &Router) -> bool {
        self.ip_hints() == other.ip_hints()
    }

    /// In the two states the same clients wait for the same upstream IPs.
    pub open spec fn same_pending(&self, other: &Router) -> bool {
        self.pending() == other.pending()
    }

    /// The UDP endpoints of the routes whose upstream IP is `ip`, in table
    /// order.
    pub open spec fn udp_endpoints_at(&self, ip: IpAddress) -> Seq<SocketAddress> {
        self.route_names().map_values(udp_of(self.routes())).filter(at_ip(ip))
    }

    /// `client` has an exact mapping, and it leads to `upstream`.
    pub open spec fn serves(&self, client: SocketAddress, upstream: SocketAddress) -> bool {
        self.exact().contains_key(client) && self.exact()[client] == upstream
    }

    /// The names of the route table are its keys, each once, and the lists
    /// of waiting clients are never empty and name no client twice.
    pub proof fn lemma_tables(&self)
        requires
            self.wf(),
        ensures
            self.route_names().no_duplicates(),
            forall|name: Seq<char>|
                self.route_names().contains(name) <==> self.routes().contains_key(name),
            forall|ip: IpAddress| #[trigger]
                self.pending().contains_key(ip) ==> self.pending()[ip].len() > 0
                    && self.pending()[ip].no_duplicates(),
    {
        lemma_table_keys(self.route_rows());
        assert forall|ip: IpAddress| #[trigger]
            self.pending().contains_key(ip) implies self.pending()[ip].len() > 0
            && self.pending()[ip].no_duplicates() by {
            let rows = self.pending_rows();
            let i = choose|i: int| 0 <= i < rows.len() && (#[trigger] rows[i]).0 == ip;
            lemma_table_row(rows, i);
        }
    }

    /// A state without routes, mappings, hints and waiting clients.
    pub fn new() -> (r: Router)
        ensures
            r.wf(),
            r.routes() == Map::<Seq<char>, Route>::empty(),
            r.route_names() == Seq::<Seq<char>>::empty(),
            r.exact() == Map::<SocketAddress, SocketAddress>::empty(),
            r.ip_hints() == Map::<IpAddress, IpAddress>::empty(),
            r.pending() == Map::<IpAddress, Seq<SocketAddress>>::empty(),
    {
        let r = Router {
            routes: Vec::new(),
            client_udp_map: Vec::new(),
            client_upstream_ip_map: Vec::new(),
            pending_clients: Vec::new(),
        };
        proof {
            assert(r.routes() =~= Map::<Seq<char>, Route>::empty());
            assert(r.route_names() =~= Seq::<Seq<char>>::empty());
            assert(r.exact() =~= Map::<SocketAddress, SocketAddress>::empty());
            assert(r.ip_hints() =~= Map::<IpAddress, IpAddress>::empty());
            assert(r.pending() =~= Map::<IpAddress, Seq<SocketAddress>>::empty());
        }
        r
    }

    fn find_route(&self, name: &str) -> (r: Option<usize>)
        ensures
            match r {
                Some(i) => i < self.route_rows().len() && self.route_rows()[i as int].0 == name@,
                None => !has_key(self.route_rows(), name@),
            },
    {
        let mut i: usize = 0;
        while i < self.routes.len()
            invariant
                i <= self.routes@.len(),
                forall|j: int| 0 <= j < i ==> (#[trigger] self.route_rows()[j]).0 != name@,
            decreases self.routes@.len() - i,
        {
            if str_eq(self.routes[i].name.as_str(), name) {
                return Some(i);
            }
            i = i + 1;
        }
        None
    }

    fn find_client(&self, client: SocketAddress) -> (r: Option<usize>)
        ensures
            match r {
                Some(i) => i < self.client_udp_map@.len() && self.client_udp_map@[i as int].0
                    == client,
                None => !has_key(self.client_udp_map@, client),
            },
    {
        let mut i: usize = 0;
        while i < self.client_udp_map.len()
            invariant
                i <= self.client_udp_map@.len(),
                forall|j: int| 0 <= j < i ==> (#[trigger] self.client_udp_map@[j]).0 != client,
            decreases self.client_udp_map@.len() - i,
        {
            if self.client_udp_map[i].0 == client {
                return Some(i);
            }
            i = i + 1;
        }
        None
    }

    fn find_hint(&self, client_ip: IpAddress) -> (r: Option<usize>)
        ensures
            match r {
                Some(i) => i < self.client_upstream_ip_map@.len()
                    && self.client_upstream_ip_map@[i as int].0 == client_ip,
                None => !has_key(self.client_upstream_ip_map@, client_ip),
            },
    {
        let mut i: usize = 0;
        while i < self.client_upstream_ip_map.len()
            invariant
                i <= self.client_upstream_ip_map@.len(),
                forall|j: int|
                    0 <= j < i ==> (#[trigger] self.client_upstream_ip_map@[j]).0 != client_ip,
            decreases self.client_upstream_ip_map@.len() - i,
        {
            if self.client_upstream_ip_map[i].0 == client_ip {
                return Some(i);
            }
            i = i + 1;
        }
        None
    }

    fn find_pending(&self, upstream_ip: IpAddress) -> (r: Option<usize>)
        ensures
            match r {
                Some(i) => i < self.pending_rows().len() && self.pending_rows()[i as int].0
                    == upstream_ip,
                None => !has_key(self.pending_rows(), upstream_ip),
            },
    {
        let mut i: usize = 0;
        while i < self.pending_clients.len()
            invariant
                i <= self.pending_clients@.len(),
                forall|j: int| 0 <= j < i ==> (#[trigger] self.pending_rows()[j]).0 != upstream_ip,
            decreases self.pending_clients@.len() - i,
        {
            if self.pending_clients[i].upstream_ip == upstream_ip {
                return Some(i);
            }
            i = i + 1;
        }
        None
    }

    /// Puts a route under `name`, in place of the one that was there.
    pub fn add_route(&mut self, name: String, tcp_addr: SocketAddress, udp_addr: SocketAddress)
        requires
            old(self).wf(),
        ensures
            final(self).wf(),
            final(self).routes() == old(self).routes().insert(
                name@,
                (Route { tcp: tcp_addr, udp: udp_addr }),
            ),
            final(self).route_names() == if old(self).routes().contains_key(name@) {
                old(self).route_names()
            } else {
                old(self).route_names().push(name@)
            },
            final(self).same_exact(old(self)),
            final(self).same_hints(old(self)),
            final(self).same_pending(old(self)),
    {
        let route = Route { tcp: tcp_addr, udp: udp_addr };
        let ghost rows = self.route_rows();
        let ghost key = name@;
        match self.find_route(name.as_str()) {
            Some(i) => {
                proof {
                    lemma_table_row(rows, i as int);
                    lemma_table_update(rows, i as int, route);
                }
                self.routes.set(i, NamedRoute { name, route });
                proof {
                    assert(self.route_rows() =~= rows.update(i as int, (key, route)));
                }
            },
            None => {
                proof {
                    lemma_table_push(rows, key, route);
                }
                self.routes.push(NamedRoute { name, route });
                proof {
                    assert(self.route_rows() =~= rows.push((key, route)));
                }
            },
        }
    }

    /// The route under `server_name`, if there is one.
    pub fn lookup_route(&self, server_name: &str) -> (r: Option<Route>)
        requires
            self.wf(),
        ensures
            r == if self.routes().contains_key(server_name@) {
                Some(self.routes()[server_name@])
            } else {
                None
            },
    {
        match self.find_route(server_name) {
            Some(i) => {
                proof {
                    lemma_table_row(self.route_rows(), i as int);
                }
                Some(self.routes[i].route)
            },
            None => None,
        }
    }

    /// Takes the route under `name` out of the table and returns it.
    pub fn remove_route(&mut self, name: &str) -> (r: Option<Route>)
        requires
            old(self).wf(),
        ensures
            final(self).wf(),
            r == if old(self).routes().contains_key(name@) {
                Some(old(self).routes()[name@])
            } else {
                None
            },
            final(self).routes() == old(self).routes().remove(name@),
            final(self).route_names() == old(self).route_names().remove_value(name@),
            final(self).same_exact(old(self)),
            final(self).same_hints(old(self)),
            final(self).same_pending(old(self)),
    {
        let ghost rows = self.route_rows();
        proof {
            lemma_table_keys(rows);
        }
        match self.find_route(name) {
            Some(i) => {
                proof {
                    lemma_table_row(rows, i as int);
                    lemma_table_remove(rows, i as int);
                    lemma_remove_value_at(table_keys(rows), i as int);
                }
                let row = self.routes.remove(i);
                proof {
                    assert(self.route_rows() =~= rows.remove(i as int));
                }
                Some(row.route)
            },
            None => {
                proof {
                    lemma_remove_value_absent(table_keys(rows), name@);
                    assert(self.routes() =~= self.routes().remove(name@));
                }
                None
            },
        }
    }

    /// A copy of the route table, row by row.
    pub fn snapshot(&self) -> (rows: Vec<(String, Route)>)
        requires
            self.wf(),
        ensures
            rows@.len() == self.route_names().len(),
            forall|i: int|
                0 <= i < rows@.len() ==> (#[trigger] rows@[i]).0@ == self.route_names()[i]
                    && rows@[i].1 == self.routes()[self.route_names()[i]],
    {
        let mut rows: Vec<(String, Route)> = Vec::new();
        let mut i: usize = 0;
        while i < self.routes.len()
            invariant
                self.wf(),
                i <= self.routes@.len(),
                rows@.len() == i,
                forall|j: int|
                    0 <= j < i ==> (#[trigger] rows@[j]).0@ == self.route_names()[j] && rows@[j].1
                        == self.routes()[self.route_names()[j]],
            decreases self.routes@.len() - i,
        {
            proof {
                lemma_table_row(self.route_rows(), i as int);
            }
            rows.push((self.routes[i].name.clone(), self.routes[i].route));
            i = i + 1;
        }
        rows
    }

    /// The UDP endpoints of the routes whose upstream IP is `ip`.
    pub fn upstream_addrs_for_ip(&self, ip: &IpAddress) -> (addrs: Vec<SocketAddress>)
        requires
            self.wf(),
        ensures
            addrs@ == self.udp_endpoints_at(*ip),
    {
        let ghost all = self.route_names().map_values(udp_of(self.routes()));
        let mut addrs: Vec<SocketAddress> = Vec::new();
        let mut i: usize = 0;
        while i < self.routes.len()
            invariant
                self.wf(),
                i <= self.routes@.len(),
                all == self.route_names().map_values(udp_of(self.routes())),
                all.len() == self.routes@.len(),
                addrs@ == all.take(i as int).filter(at_ip(*ip)),
            decreases self.routes@.len() - i,
        {
            let udp: SocketAddress = self.routes[i].route.udp;
            proof {
                lemma_table_row(self.route_rows(), i as int);
                assert(all[i as int] == udp);
                assert(all.take(i + 1) =~= all.take(i as int).push(udp));
                all.take(i as int).lemma_filter_push(udp, at_ip(*ip));
            }
            if udp.ip() == *ip {
                addrs.push(udp);
            }
            i = i + 1;
        }
        proof {
            assert(all.take(i as int) =~= all);
        }
        addrs
    }

    /// Maps `client` to `upstream`, in place of what it was mapped to.
    pub fn register_udp_mapping(&mut self, client: SocketAddress, upstream: SocketAddress)
        requires
            old(self).wf(),
        ensures
            final(self).wf(),
            final(self).exact() == old(self).exact().insert(client, upstream),
            final(self).same_routes(old(self)),
            final(self).same_hints(old(self)),
            final(self).same_pending(old(self)),
    {
        let ghost rows = self.client_udp_map@;
        match self.find_client(client) {
            Some(i) => {
                proof {
                    lemma_table_row(rows, i as int);
                    lemma_table_update(rows, i as int, upstream);
                }
                self.client_udp_map.set(i, (client, upstream));
            },
            None => {
                proof {
                    lemma_table_push(rows, client, upstream);
                }
                self.client_udp_map.push((client, upstream));
            },
        }
    }

    /// Forgets the mapping of `client`, if it has one.
    pub fn unregister_udp_mapping(&mut self, client: &SocketAddress)
        requires
            old(self).wf(),
        ensures
            final(self).wf(),
            final(self).exact() == old(self).exact().remove(*client),
            final(self).same_routes(old(self)),
            final(self).same_hints(old(self)),
            final(self).same_pending(old(self)),
    {
        let ghost rows = self.client_udp_map@;
        match self.find_client(*client) {
            Some(i) => {
                proof {
                    lemma_table_row(rows, i as int);
                    lemma_table_remove(rows, i as int);
                }
                self.client_udp_map.remove(i);
            },
            None => {
                proof {
                    assert(self.exact() =~= self.exact().remove(*client));
                }
            },
        }
    }

    /// The upstream that `client` is mapped to, if it has a mapping.
    pub fn lookup_udp_for_client(&self, client: &SocketAddress) -> (r: Option<SocketAddress>)
        requires
            self.wf(),
        ensures
            r == if self.exact().contains_key(*client) {
                Some(self.exact()[*client])
            } else {
                None
            },
    {
        match self.find_client(*client) {
            Some(i) => {
                proof {
                    lemma_table_row(self.client_udp_map@, i as int);
                }
                Some(self.client_udp_map[i].1)
            },
            None => None,
        }
    }

    /// The clients whose mapping leads to `server_addr`, each once.
    pub fn clients_for_upstream(&self, server_addr: &SocketAddress) -> (clients: Vec<
        SocketAddress,
    >)
        requires
            self.wf(),
        ensures
            clients@.no_duplicates(),
            forall|c: SocketAddress| clients@.contains(c) <==> self.serves(c, *server_addr),
    {
        let ghost rows = self.client_udp_map@;
        let mut clients: Vec<SocketAddress> = Vec::new();
        let mut i: usize = 0;
        while i < self.client_udp_map.len()
            invariant
                self.wf(),
                rows == self.client_udp_map@,
                i <= rows.len(),
                clients@.no_duplicates(),
                forall|c: SocketAddress|
                    clients@.contains(c) <==> exists|j: int|
                        0 <= j < i && #[trigger] rows[j] == (c, *server_addr),
            decreases rows.len() - i,
        {
            let row: (SocketAddress, SocketAddress) = self.client_udp_map[i];
            let ghost before = clients@;
            if row.1 == *server_addr {
                clients.push(row.0);
                proof {
                    assert(!before.contains(row.0)) by {
                        if before.contains(row.0) {
                            let j = choose|j: int|
                                0 <= j < i && #[trigger] rows[j] == (row.0, *server_addr);
                            assert(rows[j].0 != rows[i as int].0);
                        }
                    }
                    assert forall|c: SocketAddress| clients@.contains(c) <==> exists|j: int|
                        0 <= j < i + 1 && #[trigger] rows[j] == (c, *server_addr) by {
                        if clients@.contains(c) {
                            let k = choose|k: int| 0 <= k < clients@.len() && clients@[k] == c;
                            if k < before.len() {
                                assert(before[k] == c);
                                assert(before.contains(c));
                            } else {
                                assert(rows[i as int] == (c, *server_addr));
                            }
                        }
                        if exists|j: int|
                            0 <= j < i + 1 && #[trigger] rows[j] == (c, *server_addr) {
                            let j = choose|j: int|
                                0 <= j < i + 1 && #[trigger] rows[j] == (c, *server_addr);
                            if j < i {
                                assert(before.contains(c));
                                let k = choose|k: int| 0 <= k < before.len() && before[k] == c;
                                assert(clients@[k] == c);
                            } else {
                                assert(clients@[before.len() as int] == c);
                            }
                        }
                    }
                }
            } else {
                proof {
                    assert forall|c: SocketAddress| clients@.contains(c) <==> exists|j: int|
                        0 <= j < i + 1 && #[trigger] rows[j] == (c, *server_addr) by {
                        if exists|j: int|
                            0 <= j < i + 1 && #[trigger] rows[j] == (c, *server_addr) {
                            let j = choose|j: int|
                                0 <= j < i + 1 && #[trigger] rows[j] == (c, *server_addr);
                            assert(j < i);
                        }
                    }
                }
            }
            i = i + 1;
        }
        proof {
            assert forall|c: SocketAddress| clients@.contains(c) <==> self.serves(
                c,
                *server_addr,
            ) by {
                if clients@.contains(c) {
                    let j = choose|j: int|
                        0 <= j < rows.len() && #[trigger] rows[j] == (c, *server_addr);
                    lemma_table_row(rows, j);
                }
                if self.serves(c, *server_addr) {
                    let j = choose|j: int| 0 <= j < rows.len() && (#[trigger] rows[j]).0 == c;
                    lemma_table_row(rows, j);
                    assert(rows[j] == (c, *server_addr));
                }
            }
        }
        clients
    }

    /// Maps every client of `clients` to `upstream`.
    pub fn register_all(&mut self, clients: &Vec<SocketAddress>, upstream: SocketAddress)
        requires
            old(self).wf(),
        ensures
            final(self).wf(),
            final(self).exact() == promoted_exact(old(self).exact(), clients@, upstream),
            final(self).same_routes(old(self)),
            final(self).same_hints(old(self)),
            final(self).same_pending(old(self)),
    {
        let mut i: usize = 0;
        proof {
            assert(self.exact() =~= promoted_exact(
                old(self).exact(),
                clients@.take(0),
                upstream,
            ));
        }
        while i < clients.len()
            invariant
                self.wf(),
                i <= clients@.len(),
                self.exact() == promoted_exact(old(self).exact(), clients@.take(i as int), upstream),
                self.same_routes(old(self)),
                self.same_hints(old(self)),
                self.same_pending(old(self)),
            decreases clients@.len() - i,
        {
            let ghost done = clients@.take(i as int);
            self.register_udp_mapping(clients[i], upstream);
            proof {
                let next = clients@.take(i + 1);
                assert(next =~= done.push(clients@[i as int]));
                assert forall|c: SocketAddress| next.contains(c) <==> (done.contains(c) || c
                    == clients@[i as int]) by {
                    if next.contains(c) {
                        let k = choose|k: int| 0 <= k < next.len() && next[k] == c;
                        if k < done.len() {
                            assert(done[k] == c);
                        }
                    }
                    if done.contains(c) {
                        let k = choose|k: int| 0 <= k < done.len() && done[k] == c;
                        assert(next[k] == c);
                    }
                    if c == clients@[i as int] {
                        assert(next[i as int] == c);
                    }
                }
                assert(self.exact() =~= promoted_exact(old(self).exact(), next, upstream));
            }
            i = i + 1;
        }
        proof {
            assert(clients@.take(i as int) =~= clients@);
        }
    }

    /// Notes that the clients of `client_ip` talk to `upstream_ip`.
    pub fn register_udp_ip_mapping(&mut self, client_ip: IpAddress, upstream_ip: IpAddress)
        requires
            old(self).wf(),
        ensures
            final(self).wf(),
            final(self).ip_hints() == old(self).ip_hints().insert(client_ip, upstream_ip),
            final(self).same_routes(old(self)),
            final(self).same_exact(old(self)),
            final(self).same_pending(old(self)),
    {
        let ghost rows = self.client_upstream_ip_map@;
        match self.find_hint(client_ip) {
            Some(i) => {
                proof {
                    lemma_table_row(rows, i as int);
                    lemma_table_update(rows, i as int, upstream_ip);
                }
                self.client_upstream_ip_map.set(i, (client_ip, upstream_ip));
            },
            None => {
                proof {
                    lemma_table_push(rows, client_ip, upstream_ip);
                }
                self.client_upstream_ip_map.push((client_ip, upstream_ip));
            },
        }
    }

    /// The upstream IP noted for `client_ip`, if there is one.
    pub fn lookup_udp_ip_for_client(&self, client_ip: &IpAddress) -> (r: Option<IpAddress>)
        requires
            self.wf(),
        ensures
            r == if self.ip_hints().contains_key(*client_ip) {
                Some(self.ip_hints()[*client_ip])
            } else {
                None
            },
    {
        match self.find_hint(*client_ip) {
            Some(i) => {
                proof {
                    lemma_table_row(self.client_upstream_ip_map@, i as int);
                }
                Some(self.client_upstream_ip_map[i].1)
            },
            None => None,
        }
    }

    /// Lets `client` wait for the first reply of `upstream_ip`, unless it
    /// waits for it already; says whether it was let in.
    pub fn pending_add(&mut self, upstream_ip: IpAddress, client: SocketAddress) -> (added: bool)
        requires
            old(self).wf(),
        ensures
            final(self).wf(),
            added == !waiting_for(old(self).pending(), upstream_ip).contains(client),
            added ==> final(self).pending() == old(self).pending().insert(
                upstream_ip,
                waiting_for(old(self).pending(), upstream_ip).push(client),
            ),
            !added ==> final(self).pending() == old(self).pending(),
            final(self).same_routes(old(self)),
            final(self).same_exact(old(self)),
            final(self).same_hints(old(self)),
    {
        let ghost rows = self.pending_rows();
        match self.find_pending(upstream_ip) {
            Some(i) => {
                proof {
                    lemma_table_row(rows, i as int);
                }
                match position_of(&self.pending_clients[i].clients, client) {
                    Some(_) => false,
                    None => {
                        let mut row = self.pending_clients.remove(i);
                        let ghost before = row.clients@;
                        row.clients.push(client);
                        proof {
                            lemma_table_update(rows, i as int, before.push(client));
                            assert(before.push(client).no_duplicates()) by {
                                assert forall|a: int, b: int|
                                    0 <= a < before.len() + 1 && 0 <= b < before.len() + 1 && a
                                        != b implies before.push(client)[a] != before.push(
                                    client,
                                )[b] by {
                                    if a < before.len() && b < before.len() {
                                    } else if a < before.len() {
                                        assert(before.contains(before[a]));
                                    } else {
                                        assert(before.contains(before[b]));
                                    }
                                }
                            }
                        }
                        self.pending_clients.insert(i, row);
                        proof {
                            let after = rows.update(i as int, (upstream_ip, before.push(client)));
                            assert(self.pending_rows() =~= after);
                        }
                        true
                    },
                }
            },
            None => {
                let mut clients: Vec<SocketAddress> = Vec::new();
                clients.push(client);
                proof {
                    lemma_table_push(rows, upstream_ip, clients@);
                    assert(clients@ =~= Seq::<SocketAddress>::empty().push(client));
                }
                self.pending_clients.push(PendingClients { upstream_ip, clients });
                proof {
                    assert(self.pending_rows() =~= rows.push((upstream_ip, clients@)));
                }
                true
            },
        }
    }

    /// Stops the wait of every client of `upstream_ip` and returns them in the
    /// order in which they came.
    pub fn pending_take(&mut self, upstream_ip: IpAddress) -> (clients: Vec<SocketAddress>)
        requires
            old(self).wf(),
        ensures
            final(self).wf(),
            clients@ == waiting_for(old(self).pending(), upstream_ip),
            final(self).pending() == old(self).pending().remove(upstream_ip),
            final(self).same_routes(old(self)),
            final(self).same_exact(old(self)),
            final(self).same_hints(old(self)),
    {
        let ghost rows = self.pending_rows();
        match self.find_pending(upstream_ip) {
            Some(i) => {
                proof {
                    lemma_table_row(rows, i as int);
                    lemma_table_remove(rows, i as int);
                }
                let row = self.pending_clients.remove(i);
                proof {
                    assert(self.pending_rows() =~= rows.remove(i as int));
                }
                row.clients
            },
            None => {
                proof {
                    assert(self.pending() =~= self.pending().remove(upstream_ip));
                }
                Vec::new()
            },
        }
    }

    /// Stops the wait of `client` for `upstream_ip`, if it still waits.
    pub fn pending_expire(&mut self, upstream_ip: IpAddress, client: SocketAddress)
        requires
            old(self).wf(),
        ensures
            final(self).wf(),
            final(self).pending() == pending_without(old(self).pending(), upstream_ip, client),
            !waiting_for(final(self).pending(), upstream_ip).contains(client),
            final(self).same_routes(old(self)),
            final(self).same_exact(old(self)),
            final(self).same_hints(old(self)),
    {
        let ghost rows = self.pending_rows();
        match self.find_pending(upstream_ip) {
            Some(i) => {
                proof {
                    lemma_table_row(rows, i as int);
                }
                match position_of(&self.pending_clients[i].clients, client) {
                    Some(j) => {
                        let mut row = self.pending_clients.remove(i);
                        let ghost before = row.clients@;
                        proof {
                            lemma_remove_value_at(before, j as int);
                        }
                        row.clients.remove(j);
                        if row.clients.len() == 0 {
                            proof {
                                lemma_table_remove(rows, i as int);
                                assert(self.pending_rows() =~= rows.remove(i as int));
                            }
                        } else {
                            proof {
                                lemma_table_update(rows, i as int, before.remove(j as int));
                            }
                            self.pending_clients.insert(i, row);
                            proof {
                                let after = rows.update(
                                    i as int,
                                    (upstream_ip, before.remove(j as int)),
                                );
                                assert(self.pending_rows() =~= after);
                            }
                        }
                    },
                    None => {
                        proof {
                            lemma_remove_value_absent(rows[i as int].1, client);
                            assert(self.pending() =~= self.pending().insert(
                                upstream_ip,
                                rows[i as int].1,
                            ));
                        }
                    },
                }
            },
            None => {},
        }
    }
}

} // verus!
