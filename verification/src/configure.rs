use crate::addr::{IpAddress, SocketAddress};
use crate::assoc::{
    distinct_keys, has_key, lemma_remove_value_at, lemma_table_push, lemma_table_put,
    lemma_table_row, row_of, table_keys, table_map, table_put,
};
use crate::proto::router::{NamedRoute, Route, Router};
use crate::text::str_eq;
use regex::Regex;
use vstd::prelude::*;

verus! {

/// The pattern of a route name: Latin letters and digits, at least one.
pub const ROUTE_NAME_PATTERN: &'static str = "^[A-Za-z0-9]+$";

/// A Latin letter or a digit.
pub open spec fn is_alnum(c: char) -> bool {
    ('A' <= c && c <= 'Z') || ('a' <= c && c <= 'z') || ('0' <= c && c <= '9')
}

/// A name that a route may have: at least one character, all of them Latin
/// letters or digits.
pub open spec fn route_name_ok(name: Seq<char>) -> bool {
    name.len() > 0 && forall|i: int| 0 <= i < name.len() ==> is_alnum(#[trigger] name[i])
}

/// `Regex::new` and `Regex::is_match` for the pattern of route names: the
/// pattern compiles, and it matches a text if and only if the text, from its
/// first character to its last, is made of one or more Latin letters and
/// digits.
#[verifier::external_body]
fn pattern_matches(pattern: &str, text: &str) -> (matches: bool)
    requires
        pattern@ == ROUTE_NAME_PATTERN@,
    ensures
        matches == route_name_ok(text@),
{
    match Regex::new(pattern) {
        Ok(re) => re.is_match(text),
        Err(_) => false,
    }
}

/// Whether `name` may be the name of a route.
pub fn valid_route_name(name: &str) -> (ok: bool)
    ensures
        ok == route_name_ok(name@),
{
    pattern_matches(ROUTE_NAME_PATTERN, name)
}

/// The host address of a configuration entry, where it may be routed to.
/// `parsed` is the host key read as an IP address, if it is one: an
/// unspecified, a multicast and the IPv4 broadcast address are turned down.
pub fn valid_ip(parsed: Option<IpAddress>) -> (ip: Option<IpAddress>)
    ensures
        ip == match parsed {
            Some(a) if a.routable() => Some(a),
            _ => None::<IpAddress>,
        },
{
    match parsed {
        Some(a) => {
            if a.is_unspecified() {
                return None;
            }
            if a.is_multicast() {
                return None;
            }
            if a.is_broadcast() {
                return None;
            }
            Some(a)
        },
        None => None,
    }
}

/// One route of a configuration as it was read.
pub struct RouteCandidate {
    /// The host key under which the route stands, read as an IP address;
    /// nothing where it is none.
    pub host: Option<IpAddress>,
    /// The route name.
    pub name: String,
    /// The TCP port of the upstream.
    pub tcp_port: u16,
    /// The UDP port of the upstream.
    pub udp_port: u16,
    /// Whether the TCP endpoint of the upstream answered when it was probed.
    pub reachable: bool,
}

/// A configuration as it was read: the ports to listen on and the routes
/// in the order in which they stand.
pub struct Config {
    pub tcp_port: u16,
    pub udp_port: Option<u16>,
    pub candidates: Vec<RouteCandidate>,
}

impl RouteCandidate {
    /// The TCP endpoint that the candidate leads to, on a host that may be
    /// routed to.
    pub open spec fn tcp_of(&self) -> Option<SocketAddress> {
        match self.host {
            Some(ip) if ip.routable() => Some(SocketAddress::of(ip, self.tcp_port)),
            _ => None,
        }
    }

    /// The UDP endpoint that the candidate leads to, on a host that may be
    /// routed to.
    pub open spec fn udp_of(&self) -> Option<SocketAddress> {
        match self.host {
            Some(ip) if ip.routable() => Some(SocketAddress::of(ip, self.udp_port)),
            _ => None,
        }
    }

    /// The candidate becomes a route when `taken` are the endpoints of the
    /// routes before it: its host may be routed to, its name is a route name,
    /// neither of its endpoints is taken, and its upstream answered.
    pub open spec fn installs(&self, taken: Seq<SocketAddress>) -> bool {
        &&& self.tcp_of() matches Some(tcp)
        &&& self.udp_of() matches Some(udp)
        &&& route_name_ok(self.name@)
        &&& !taken.contains(tcp)
        &&& !taken.contains(udp)
        &&& self.reachable
    }
}

/// The endpoints of the routes that the candidates `c` install.
pub open spec fn taken_after(c: Seq<RouteCandidate>) -> Seq<SocketAddress>
    decreases c.len(),
{
    if c.len() == 0 {
        Seq::empty()
    } else {
        let before = taken_after(c.drop_last());
        if c.last().installs(before) {
            before.push(c.last().tcp_of()->Some_0).push(c.last().udp_of()->Some_0)
        } else {
            before
        }
    }
}

/// The route table that the candidates `c` ask for: each installed route
/// under its name, a later one in place of an earlier one of the same name.
pub open spec fn desired_after(c: Seq<RouteCandidate>) -> Seq<(Seq<char>, Route)>
    decreases c.len(),
{
    if c.len() == 0 {
        Seq::empty()
    } else {
        let rows = desired_after(c.drop_last());
        if c.last().installs(taken_after(c.drop_last())) {
            table_put(
                rows,
                c.last().name@,
                (Route { tcp: c.last().tcp_of()->Some_0, udp: c.last().udp_of()->Some_0 }),
            )
        } else {
            rows
        }
    }
}

/// Whether the candidate at `i` becomes a route.
pub open spec fn installed(c: Seq<RouteCandidate>, i: int) -> bool {
    c[i].installs(taken_after(c.take(i)))
}

/// An endpoint of `a` is an endpoint of `b`.
pub open spec fn shares_destination(a: &RouteCandidate, b: &RouteCandidate) -> bool {
    &&& a.tcp_of() is Some
    &&& b.tcp_of() is Some
    &&& (a.tcp_of() == b.tcp_of() || a.udp_of() == b.udp_of() || a.tcp_of() == b.udp_of()
        || a.udp_of() == b.tcp_of())
}

proof fn lemma_taken_grows(c: Seq<RouteCandidate>, i: int, j: int)
    requires
        0 <= i <= j <= c.len(),
    ensures
        forall|a: SocketAddress|
            taken_after(c.take(i)).contains(a) ==> taken_after(c.take(j)).contains(a),
    decreases j - i,
{
    if i < j {
        lemma_taken_grows(c, i, j - 1);
        let shorter = taken_after(c.take(j - 1));
        let longer = taken_after(c.take(j));
        assert(c.take(j).drop_last() =~= c.take(j - 1));
        assert forall|a: SocketAddress| shorter.contains(a) implies longer.contains(a) by {
            let k = choose|k: int| 0 <= k < shorter.len() && shorter[k] == a;
            if c.take(j).last().installs(shorter) {
                assert(longer[k] == a);
            }
        }
    }
}

/// Of two routes of one configuration that lead to the same endpoint only
/// the first is installed: where the candidate at `i` becomes a route, a later
/// candidate that shares an endpoint with it does not.
pub proof fn lemma_duplicate_destination(c: Seq<RouteCandidate>, i: int, j: int)
    requires
        0 <= i < j < c.len(),
        installed(c, i),
        shares_destination(&c[i], &c[j]),
    ensures
        !installed(c, j),
{
    let first = taken_after(c.take(i));
    let next = taken_after(c.take(i + 1));
    assert(c.take(i + 1).drop_last() =~= c.take(i));
    assert(c.take(i + 1).last() == c[i]);
    let tcp = c[i].tcp_of()->Some_0;
    let udp = c[i].udp_of()->Some_0;
    assert(next == first.push(tcp).push(udp));
    assert(next[first.len() as int] == tcp);
    assert(next[first.len() + 1 as int] == udp);
    assert(next.contains(tcp));
    assert(next.contains(udp));
    lemma_taken_grows(c, i + 1, j);
}

proof fn lemma_desired_distinct(c: Seq<RouteCandidate>)
    ensures
        distinct_keys(desired_after(c)),
    decreases c.len(),
{
    if c.len() > 0 {
        lemma_desired_distinct(c.drop_last());
        if c.last().installs(taken_after(c.drop_last())) {
            lemma_table_put(
                desired_after(c.drop_last()),
                c.last().name@,
                (Route { tcp: c.last().tcp_of()->Some_0, udp: c.last().udp_of()->Some_0 }),
            );
        }
    }
}

/// A route as a valid configuration has it: under a route name, and with
/// both endpoints on one host that may be routed to.
pub open spec fn sound_row(row: (Seq<char>, Route)) -> bool {
    &&& route_name_ok(row.0)
    &&& row.1.tcp.ip_of() == row.1.udp.ip_of()
    &&& row.1.tcp.ip_of().routable()
}

/// Every route that a configuration asks for is sound, and no name stands
/// twice among them.
pub proof fn lemma_desired_sound(c: Seq<RouteCandidate>)
    ensures
        distinct_keys(desired_after(c)),
        forall|i: int| 0 <= i < desired_after(c).len() ==> sound_row(#[trigger] desired_after(c)[i]),
    decreases c.len(),
{
    lemma_desired_distinct(c);
    if c.len() > 0 {
        lemma_desired_sound(c.drop_last());
        lemma_desired_distinct(c.drop_last());
        let rows = desired_after(c.drop_last());
        if c.last().installs(taken_after(c.drop_last())) {
            let name = c.last().name@;
            if has_key(rows, name) {
                let at = row_of(rows, name);
                assert forall|i: int| 0 <= i < desired_after(c).len() implies sound_row(
                    #[trigger] desired_after(c)[i],
                ) by {
                    if i != at {
                        assert(desired_after(c)[i] == rows[i]);
                    }
                }
            } else {
                assert forall|i: int| 0 <= i < desired_after(c).len() implies sound_row(
                    #[trigger] desired_after(c)[i],
                ) by {
                    if i < rows.len() {
                        assert(desired_after(c)[i] == rows[i]);
                    }
                }
            }
        }
    }
}

/// The rows of a route table, each as its name and its route.
pub open spec fn rows_of(table: Seq<NamedRoute>) -> Seq<(Seq<char>, Route)> {
    table.map_values(|row: NamedRoute| (row.name@, row.route))
}

fn holds(list: &Vec<SocketAddress>, x: SocketAddress) -> (found: bool)
    ensures
        found == list@.contains(x),
{
    let mut i: usize = 0;
    while i < list.len()
        invariant
            i <= list@.len(),
            forall|j: int| 0 <= j < i ==> list@[j] != x,
        decreases list@.len() - i,
    {
        if list[i] == x {
            return true;
        }
        i = i + 1;
    }
    false
}

fn row_named(table: &Vec<NamedRoute>, name: &str) -> (r: Option<usize>)
    ensures
        match r {
            Some(i) => i < table@.len() && rows_of(table@)[i as int].0 == name@,
            None => !has_key(rows_of(table@), name@),
        },
{
    let mut i: usize = 0;
    while i < table.len()
        invariant
            i <= table@.len(),
            forall|j: int| 0 <= j < i ==> (#[trigger] rows_of(table@)[j]).0 != name@,
        decreases table@.len() - i,
    {
        if str_eq(table[i].name.as_str(), name) {
            return Some(i);
        }
        i = i + 1;
    }
    None
}

/// Goes through the candidates in their order and keeps those that become
/// routes.
pub fn select_routes(candidates: &Vec<RouteCandidate>) -> (table: Vec<NamedRoute>)
    ensures
        rows_of(table@) == desired_after(candidates@),
        distinct_keys(rows_of(table@)),
{
    let mut taken: Vec<SocketAddress> = Vec::new();
    let mut table: Vec<NamedRoute> = Vec::new();
    let mut i: usize = 0;
    proof {
        assert(candidates@.take(0) =~= Seq::<RouteCandidate>::empty());
        assert(rows_of(table@) =~= Seq::<(Seq<char>, Route)>::empty());
    }
    while i < candidates.len()
        invariant
            i <= candidates@.len(),
            taken@ == taken_after(candidates@.take(i as int)),
            rows_of(table@) == desired_after(candidates@.take(i as int)),
        decreases candidates@.len() - i,
    {
        let candidate: &RouteCandidate = &candidates[i];
        let ghost rows = rows_of(table@);
        proof {
            assert(candidates@.take(i + 1).drop_last() =~= candidates@.take(i as int));
            assert(candidates@.take(i + 1).last() == candidates@[i as int]);
            lemma_desired_distinct(candidates@.take(i as int));
        }
        if let Some(ip) = valid_ip(candidate.host) {
            if valid_route_name(candidate.name.as_str()) {
                let tcp = SocketAddress::new(ip, candidate.tcp_port);
                let udp = SocketAddress::new(ip, candidate.udp_port);
                if !holds(&taken, tcp) && !holds(&taken, udp) && candidate.reachable {
                    taken.push(tcp);
                    taken.push(udp);
                    let route = Route { tcp, udp };
                    match row_named(&table, candidate.name.as_str()) {
                        Some(at) => {
                            proof {
                                lemma_table_row(rows, at as int);
                            }
                            table.set(at, NamedRoute { name: candidate.name.clone(), route });
                            proof {
                                assert(rows_of(table@) =~= rows.update(
                                    at as int,
                                    (candidate.name@, route),
                                ));
                            }
                        },
                        None => {
                            table.push(NamedRoute { name: candidate.name.clone(), route });
                            proof {
                                assert(rows_of(table@) =~= rows.push((candidate.name@, route)));
                            }
                        },
                    }
                }
            }
        }
        i = i + 1;
    }
    proof {
        assert(candidates@.take(i as int) =~= candidates@);
        lemma_desired_distinct(candidates@);
    }
    table
}

/// Holds of the names that have a route in `routes`.
pub open spec fn named_in(routes: Map<Seq<char>, Route>) -> spec_fn(Seq<char>) -> bool {
    |name: Seq<char>| routes.contains_key(name)
}

/// Holds of the names that have no route in `routes`.
pub open spec fn missing_from(routes: Map<Seq<char>, Route>) -> spec_fn(Seq<char>) -> bool {
    |name: Seq<char>| !routes.contains_key(name)
}

/// Brings the route table of `router` to what the configuration asks for
/// and returns the TCP port to listen on. Routes that the configuration no
/// longer has are taken out; those that it has are put in, a changed one in
/// the place of the old one and a new one behind all others.
pub fn load_and_sync(router: &mut Router, config: &Config) -> (tcp_port: u16)
    requires
        old(router).wf(),
    ensures
        final(router).wf(),
        tcp_port == config.tcp_port,
        final(router).routes() == table_map(desired_after(config.candidates@)),
        final(router).route_names() == old(router).route_names().filter(
            named_in(table_map(desired_after(config.candidates@))),
        ) + table_keys(desired_after(config.candidates@)).filter(
            missing_from(old(router).routes()),
        ),
        final(router).same_exact(old(router)),
        final(router).same_hints(old(router)),
        final(router).same_pending(old(router)),
{
    let desired = select_routes(&config.candidates);
    let ghost rows = rows_of(desired@);
    let ghost want = table_map(rows);
    let ghost keep = named_in(want);
    let ghost fresh = missing_from(old(router).routes());
    let current = router.snapshot();
    let ghost names = router.route_names();
    proof {
        router.lemma_tables();
        assert forall|name: Seq<char>| #[trigger] router.routes().contains_key(name) implies (
        exists|k: int| 0 <= k < names.len() && #[trigger] names[k] == name) by {
            assert(names.contains(name));
        }
        assert(names.take(0) =~= Seq::<Seq<char>>::empty());
        assert(names.take(0).filter(keep) + names.skip(0) =~= names);
    }
    let mut i: usize = 0;
    while i < current.len()
        invariant
            router.wf(),
            i <= current@.len(),
            current@.len() == names.len(),
            names == old(router).route_names(),
            forall|k: int| 0 <= k < names.len() ==> (#[trigger] current@[k]).0@ == names[k],
            rows == rows_of(desired@),
            want == table_map(rows),
            keep == named_in(want),
            router.route_names() == names.take(i as int).filter(keep) + names.skip(i as int),
            forall|name: Seq<char>| #[trigger]
                router.routes().contains_key(name) ==> old(router).routes().contains_key(name) && (
                want.contains_key(name) || exists|k: int|
                    i <= k < names.len() && #[trigger] names[k] == name),
            forall|name: Seq<char>|
                old(router).routes().contains_key(name) && want.contains_key(name)
                    ==> #[trigger] router.routes().contains_key(name),
            router.same_exact(old(router)),
            router.same_hints(old(router)),
            router.same_pending(old(router)),
        decreases current@.len() - i,
    {
        let ghost before = router.routes();
        let ghost order = router.route_names();
        let ghost done = names.take(i as int).filter(keep);
        let name: &str = current[i].0.as_str();
        proof {
            router.lemma_tables();
            assert(names.take(i + 1) =~= names.take(i as int).push(names[i as int]));
            names.take(i as int).lemma_filter_push(names[i as int], keep);
            assert(order[done.len() as int] == names[i as int]);
        }
        if row_named(&desired, name).is_none() {
            router.remove_route(name);
            proof {
                lemma_remove_value_at(order, done.len() as int);
                assert(order.remove(done.len() as int) =~= done + names.skip(i + 1));
            }
        } else {
            proof {
                assert(done.push(names[i as int]) + names.skip(i + 1) =~= order);
            }
        }
        proof {
            assert forall|n: Seq<char>| #[trigger] router.routes().contains_key(n) implies (
            want.contains_key(n) || exists|k: int|
                i + 1 <= k < names.len() && #[trigger] names[k] == n) by {
                assert(before.contains_key(n));
                if !want.contains_key(n) {
                    let k = choose|k: int| i <= k < names.len() && #[trigger] names[k] == n;
                    if k == i {
                        assert(n == name@);
                    }
                }
            }
        }
        i = i + 1;
    }
    let ghost kept = router.routes();
    let ghost base = router.route_names();
    proof {
        assert(names.take(i as int) =~= names);
        assert(base =~= names.filter(keep));
        assert(rows.take(0) =~= Seq::<(Seq<char>, Route)>::empty());
        assert(router.routes() =~= kept.union_prefer_right(table_map(rows.take(0))));
        assert(table_keys(rows.take(0)) =~= Seq::<Seq<char>>::empty());
        assert(base + table_keys(rows.take(0)).filter(fresh) =~= base);
    }
    let mut j: usize = 0;
    while j < desired.len()
        invariant
            router.wf(),
            j <= desired@.len(),
            rows == rows_of(desired@),
            want == table_map(rows),
            distinct_keys(rows),
            fresh == missing_from(old(router).routes()),
            forall|name: Seq<char>| #[trigger]
                kept.contains_key(name) <==> old(router).routes().contains_key(name)
                    && want.contains_key(name),
            router.routes() == kept.union_prefer_right(table_map(rows.take(j as int))),
            router.route_names() == base + table_keys(rows.take(j as int)).filter(fresh),
            router.same_exact(old(router)),
            router.same_hints(old(router)),
            router.same_pending(old(router)),
        decreases desired@.len() - j,
    {
        let row: &NamedRoute = &desired[j];
        let ghost done = rows.take(j as int);
        proof {
            assert forall|a: int, b: int| 0 <= a < b < done.len() implies (#[trigger] done[a]).0
                != (#[trigger] done[b]).0 by {
                assert(rows[a].0 != rows[b].0);
            }
            assert forall|a: int| 0 <= a < done.len() implies (#[trigger] done[a]).0 != rows[j as int].0 by {
                assert(rows[a].0 != rows[j as int].0);
            }
            lemma_table_push(done, rows[j as int].0, rows[j as int].1);
            lemma_table_row(rows, j as int);
            assert(rows.take(j + 1) =~= done.push(rows[j as int]));
            table_keys(done).lemma_filter_push(rows[j as int].0, fresh);
        }
        router.add_route(row.name.clone(), row.route.tcp, row.route.udp);
        proof {
            assert(router.routes() =~= kept.union_prefer_right(table_map(rows.take(j + 1))));
            assert(router.route_names() =~= base + table_keys(rows.take(j + 1)).filter(fresh));
        }
        j = j + 1;
    }
    proof {
        assert(rows.take(j as int) =~= rows);
        assert(router.routes() =~= want);
    }
    config.tcp_port
}

} // verus!
