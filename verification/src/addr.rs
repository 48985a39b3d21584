use vstd::prelude::*;

verus! {

/// An IP address as a number: the four octets of an IPv4 address or the
/// sixteen of an IPv6 address, first octet highest.
#[derive(Clone, Copy, Debug, PartialEq, Eq, Hash, Structural)]
pub enum IpAddress {
    V4(u32),
    V6(u128),
}

impl IpAddress {
    /// The all-zero address of either family.
    pub open spec fn unspecified(self) -> bool {
        match self {
            IpAddress::V4(bits) => bits == 0,
            IpAddress::V6(bits) => bits == 0,
        }
    }

    /// An address of 224.0.0.0/4 or of ff00::/8.
    pub open spec fn multicast(self) -> bool {
        match self {
            IpAddress::V4(bits) => 0xe000_0000 <= bits <= 0xefff_ffff,
            IpAddress::V6(bits) => bits >= 0xff00_0000_0000_0000_0000_0000_0000_0000,
        }
    }

    /// The IPv4 address 255.255.255.255.
    pub open spec fn broadcast(self) -> bool {
        self == IpAddress::V4(0xffff_ffff)
    }

    /// An address that a route of the configuration may point to.
    pub open spec fn routable(self) -> bool {
        !self.unspecified() && !self.multicast() && !self.broadcast()
    }

    /// Whether this is the all-zero address.
    pub fn is_unspecified(&self) -> (b: bool)
        ensures
            b == self.unspecified(),
    {
        match *self {
            IpAddress::V4(bits) => bits == 0,
            IpAddress::V6(bits) => bits == 0,
        }
    }

    /// Whether this is a multicast address.
    pub fn is_multicast(&self) -> (b: bool)
        ensures
            b == self.multicast(),
    {
        match *self {
            IpAddress::V4(bits) => 0xe000_0000 <= bits && bits <= 0xefff_ffff,
            IpAddress::V6(bits) => bits >= 0xff00_0000_0000_0000_0000_0000_0000_0000,
        }
    }

    /// Whether this is the IPv4 broadcast address.
    pub fn is_broadcast(&self) -> (b: bool)
        ensures
            b == self.broadcast(),
    {
        match *self {
            IpAddress::V4(bits) => bits == 0xffff_ffff,
            IpAddress::V6(_) => false,
        }
    }
}

/// A socket address: an IP address and a port, and for IPv6 the flow
/// information and the scope as well.
#[derive(Clone, Copy, Debug, PartialEq, Eq, Hash, Structural)]
#[allow(inconsistent_fields)]
pub enum SocketAddress {
    V4 { ip: u32, port: u16 },
    V6 { ip: u128, port: u16, flowinfo: u32, scope_id: u32 },
}

impl SocketAddress {
    /// The address of `ip` and `port`, with no flow information and no scope.
    pub open spec fn of(ip: IpAddress, port: u16) -> SocketAddress {
        match ip {
            IpAddress::V4(bits) => SocketAddress::V4 { ip: bits, port },
            IpAddress::V6(bits) => SocketAddress::V6 { ip: bits, port, flowinfo: 0, scope_id: 0 },
        }
    }

    /// The IP address of the socket address.
    pub open spec fn ip_of(self) -> IpAddress {
        match self {
            SocketAddress::V4 { ip, .. } => IpAddress::V4(ip),
            SocketAddress::V6 { ip, .. } => IpAddress::V6(ip),
        }
    }

    /// The port of the socket address.
    pub open spec fn port_of(self) -> u16 {
        match self {
            SocketAddress::V4 { port, .. } => port,
            SocketAddress::V6 { port, .. } => port,
        }
    }

    /// Where an address stands in the order of all addresses: IPv4 before
    /// IPv6, then by IP, port, flow information and scope.
    pub open spec fn rank(self) -> (int, int, int, int, int) {
        match self {
            SocketAddress::V4 { ip, port } => (0, ip as int, port as int, 0, 0),
            SocketAddress::V6 { ip, port, flowinfo, scope_id } => (
                1,
                ip as int,
                port as int,
                flowinfo as int,
                scope_id as int,
            ),
        }
    }

    /// `self` stands strictly before `other`.
    pub open spec fn precedes(self, other: SocketAddress) -> bool {
        let a = self.rank();
        let b = other.rank();
        a.0 < b.0 || (a.0 == b.0 && (a.1 < b.1 || (a.1 == b.1 && (a.2 < b.2 || (a.2 == b.2 && (a.3
            < b.3 || (a.3 == b.3 && a.4 < b.4)))))))
    }

    /// The address of `ip` and `port`, with no flow information and no scope.
    pub fn new(ip: IpAddress, port: u16) -> (a: SocketAddress)
        ensures
            a == SocketAddress::of(ip, port),
            a.ip_of() == ip,
            a.port_of() == port,
    {
        match ip {
            IpAddress::V4(bits) => SocketAddress::V4 { ip: bits, port },
            IpAddress::V6(bits) => SocketAddress::V6 { ip: bits, port, flowinfo: 0, scope_id: 0 },
        }
    }

    /// The IP address.
    pub fn ip(&self) -> (ip: IpAddress)
        ensures
            ip == self.ip_of(),
    {
        match *self {
            SocketAddress::V4 { ip, .. } => IpAddress::V4(ip),
            SocketAddress::V6 { ip, .. } => IpAddress::V6(ip),
        }
    }

    /// The port.
    pub fn port(&self) -> (port: u16)
        ensures
            port == self.port_of(),
    {
        match *self {
            SocketAddress::V4 { port, .. } => port,
            SocketAddress::V6 { port, .. } => port,
        }
    }

    /// Whether `self` stands strictly before `other` in the order of addresses.
    pub fn is_before(&self, other: &SocketAddress) -> (b: bool)
        ensures
            b == self.precedes(*other),
    {
        match (*self, *other) {
            (SocketAddress::V4 { ip: a, port: p }, SocketAddress::V4 { ip: b, port: q }) => a < b
                || (a == b && p < q),
            (SocketAddress::V4 { .. }, SocketAddress::V6 { .. }) => true,
            (SocketAddress::V6 { .. }, SocketAddress::V4 { .. }) => false,
            (
                SocketAddress::V6 { ip: a, port: p, flowinfo: f, scope_id: s },
                SocketAddress::V6 { ip: b, port: q, flowinfo: g, scope_id: t },
            ) => a < b || (a == b && (p < q || (p == q && (f < g || (f == g && s < t))))),
        }
    }
}

/// Each address of `s` stands strictly before the next.
pub open spec fn strictly_ascending(s: Seq<SocketAddress>) -> bool {
    forall|i: int, j: int| 0 <= i < j < s.len() ==> #[trigger] s[i].precedes(#[trigger] s[j])
}

/// Of two different addresses one stands before the other.
pub proof fn lemma_order_total(a: SocketAddress, b: SocketAddress)
    ensures
        a == b || a.precedes(b) || b.precedes(a),
        !(a.precedes(b) && b.precedes(a)),
        !a.precedes(a),
{
}

/// What stands before an address stands before all that follow it.
pub proof fn lemma_order_transitive(a: SocketAddress, b: SocketAddress, c: SocketAddress)
    requires
        a.precedes(b),
        b.precedes(c),
    ensures
        a.precedes(c),
{
}

/// The addresses of `v` in ascending order, each once.
pub fn sorted_distinct(v: &Vec<SocketAddress>) -> (r: Vec<SocketAddress>)
    ensures
        strictly_ascending(r@),
        forall|a: SocketAddress| r@.contains(a) <==> v@.contains(a),
{
    let mut r: Vec<SocketAddress> = Vec::new();
    let mut i: usize = 0;
    while i < v.len()
        invariant
            i <= v@.len(),
            strictly_ascending(r@),
            forall|a: SocketAddress| r@.contains(a) <==> v@.take(i as int).contains(a),
        decreases v@.len() - i,
    {
        let x: SocketAddress = v[i];
        let mut p: usize = 0;
        while p < r.len() && r[p].is_before(&x)
            invariant
                p <= r@.len(),
                forall|k: int| 0 <= k < p ==> (#[trigger] r@[k]).precedes(x),
            decreases r@.len() - p,
        {
            p = p + 1;
        }
        let ghost before = r@;
        let ghost seen = v@.take(i as int);
        proof {
            assert(v@.take(i + 1) =~= seen.push(x));
        }
        if p < r.len() && r[p] == x {
            proof {
                assert(before.contains(x));
                assert forall|a: SocketAddress| before.contains(a) <==> seen.push(x).contains(
                    a,
                ) by {
                    if seen.push(x).contains(a) {
                        let k = choose|k: int| 0 <= k < seen.push(x).len() && seen.push(x)[k] == a;
                        if k < seen.len() {
                            assert(seen[k] == a);
                        }
                    }
                    if before.contains(a) {
                        let k = choose|k: int| 0 <= k < seen.len() && seen[k] == a;
                        assert(seen.push(x)[k] == a);
                    }
                }
            }
        } else {
            r.insert(p, x);
            proof {
                let after = r@;
                assert forall|m: int, n: int| 0 <= m < n < after.len() implies (
                #[trigger] after[m]).precedes(#[trigger] after[n]) by {
                    if n < p {
                        assert(after[m] == before[m] && after[n] == before[n]);
                    } else if n == p {
                        assert(after[m] == before[m]);
                    } else if m < p {
                        assert(after[m] == before[m] && after[n] == before[n - 1]);
                        if (p as int) < n - 1 {
                            assert(before[p as int].precedes(before[n - 1]));
                        }
                        lemma_order_total(before[p as int], x);
                        if before[p as int] != before[n - 1] {
                            lemma_order_transitive(x, before[p as int], before[n - 1]);
                        }
                        lemma_order_transitive(before[m], x, before[n - 1]);
                    } else if m == p {
                        assert(after[n] == before[n - 1]);
                        lemma_order_total(before[p as int], x);
                        if (p as int) < n - 1 {
                            assert(before[p as int].precedes(before[n - 1]));
                            lemma_order_transitive(x, before[p as int], before[n - 1]);
                        }
                    } else {
                        assert(after[m] == before[m - 1] && after[n] == before[n - 1]);
                    }
                }
                assert forall|a: SocketAddress| after.contains(a) <==> seen.push(x).contains(
                    a,
                ) by {
                    if after.contains(a) {
                        let k = choose|k: int| 0 <= k < after.len() && after[k] == a;
                        if k < p {
                            assert(before[k] == a);
                        } else if k > p {
                            assert(before[k - 1] == a);
                        }
                        if a != x {
                            assert(before.contains(a));
                            let j = choose|j: int| 0 <= j < seen.len() && seen[j] == a;
                            assert(seen.push(x)[j] == a);
                        } else {
                            assert(seen.push(x)[seen.len() as int] == a);
                        }
                    }
                    if seen.push(x).contains(a) {
                        let k = choose|k: int| 0 <= k < seen.push(x).len() && seen.push(x)[k] == a;
                        if k < seen.len() {
                            assert(seen[k] == a);
                            assert(before.contains(a));
                            let j = choose|j: int| 0 <= j < before.len() && before[j] == a;
                            if j < p {
                                assert(after[j] == a);
                            } else {
                                assert(after[j + 1] == a);
                            }
                        } else {
                            assert(after[p as int] == a);
                        }
                    }
                }
            }
        }
        i = i + 1;
    }
    proof {
        assert(v@.take(i as int) =~= v@);
    }
    r
}

/// Two ascending sequences with the same addresses are the same sequence.
pub proof fn lemma_ascending_unique(s: Seq<SocketAddress>, t: Seq<SocketAddress>)
    requires
        strictly_ascending(s),
        strictly_ascending(t),
        forall|a: SocketAddress| s.contains(a) <==> t.contains(a),
    ensures
        s == t,
    decreases s.len(),
{
    if s.len() == 0 {
        if t.len() > 0 {
            assert(t.contains(t[0]));
        }
        assert(s =~= t);
    } else if t.len() == 0 {
        assert(s.contains(s[0]));
    } else {
        // The least address of either sequence is its first.
        assert(s.contains(s[0]));
        assert(t.contains(t[0]));
        let i = choose|i: int| 0 <= i < t.len() && t[i] == s[0];
        let j = choose|j: int| 0 <= j < s.len() && s[j] == t[0];
        if i > 0 {
            assert(t[0].precedes(t[i]));
            if j > 0 {
                assert(s[0].precedes(s[j]));
            }
        }
        assert(s[0] == t[0]);
        let s1 = s.drop_first();
        let t1 = t.drop_first();
        assert forall|a: SocketAddress| s1.contains(a) <==> t1.contains(a) by {
            if s1.contains(a) {
                let k = choose|k: int| 0 <= k < s1.len() && s1[k] == a;
                assert(s[k + 1] == a);
                assert(s[0].precedes(s[k + 1]));
                assert(s.contains(a));
                let m = choose|m: int| 0 <= m < t.len() && t[m] == a;
                assert(m > 0);
                assert(t1[m - 1] == a);
            }
            if t1.contains(a) {
                let k = choose|k: int| 0 <= k < t1.len() && t1[k] == a;
                assert(t[k + 1] == a);
                assert(t[0].precedes(t[k + 1]));
                assert(t.contains(a));
                let m = choose|m: int| 0 <= m < s.len() && s[m] == a;
                assert(m > 0);
                assert(s1[m - 1] == a);
            }
        }
        assert forall|m: int, n: int| 0 <= m < n < s1.len() implies (#[trigger] s1[m]).precedes(
            #[trigger] s1[n],
        ) by {
            assert(s[m + 1].precedes(s[n + 1]));
        }
        assert forall|m: int, n: int| 0 <= m < n < t1.len() implies (#[trigger] t1[m]).precedes(
            #[trigger] t1[n],
        ) by {
            assert(t[m + 1].precedes(t[n + 1]));
        }
        lemma_ascending_unique(s1, t1);
        assert(s =~= seq![s[0]] + s1);
        assert(t =~= seq![t[0]] + t1);
    }
}

} // verus!
