use crate::addr::{sorted_distinct, strictly_ascending, IpAddress, SocketAddress};
use crate::consts::PENDING_TTL_SECS;
use crate::proto::router::{pending_without, promoted_exact, waiting_for, Router};
use vstd::prelude::*;

verus! {

/// The rule under which a datagram is forwarded; the first that fits is taken.
#[derive(Clone, Copy, Debug, PartialEq, Eq, Structural)]
pub enum Rule {
    /// The sender is a client with an exact mapping.
    ExactClient,
    /// The sender is the upstream of clients with an exact mapping.
    ReplyToClients,
    /// Clients wait for the first reply of the sender's IP.
    PromotePending,
    /// An IP hint names the upstream IP of the sender's IP.
    HintFanOut,
    /// Nothing is known of the sender: the datagram is dropped.
    Unmatched,
}

/// Why a datagram could not be sent.
#[derive(Clone, Copy, Debug, PartialEq, Eq, Structural)]
pub enum SendFailure {
    ConnectionReset,
    Other,
}

/// What is to be done with one datagram.
pub struct Dispatch {
    /// The rule that fitted.
    pub rule: Rule,
    /// Where the datagram goes, in this order.
    pub targets: Vec<SocketAddress>,
    /// The port from which the datagram is to leave where a socket can be
    /// bound to it; where there is none, or none can be bound, it leaves from
    /// the relay's own socket.
    pub source_port: Option<u16>,
    /// The clients that stopped waiting and are now mapped to the sender.
    pub promoted: Vec<SocketAddress>,
    /// The upstream IP for which the sender started to wait, where it did: a
    /// timer of the pending time-to-live is due for it.
    pub newly_pending: Option<IpAddress>,
}

/// The rule that fits a datagram from `src` in the state `router`.
pub open spec fn rule_for(router: &Router, src: SocketAddress) -> Rule {
    if router.exact().contains_key(src) {
        Rule::ExactClient
    } else if exists|c: SocketAddress| router.serves(c, src) {
        Rule::ReplyToClients
    } else if router.pending().contains_key(src.ip_of()) {
        Rule::PromotePending
    } else if router.ip_hints().contains_key(src.ip_of()) {
        Rule::HintFanOut
    } else {
        Rule::Unmatched
    }
}

/// `after` and `d` are what handling a datagram from `src` makes of `before`.
pub open spec fn handled(before: &Router, src: SocketAddress, after: &Router, d: &Dispatch) -> bool {
    let waiting = waiting_for(before.pending(), src.ip_of());
    &&& d.rule == rule_for(before, src)
    &&& after.same_routes(before)
    &&& after.same_hints(before)
    &&& match d.rule {
        Rule::ExactClient => {
            &&& d.targets@ == seq![before.exact()[src]]
            &&& d.source_port is None
            &&& d.promoted@ == Seq::<SocketAddress>::empty()
            &&& d.newly_pending is None
            &&& after.exact() == before.exact()
            &&& after.pending() == before.pending()
        },
        Rule::ReplyToClients => {
            &&& strictly_ascending(d.targets@)
            &&& forall|c: SocketAddress| d.targets@.contains(c) <==> before.serves(c, src)
            &&& d.source_port is None
            &&& d.promoted@ == waiting
            &&& d.newly_pending is None
            &&& after.exact() == promoted_exact(before.exact(), waiting, src)
            &&& after.pending() == before.pending().remove(src.ip_of())
        },
        Rule::PromotePending => {
            &&& d.targets@ == waiting
            &&& d.source_port is None
            &&& d.promoted@ == waiting
            &&& d.newly_pending is None
            &&& after.exact() == promoted_exact(before.exact(), waiting, src)
            &&& after.pending() == before.pending().remove(src.ip_of())
        },
        Rule::HintFanOut => {
            let upstream_ip = before.ip_hints()[src.ip_of()];
            let queue = waiting_for(before.pending(), upstream_ip);
            &&& d.targets@ == before.udp_endpoints_at(upstream_ip)
            &&& d.source_port == Some(src.port_of())
            &&& d.promoted@ == Seq::<SocketAddress>::empty()
            &&& after.exact() == before.exact()
            &&& if queue.contains(src) {
                d.newly_pending is None && after.pending() == before.pending()
            } else {
                d.newly_pending == Some(upstream_ip) && after.pending() == before.pending().insert(
                    upstream_ip,
                    queue.push(src),
                )
            }
        },
        Rule::Unmatched => {
            &&& d.targets@ == Seq::<SocketAddress>::empty()
            &&& d.source_port is None
            &&& d.promoted@ == Seq::<SocketAddress>::empty()
            &&& d.newly_pending is None
            &&& after.exact() == before.exact()
            &&& after.pending() == before.pending()
        },
    }
}

/// The client whose exact mapping goes when a datagram from `src`, sent to
/// `target` under `d`, meets a reset connection: the sender itself where it
/// is a client, else the target, unless the target was mapped only now and
/// the datagram went to it as an older client of the sender.
pub open spec fn implicated(d: &Dispatch, src: SocketAddress, target: SocketAddress) -> Option<
    SocketAddress,
> {
    match d.rule {
        Rule::ExactClient => Some(src),
        Rule::ReplyToClients => if d.promoted@.contains(target) {
            None
        } else {
            Some(target)
        },
        Rule::PromotePending => Some(target),
        Rule::HintFanOut => None,
        Rule::Unmatched => None,
    }
}

/// A client that waits for the reply of an upstream IP is mapped when a
/// datagram arrives from that IP: if `c` waits for the IP of `src`, and `src`
/// is not itself a client with an exact mapping, then once the datagram is
/// handled `c` is mapped to `src` and waits no longer.
pub proof fn lemma_pending_promotion(
    before: &Router,
    src: SocketAddress,
    after: &Router,
    d: &Dispatch,
    c: SocketAddress,
)
    requires
        before.wf(),
        handled(before, src, after, d),
        waiting_for(before.pending(), src.ip_of()).contains(c),
        !before.exact().contains_key(src),
    ensures
        after.exact().contains_key(c),
        after.exact()[c] == src,
        !waiting_for(after.pending(), src.ip_of()).contains(c),
        d.promoted@.contains(c),
{
    assert(before.pending().contains_key(src.ip_of()));
}

/// While a client has an exact mapping, what it sends goes to its upstream
/// and nowhere else, and no mapping changes.
pub proof fn lemma_exact_client_forwarded(
    before: &Router,
    src: SocketAddress,
    after: &Router,
    d: &Dispatch,
)
    requires
        before.wf(),
        handled(before, src, after, d),
        before.exact().contains_key(src),
    ensures
        d.rule == Rule::ExactClient,
        d.targets@ == seq![before.exact()[src]],
        after.exact() == before.exact(),
{
}

/// What an upstream sends reaches every client that is mapped to it: if `c`
/// is mapped to `src`, and `src` is not itself a client with an exact
/// mapping, the datagram goes to `c`.
pub proof fn lemma_reply_reaches_clients(
    before: &Router,
    src: SocketAddress,
    after: &Router,
    d: &Dispatch,
    c: SocketAddress,
)
    requires
        before.wf(),
        handled(before, src, after, d),
        before.serves(c, src),
        !before.exact().contains_key(src),
    ensures
        d.rule == Rule::ReplyToClients,
        d.targets@.contains(c),
{
}

fn copy_of(v: &Vec<SocketAddress>) -> (r: Vec<SocketAddress>)
    ensures
        r@ == v@,
{
    let mut r: Vec<SocketAddress> = Vec::new();
    let mut i: usize = 0;
    while i < v.len()
        invariant
            i <= v@.len(),
            r@ == v@.take(i as int),
        decreases v@.len() - i,
    {
        r.push(v[i]);
        proof {
            assert(v@.take(i + 1) =~= v@.take(i as int).push(v@[i as int]));
        }
        i = i + 1;
    }
    proof {
        assert(v@.take(i as int) =~= v@);
    }
    r
}

/// The decisions of the UDP relay. It owns no socket: whoever runs it hands
/// it each event and carries out what it answers.
#[derive(Clone, Copy, Debug)]
pub struct UdpProxy {
    pending_ttl_secs: u64,
}

impl UdpProxy {
    /// Seconds for which a client waits at most.
    pub closed spec fn ttl_secs(&self) -> u64 {
        self.pending_ttl_secs
    }

    /// A relay with the pending time-to-live of `PENDING_TTL_SECS`.
    pub fn new() -> (p: UdpProxy)
        ensures
            p.ttl_secs() == PENDING_TTL_SECS,
    {
        UdpProxy { pending_ttl_secs: PENDING_TTL_SECS }
    }

    /// Seconds after which a client that still waits is dropped from the
    /// pending set.
    pub fn pending_ttl_secs(&self) -> (secs: u64)
        ensures
            secs == self.ttl_secs(),
    {
        self.pending_ttl_secs
    }

    /// Decides what happens to a datagram that arrived from `src`, and brings
    /// the mappings and the pending set up to date.
    pub fn on_datagram(&self, router: &mut Router, src: SocketAddress) -> (d: Dispatch)
        requires
            old(router).wf(),
        ensures
            final(router).wf(),
            handled(old(router), src, final(router), &d),
    {
        proof {
            router.lemma_tables();
        }
        if let Some(upstream) = router.lookup_udp_for_client(&src) {
            let mut targets: Vec<SocketAddress> = Vec::new();
            targets.push(upstream);
            proof {
                assert(targets@ =~= seq![upstream]);
            }
            return Dispatch {
                rule: Rule::ExactClient,
                targets,
                source_port: None,
                promoted: Vec::new(),
                newly_pending: None,
            };
        }
        let clients = router.clients_for_upstream(&src);
        if clients.len() > 0 {
            proof {
                assert(clients@.contains(clients@[0]));
                assert(router.serves(clients@[0], src));
            }
            let targets = sorted_distinct(&clients);
            let promoted = router.pending_take(src.ip());
            router.register_all(&promoted, src);
            return Dispatch {
                rule: Rule::ReplyToClients,
                targets,
                source_port: None,
                promoted,
                newly_pending: None,
            };
        }
        proof {
            assert forall|c: SocketAddress| !router.serves(c, src) by {
                if router.serves(c, src) {
                    assert(clients@.contains(c));
                }
            }
        }
        let waiting = router.pending_take(src.ip());
        if waiting.len() > 0 {
            router.register_all(&waiting, src);
            let targets = copy_of(&waiting);
            return Dispatch {
                rule: Rule::PromotePending,
                targets,
                source_port: None,
                promoted: waiting,
                newly_pending: None,
            };
        }
        proof {
            assert(router.pending() =~= old(router).pending());
        }
        if let Some(upstream_ip) = router.lookup_udp_ip_for_client(&src.ip()) {
            let targets = router.upstream_addrs_for_ip(&upstream_ip);
            let added = router.pending_add(upstream_ip, src);
            return Dispatch {
                rule: Rule::HintFanOut,
                targets,
                source_port: Some(src.port()),
                promoted: Vec::new(),
                newly_pending: if added {
                    Some(upstream_ip)
                } else {
                    None
                },
            };
        }
        Dispatch {
            rule: Rule::Unmatched,
            targets: Vec::new(),
            source_port: None,
            promoted: Vec::new(),
            newly_pending: None,
        }
    }

    /// Takes note that the datagram from `src` could not be sent to `target`:
    /// a reset connection ends the exact mapping that the send went by.
    pub fn on_send_failed(
        &self,
        router: &mut Router,
        src: SocketAddress,
        d: &Dispatch,
        target: SocketAddress,
        failure: SendFailure,
    )
        requires
            old(router).wf(),
        ensures
            final(router).wf(),
            final(router).exact() == match implicated(d, src, target) {
                Some(client) if failure == SendFailure::ConnectionReset => old(
                    router,
                ).exact().remove(client),
                _ => old(router).exact(),
            },
            failure == SendFailure::ConnectionReset ==> match implicated(d, src, target) {
                Some(client) => !final(router).exact().contains_key(client),
                None => true,
            },
            final(router).same_routes(old(router)),
            final(router).same_hints(old(router)),
            final(router).same_pending(old(router)),
    {
        match failure {
            SendFailure::Other => {},
            SendFailure::ConnectionReset => {
                match d.rule {
                    Rule::ExactClient => {
                        router.unregister_udp_mapping(&src);
                    },
                    Rule::ReplyToClients => {
                        if !listed(&d.promoted, target) {
                            router.unregister_udp_mapping(&target);
                        }
                    },
                    Rule::PromotePending => {
                        router.unregister_udp_mapping(&target);
                    },
                    Rule::HintFanOut => {},
                    Rule::Unmatched => {},
                }
            },
        }
    }

    /// Ends the wait of `client` for `upstream_ip` when its time is up.
    pub fn on_ttl_expired(&self, router: &mut Router, upstream_ip: IpAddress, client: SocketAddress)
        requires
            old(router).wf(),
        ensures
            final(router).wf(),
            !waiting_for(final(router).pending(), upstream_ip).contains(client),
            final(router).pending() == pending_without(
                old(router).pending(),
                upstream_ip,
                client,
            ),
            final(router).same_routes(old(router)),
            final(router).same_exact(old(router)),
            final(router).same_hints(old(router)),
    {
        router.pending_expire(upstream_ip, client);
    }
}

fn listed(list: &Vec<SocketAddress>, x: SocketAddress) -> (found: bool)
    ensures
        found == list@.contains(x),
{
    let mut i: usize = 0;
    while i < list.len()
        invariant
            i <= list@.len(),
            forall|j: int| 0 <= j < i ==> list@[j] != x,
        decreases list@.len() - i,
    {
        if list[i] == x {
            return true;
        }
        i = i + 1;
    }
    false
}

} // verus!
