//! What becomes of datagrams on their way out of a host and into one, and of the
//! timers, the notes and the addresses of hosts.

use vstd::prelude::*;
use crate::addr::{IpAddr, SocketAddr};
use crate::overlay::env::{BindError, OverlayEnv, SocketId};
use crate::overlay::service::{CoreEvent, OverlayCore};
use crate::overlay::sim::links::{lemma_queue_gains, leaves_as};
use crate::overlay::sim::nat_box::{Flow, NatConfig, NatView};
use crate::overlay::sim::scenario::ScenarioKit;
use crate::overlay::sim::trace::{TraceEvent, TraceView};
use crate::overlay::sim::world::{
    bound, box_ip, core_notes, host_ip, inbound_notes, into_chain, outgoing, through_chain,
    transport_notes, CallView, EventView, HostId, HostView, KindView, Machine, Node, NoteView, OptionsView,
    Outgoing, ProbeView, QueuedView, SendView, Sim, SimEnv, WorldView,
};
use crate::overlay::transport::{OverlayTransport, QueueError, TransportEvent};
use crate::digest::hash_of;
use crate::time::bumped;

verus! {

/// The addresses that a datagram to `to` goes out with, from box to box: each box
/// maps the one that it leaves the box before it with.
pub open spec fn goes_out_by(
    chain: Seq<NatView>,
    now: u64,
    to: SocketAddr,
    path: Seq<SocketAddr>,
) -> bool {
    &&& path.len() == chain.len() + 1
    &&& forall|l: int|
        0 <= l < chain.len() ==> ((#[trigger] chain[l]).sent_out(now, path[l], to).0 matches Ok(
            pass,
        ) && pass.external == path[l + 1])
}

/// The addresses that a datagram from `src` comes in to, from box to box, the
/// innermost first: each box that has the address lets it in to the one inside,
/// and a box that does not is passed by.
pub open spec fn comes_in_by(
    chain: Seq<NatView>,
    now: u64,
    src: SocketAddr,
    path: Seq<SocketAddr>,
) -> bool {
    &&& path.len() == chain.len() + 1
    &&& forall|l: int|
        0 <= l < chain.len() ==> (if path[l + 1].ip == (#[trigger] chain[l]).external_ip {
            chain[l].let_in(now, src, path[l + 1]).0 == Ok::<
                SocketAddr,
                crate::overlay::sim::nat_box::NatDropReason,
            >(path[l])
        } else {
            path[l] == path[l + 1]
        })
}

/// The boxes from `level` on are as they were.
pub open spec fn same_from(a: Seq<NatView>, b: Seq<NatView>, level: int) -> bool {
    a.len() == b.len() && forall|l: int| level <= l < a.len() ==> #[trigger] a[l] == b[l]
}

pub open spec fn same_to(a: Seq<NatView>, b: Seq<NatView>, level: int) -> bool {
    a.len() == b.len() && forall|l: int| 0 <= l < level ==> #[trigger] a[l] == b[l]
}

proof fn lemma_out(
    first: Seq<NatView>,
    chain: Seq<NatView>,
    level: nat,
    now: u64,
    src: SocketAddr,
    to: SocketAddr,
    host: u32,
    trace: TraceView,
) -> (path: Seq<SocketAddr>)
    requires
        level <= chain.len(),
        same_from(first, chain, level as int),
    ensures
        path.len() > 0,
        path[0] == src,
        ({
            let r = through_chain(chain, level, now, src, to, host, trace);
            r.0 is Some ==> {
                &&& goes_out_by(first.skip(level as int), now, to, path)
                &&& r.0 == Some(path.last())
                &&& r.1.len() == chain.len()
                &&& same_to(chain, r.1, level as int)
                &&& forall|l: int|
                    level <= l < chain.len() ==> #[trigger] r.1[l] == first[l].sent_out(
                        now,
                        path[l - level],
                        to,
                    ).1
            }
        }),
    decreases chain.len() - level,
{
    if level >= chain.len() {
        seq![src]
    } else {
        let (r, after) = chain[level as int].sent_out(now, src, to);
        let rest = chain.update(level as int, after);
        match r {
            Ok(pass) => {
                let t = if pass.created {
                    trace.recorded(
                        now,
                        TraceEvent::NatMapped {
                            host,
                            level: (level % 256) as u8,
                            internal: src,
                            external: pass.external,
                        },
                    )
                } else {
                    trace
                };
                let sub = lemma_out(first, rest, level + 1, now, pass.external, to, host, t);
                let path = seq![src] + sub;
                let whole = through_chain(chain, level, now, src, to, host, trace);
                assert(whole == through_chain(
                    rest,
                    level + 1,
                    now,
                    pass.external,
                    to,
                    host,
                    t,
                ));
                if whole.0 is Some {
                    let f = first.skip(level as int);
                    assert forall|l: int| 0 <= l < f.len() implies ((#[trigger] f[l]).sent_out(
                        now,
                        path[l],
                        to,
                    ).0 matches Ok(p) && p.external == path[l + 1]) by {
                        assert(f[l] == first[level + l]);
                        if l == 0 {
                            assert(first[level as int] == chain[level as int]);
                            assert(path[1] == sub[0]);
                        } else {
                            let g = first.skip(level as int + 1);
                            assert(g[l - 1] == first[level + l]);
                            assert(path[l] == sub[l - 1] && path[l + 1] == sub[l]);
                        }
                    }
                    assert forall|l: int| level <= l < chain.len() implies #[trigger] whole.1[l]
                        == first[l].sent_out(now, path[l - level], to).1 by {
                        if l == level {
                            assert(first[l] == chain[l]);
                            assert(rest[l] == whole.1[l]);
                        } else {
                            assert(path[l - level] == sub[l - level - 1]);
                        }
                    }
                    assert forall|l: int| 0 <= l < level implies #[trigger] chain[l]
                        == whole.1[l] by {
                        assert(rest[l] == whole.1[l]);
                    }
                }
                path
            },
            Err(_) => seq![src],
        }
    }
}

proof fn lemma_out_back(
    first: Seq<NatView>,
    chain: Seq<NatView>,
    level: nat,
    now: u64,
    to: SocketAddr,
    host: u32,
    trace: TraceView,
    path: Seq<SocketAddr>,
)
    requires
        level <= chain.len(),
        same_from(first, chain, level as int),
        goes_out_by(first, now, to, path),
    ensures
        through_chain(chain, level, now, path[level as int], to, host, trace).0 == Some(
            path.last(),
        ),
    decreases chain.len() - level,
{
    if level < chain.len() {
        let src = path[level as int];
        let (r, after) = chain[level as int].sent_out(now, src, to);
        let rest = chain.update(level as int, after);
        assert(first[level as int] == chain[level as int]);
        let pass = r->Ok_0;
        let t = if pass.created {
            trace.recorded(
                now,
                TraceEvent::NatMapped {
                    host,
                    level: (level % 256) as u8,
                    internal: src,
                    external: pass.external,
                },
            )
        } else {
            trace
        };
        lemma_out_back(first, rest, level + 1, now, to, host, t, path);
    }
}

/// A datagram leaves its host with the address that the boxes map it to, one after
/// the other from the innermost on; and each box is then what its mapping made of
/// it. If one keeps it back, it does not leave.
pub proof fn law_boxes_map_one_by_one(
    w: WorldView,
    sender: u32,
    from: SocketAddr,
    to: SocketAddr,
    path: Seq<SocketAddr>,
)
    requires
        sender < w.hosts.len(),
        path[0] == from,
    ensures
        goes_out_by(w.hosts[sender as int].chain, w.now, to, path) ==> leaves_as(
            w,
            sender,
            from,
            to,
        ) == Some(path.last()),
        leaves_as(w, sender, from, to) is Some ==> exists|p: Seq<SocketAddr>|
            p[0] == from && #[trigger] goes_out_by(w.hosts[sender as int].chain, w.now, to, p),
{
    let chain = w.hosts[sender as int].chain;
    if goes_out_by(chain, w.now, to, path) {
        lemma_out_back(chain, chain, 0, w.now, to, sender, w.trace, path);
    }
    let p = lemma_out(chain, chain, 0, w.now, from, to, sender, w.trace);
    assert(chain.skip(0) =~= chain);
    if leaves_as(w, sender, from, to) is Some {
        assert(p[0] == from && goes_out_by(chain, w.now, to, p));
    }
}

/// What a datagram opens on its way out: in each box what its mapping opens, and
/// in the firewall the flow from the socket to where it goes, from now on. No
/// other host is touched.
pub proof fn law_outbound_opens_the_way_back(
    w: WorldView,
    sender: u32,
    from: SocketAddr,
    to: SocketAddr,
    payload: Seq<u8>,
    path: Seq<SocketAddr>,
    other: int,
)
    requires
        sender < w.hosts.len(),
        path[0] == from,
        goes_out_by(w.hosts[sender as int].chain, w.now, to, path),
        0 <= other < w.hosts.len(),
        other != sender,
    ensures
        ({
            let host = w.hosts[sender as int];
            let after = w.routed(sender, from, to, payload).hosts[sender as int];
            &&& after.chain.len() == host.chain.len()
            &&& forall|l: int|
                0 <= l < host.chain.len() ==> #[trigger] after.chain[l] == host.chain[l].sent_out(
                    w.now,
                    path[l],
                    to,
                ).1
            &&& host.firewall matches Some(f) ==> after.firewall matches Some(g) && g.flows
                == f.flows.insert(Flow { local: from, remote: to }, w.now) && g.pinholes
                == f.pinholes && g.stats == f.stats && g.config == f.config
            &&& host.firewall is None ==> after.firewall is None
            &&& after.kind == host.kind
            &&& after.sockets == host.sockets
            &&& after.up == host.up
            &&& w.routed(sender, from, to, payload).hosts[other] == w.hosts[other]
        }),
{
    let chain = w.hosts[sender as int].chain;
    let host = w.hosts[sender as int];
    let p = lemma_out(chain, chain, 0, w.now, from, to, sender, w.trace);
    lemma_out_back(chain, chain, 0, w.now, to, sender, w.trace, path);
    assert(chain.skip(0) =~= chain);
    lemma_one_path(chain, w.now, to, path, p, chain.len());
    let r = through_chain(chain, 0, w.now, from, to, sender, w.trace);
    assert(w.routed(sender, from, to, payload).hosts[sender as int].chain == r.1);
}

proof fn lemma_one_path(
    chain: Seq<NatView>,
    now: u64,
    to: SocketAddr,
    a: Seq<SocketAddr>,
    b: Seq<SocketAddr>,
    n: nat,
)
    requires
        goes_out_by(chain, now, to, a),
        goes_out_by(chain, now, to, b),
        a[0] == b[0],
        n <= chain.len(),
    ensures
        forall|l: int| 0 <= l <= n ==> #[trigger] a[l] == b[l],
    decreases n,
{
    if n > 0 {
        lemma_one_path(chain, now, to, a, b, (n - 1) as nat);
        assert(a[n - 1] == b[n - 1]);
        assert(chain[n - 1].sent_out(now, a[n - 1], to).0 is Ok);
        assert(chain[n - 1].sent_out(now, b[n - 1], to).0 is Ok);
    }
}

proof fn lemma_in(
    first: Seq<NatView>,
    chain: Seq<NatView>,
    level: nat,
    now: u64,
    src: SocketAddr,
    dst: SocketAddr,
    host: u32,
    trace: TraceView,
) -> (path: Seq<SocketAddr>)
    requires
        level <= chain.len(),
        same_to(first, chain, level as int),
    ensures
        path.len() > 0,
        path.last() == dst,
        ({
            let r = into_chain(chain, level, now, src, dst, host, trace);
            r.0 is Some ==> {
                &&& comes_in_by(first.take(level as int), now, src, path)
                &&& r.0 == Some(path[0])
                &&& r.2 == trace
            }
        }),
    decreases level,
{
    if level == 0 {
        seq![dst]
    } else {
        let at = (level - 1) as nat;
        let whole = into_chain(chain, level, now, src, dst, host, trace);
        assert(first[at as int] == chain[at as int]);
        let f = first.take(level as int);
        let g = first.take(at as int);
        if dst.ip != chain[at as int].external_ip {
            let sub = lemma_in(first, chain, at, now, src, dst, host, trace);
            let path = sub.push(dst);
            if whole.0 is Some {
                assert forall|l: int| 0 <= l < f.len() implies (if path[l + 1].ip == (
                #[trigger] f[l]).external_ip {
                    f[l].let_in(now, src, path[l + 1]).0 == Ok::<
                        SocketAddr,
                        crate::overlay::sim::nat_box::NatDropReason,
                    >(path[l])
                } else {
                    path[l] == path[l + 1]
                }) by {
                    if l < at {
                        assert(g[l] == f[l]);
                        assert(path[l] == sub[l] && path[l + 1] == sub[l + 1]);
                    } else {
                        assert(path[l] == sub.last());
                    }
                }
            }
            path
        } else {
            let (r, after) = chain[at as int].let_in(now, src, dst);
            let rest = chain.update(at as int, after);
            match r {
                Ok(internal) => {
                    let sub = lemma_in(first, rest, at, now, src, internal, host, trace);
                    let path = sub.push(dst);
                    if whole.0 is Some {
                        assert forall|l: int| 0 <= l < f.len() implies (if path[l + 1].ip == (
                        #[trigger] f[l]).external_ip {
                            f[l].let_in(now, src, path[l + 1]).0 == Ok::<
                                SocketAddr,
                                crate::overlay::sim::nat_box::NatDropReason,
                            >(path[l])
                        } else {
                            path[l] == path[l + 1]
                        }) by {
                            if l < at {
                                assert(g[l] == f[l]);
                                assert(path[l] == sub[l] && path[l + 1] == sub[l + 1]);
                            } else {
                                assert(path[l] == sub.last());
                            }
                        }
                    }
                    path
                },
                Err(_) => seq![dst],
            }
        }
    }
}

proof fn lemma_in_back(
    first: Seq<NatView>,
    chain: Seq<NatView>,
    level: nat,
    now: u64,
    src: SocketAddr,
    host: u32,
    trace: TraceView,
    path: Seq<SocketAddr>,
)
    requires
        level <= chain.len(),
        same_to(first, chain, level as int),
        comes_in_by(first, now, src, path),
    ensures
        into_chain(chain, level, now, src, path[level as int], host, trace).0 == Some(path[0]),
        into_chain(chain, level, now, src, path[level as int], host, trace).2 == trace,
    decreases level,
{
    if level > 0 {
        let at = (level - 1) as nat;
        let dst = path[level as int];
        assert(first[at as int] == chain[at as int]);
        if dst.ip != chain[at as int].external_ip {
            lemma_in_back(first, chain, at, now, src, host, trace, path);
        } else {
            let (r, after) = chain[at as int].let_in(now, src, dst);
            let rest = chain.update(at as int, after);
            lemma_in_back(first, rest, at, now, src, host, trace, path);
        }
    }
}

/// The firewall of the host, if it has one, lets a datagram in.
pub open spec fn is_let_in(host: HostView, now: u64, src: SocketAddr, dst: SocketAddr) -> bool {
    host.firewall matches Some(f) ==> f.let_in(now, src, dst).0 is Ok
}

/// A datagram reaches the socket that is bound to the address that it comes in to,
/// through all the boxes and the firewall of a host that is up, and is recorded
/// there. What a probe receives is kept, as it came and when, up to 8192 of them.
pub proof fn law_datagrams_reach_their_socket(
    w: WorldView,
    to_host: u32,
    src: SocketAddr,
    dst: SocketAddr,
    payload: Seq<u8>,
    path: Seq<SocketAddr>,
    socket: u32,
)
    requires
        to_host < w.hosts.len(),
        payload.len() <= usize::MAX,
        w.hosts[to_host as int].up,
        path.last() == dst,
        comes_in_by(w.hosts[to_host as int].chain, w.now, src, path),
        is_let_in(w.hosts[to_host as int], w.now, src, path[0]),
        socket < w.hosts[to_host as int].sockets.len(),
        w.hosts[to_host as int].sockets[socket as int] == path[0],
        forall|i: int|
            0 <= i < socket ==> #[trigger] w.hosts[to_host as int].sockets[i] != path[0],
    ensures
        ({
            let (arrival, after) = w.arrived(to_host, src, dst, payload);
            let before = w.hosts[to_host as int].kind;
            let got = ProbeView {
                at_nanos: w.now,
                socket: SocketId(socket),
                src,
                dst: path[0],
                payload,
            };
            &&& arrival == Some((SocketId(socket), path[0]))
            &&& after.trace.records.last() == (
                w.now,
                TraceEvent::Delivered {
                    host: to_host,
                    src,
                    dst: path[0],
                    len: payload.len() as usize,
                },
            )
            &&& after.trace.records.len() == w.trace.records.len() + 1
            &&& after.hosts[to_host as int].kind == (match before {
                KindView::Probe(received) => if received.len() < 8192 {
                    KindView::Probe(received.push(got))
                } else {
                    before
                },
                _ => before,
            })
            &&& after.queue == w.queue
        }),
{
    let host = w.hosts[to_host as int];
    lemma_in_back(host.chain, host.chain, host.chain.len(), w.now, src, to_host, w.trace, path);
    host.sockets.index_of_first_ensures(path[0]);
    let k = host.sockets.index_of_first(path[0])->0;
    assert(host.sockets.contains(path[0]));
    if k < socket {
        assert(host.sockets[k] != path[0]);
    }
    assert(k == socket);
}

/// A datagram that finds no way in is not handed over, and what the host has is as
/// it was: where the host is down, where a box or the firewall keeps it back, and
/// where no socket has the address that it comes in to.
pub proof fn law_no_way_in(
    w: WorldView,
    to_host: u32,
    src: SocketAddr,
    dst: SocketAddr,
    payload: Seq<u8>,
)
    requires
        to_host < w.hosts.len(),
        !w.hosts[to_host as int].up || !(exists|path: Seq<SocketAddr>|
            path.last() == dst && #[trigger] comes_in_by(
                w.hosts[to_host as int].chain,
                w.now,
                src,
                path,
            ) && is_let_in(w.hosts[to_host as int], w.now, src, path[0])
                && w.hosts[to_host as int].sockets.contains(path[0])),
    ensures
        ({
            let (arrival, after) = w.arrived(to_host, src, dst, payload);
            &&& arrival is None
            &&& after.hosts[to_host as int].kind == w.hosts[to_host as int].kind
            &&& after.queue == w.queue
            &&& !w.hosts[to_host as int].up ==> after == w
            &&& w.hosts[to_host as int].up ==> after.trace.records.len() == w.trace.records.len()
                + 1 && (after.trace.records.last().1 is NatDropped
                || after.trace.records.last().1 is NoSocket)
        }),
{
    let host = w.hosts[to_host as int];
    if host.up {
        let path = lemma_in(
            host.chain,
            host.chain,
            host.chain.len(),
            w.now,
            src,
            dst,
            to_host,
            w.trace,
        );
        assert(host.chain.take(host.chain.len() as int) =~= host.chain);
        let r = into_chain(host.chain, host.chain.len(), w.now, src, dst, to_host, w.trace);
        if r.0 is Some {
            assert(comes_in_by(host.chain, w.now, src, path));
        } else {
            lemma_kept_back(host.chain, host.chain.len(), w.now, src, dst, to_host, w.trace);
        }
    }
}

proof fn lemma_kept_back(
    chain: Seq<NatView>,
    level: nat,
    now: u64,
    src: SocketAddr,
    dst: SocketAddr,
    host: u32,
    trace: TraceView,
)
    requires
        into_chain(chain, level, now, src, dst, host, trace).0 is None,
    ensures
        ({
            let t = into_chain(chain, level, now, src, dst, host, trace).2;
            t.records.len() == trace.records.len() + 1 && t.records.last().1 is NatDropped
        }),
    decreases level,
{
    if level > 0 && level <= chain.len() {
        let at = (level - 1) as nat;
        if dst.ip != chain[at as int].external_ip {
            lemma_kept_back(chain, at, now, src, dst, host, trace);
        } else {
            let (r, after) = chain[at as int].let_in(now, src, dst);
            let rest = chain.update(at as int, after);
            if r is Ok {
                lemma_kept_back(rest, at, now, src, r->Ok_0, host, trace);
            }
        }
    }
}

/// A node's timer goes off when it is due, and not within the microsecond that
/// follows now; only the one that was asked for last counts. A node that is down
/// and a probe have none.
pub proof fn law_timers_are_queued(w: WorldView, host: u32, due: u64)
    requires
        host < w.hosts.len(),
        w.seq < u64::MAX,
        w.now + 1000 <= u64::MAX,
    ensures
        ({
            let entry = w.hosts[host as int];
            let after = w.scheduled(host, Some(due));
            let none = w.scheduled(host, None);
            let at = if due > w.now + 1000 {
                due
            } else {
                (w.now + 1000) as u64
            };
            let generation = after.hosts[host as int].timer_generation;
            if !entry.up || entry.kind is Probe {
                after == w && none == w
            } else if entry.next_timer == Some(at) {
                after == w
            } else {
                &&& after.hosts[host as int].next_timer == Some(at)
                &&& entry.timer_generation < u64::MAX ==> generation == entry.timer_generation + 1
                &&& after.queue.len() == w.queue.len() + 1
                &&& after.queue.contains(
                    QueuedView {
                        at,
                        seq: after.seq,
                        event: EventView::Timer { host, generation },
                    },
                )
                &&& after.seq == w.seq + 1
                &&& none.hosts[host as int].next_timer is None
                &&& none.queue == w.queue
            }
        }),
{
    let entry = w.hosts[host as int];
    let at = if due > w.now + 1000 {
        due
    } else {
        (w.now + 1000) as u64
    };
    let generation = bumped(entry.timer_generation);
    lemma_queue_gains(
        w.queue,
        QueuedView { at, seq: (w.seq + 1) as u64, event: EventView::Timer { host, generation } },
    );
}

/// A timer that is no longer the last asked for does nothing, nor does any on a
/// host that is down; one that is fires, and its node is called.
pub proof fn law_only_the_last_timer_fires<
    C: OverlayCore,
    T: OverlayTransport,
>(a: Sim<C, T>, host: u32, generation: u64, after: Sim<C, T>)
    requires
        host < a.world.hosts.len(),
        a.handled(EventView::Timer { host, generation }, after),
    ensures
        ({
            let entry = a.world.hosts[host as int];
            &&& !entry.up ==> after == a
            &&& generation != entry.timer_generation ==> after == a
            &&& entry.up && generation == entry.timer_generation && !(entry.kind is Probe) ==> exists|
                fired: Sim<C, T>,
            |
                fired.world.hosts[host as int].next_timer is None && fired.nodes == a.nodes
                    && fired.world.now == a.world.now && #[trigger] fired.reacted(
                    host,
                    CallView::Timer,
                    after,
                )
        }),
{
    let entry = a.world.hosts[host as int];
    let fired = Sim { world: a.world.fired(host), ..a };
    if entry.up && generation == entry.timer_generation && !(entry.kind is Probe) {
        assert(fired.reacted(host, CallView::Timer, after));
    }
}

/// A host that goes down has no timer any more, and those that are queued for it
/// are no longer its last; one that comes up is as it was. Both are recorded, and
/// no other host is touched.
pub proof fn law_hosts_go_down_and_up(w: WorldView, host: u32, other: int)
    requires
        host < w.hosts.len(),
        0 <= other < w.hosts.len(),
        other != host,
    ensures
        ({
            let entry = w.hosts[host as int];
            let down = w.switched(host, false);
            let up = w.switched(host, true);
            &&& !down.hosts[host as int].up
            &&& down.hosts[host as int].next_timer is None
            &&& entry.timer_generation < u64::MAX ==> down.hosts[host as int].timer_generation
                > entry.timer_generation
            &&& down.hosts[host as int].kind == entry.kind
            &&& down.hosts[host as int].chain == entry.chain
            &&& down.hosts[host as int].sockets == entry.sockets
            &&& up.hosts[host as int] == (HostView { up: true, ..entry })
            &&& down.hosts[other] == w.hosts[other]
            &&& up.hosts[other] == w.hosts[other]
            &&& down.trace.records == w.trace.records.push((w.now, TraceEvent::HostDown { host }))
            &&& up.trace.records == w.trace.records.push((w.now, TraceEvent::HostUp { host }))
            &&& down.queue == w.queue
            &&& up.queue == w.queue
        }),
{
}

/// The payloads of notes on shreds.
pub open spec fn shreds_in(notes: Seq<NoteView>) -> Seq<Seq<u8>>
    decreases notes.len(),
{
    if notes.len() == 0 {
        Seq::empty()
    } else {
        match notes.last() {
            NoteView::Shred(payload) => shreds_in(notes.drop_last()).push(payload),
            _ => shreds_in(notes.drop_last()),
        }
    }
}

/// The payloads of notes on datagrams, and where they came from.
pub open spec fn datagrams_in(notes: Seq<NoteView>) -> Seq<(SocketAddr, Seq<u8>)>
    decreases notes.len(),
{
    if notes.len() == 0 {
        Seq::empty()
    } else {
        match notes.last() {
            NoteView::App { from, payload } => datagrams_in(notes.drop_last()).push(
                (from, payload),
            ),
            _ => datagrams_in(notes.drop_last()),
        }
    }
}

/// Each note leaves a record of what it says.
pub open spec fn is_recorded(
    host: u32,
    now: u64,
    note: NoteView,
    record: (u64, TraceEvent),
) -> bool {
    record.0 == now && match note {
        NoteView::Shred(payload) => record.1 == TraceEvent::ShredDelivered {
            host,
            payload_hash: hash_of(payload),
        },
        NoteView::Connected { peer, pubkey } => record.1 == TraceEvent::PeerConnected {
            host,
            peer,
            pubkey,
        },
        NoteView::Disconnected { peer } => record.1 == TraceEvent::PeerDisconnected { host, peer },
        NoteView::App { from, payload } => record.1 == TraceEvent::AppDatagram {
            host,
            from,
            payload_hash: hash_of(payload),
        },
    }
}

/// What a node reports is recorded, in its order, and the shreds and datagrams
/// that it hands over are kept, up to 65536 of them.
pub proof fn law_notes_are_kept(w: WorldView, host: u32, notes: Seq<NoteView>)
    requires
        host < w.hosts.len(),
    ensures
        ({
            let before = w.hosts[host as int].kind;
            let after = w.noted_all(host, notes);
            let n = w.trace.records.len();
            &&& after.hosts.len() == w.hosts.len()
            &&& after.now == w.now
            &&& after.queue == w.queue
            &&& after.trace.records.len() == n + notes.len()
            &&& forall|i: int|
                0 <= i < n ==> #[trigger] after.trace.records[i] == w.trace.records[i]
            &&& forall|i: int|
                0 <= i < notes.len() ==> is_recorded(
                    host,
                    w.now,
                    #[trigger] notes[i],
                    after.trace.records[n + i],
                )
            &&& match before {
                KindView::Overlay(kept) => after.hosts[host as int].kind == KindView::Overlay(
                    if kept.len() >= 65536 {
                        kept
                    } else if kept.len() + shreds_in(notes).len() <= 65536 {
                        kept + shreds_in(notes)
                    } else {
                        kept + shreds_in(notes).take(65536 - kept.len())
                    },
                ),
                KindView::Transport(kept) => after.hosts[host as int].kind == KindView::Transport(
                    if kept.len() >= 65536 {
                        kept
                    } else if kept.len() + datagrams_in(notes).len() <= 65536 {
                        kept + datagrams_in(notes)
                    } else {
                        kept + datagrams_in(notes).take(65536 - kept.len())
                    },
                ),
                KindView::Probe(_) => after.hosts[host as int].kind == before,
            }
        }),
    decreases notes.len(),
{
    let before = w.hosts[host as int].kind;
    let after = w.noted_all(host, notes);
    let n = w.trace.records.len();
    if notes.len() == 0 {
        match before {
            KindView::Overlay(kept) => {
                assert(kept + shreds_in(notes) =~= kept);
            },
            KindView::Transport(kept) => {
                assert(kept + datagrams_in(notes) =~= kept);
            },
            _ => {},
        }
    } else {
        let rest = notes.drop_last();
        law_notes_are_kept(w, host, rest);
        let mid = w.noted_all(host, rest);
        let note = notes.last();
        assert(after == mid.noted(host, note));
        assert forall|i: int| 0 <= i < notes.len() implies is_recorded(
            host,
            w.now,
            #[trigger] notes[i],
            after.trace.records[n + i],
        ) by {
            if i < rest.len() {
                assert(rest[i] == notes[i]);
                assert(after.trace.records[n + i] == mid.trace.records[n + i]);
            }
        }
        match before {
            KindView::Overlay(kept) => {
                let a = shreds_in(rest);
                let b = shreds_in(notes);
                if kept.len() < 65536 {
                    if note is Shred && kept.len() + a.len() < 65536 {
                        assert(kept + b =~= (kept + a).push(note->Shred_0));
                    } else if kept.len() + a.len() == 65536 {
                        assert(b.take(65536 - kept.len()) =~= a);
                        assert(a.take(65536 - kept.len()) =~= a);
                    } else if kept.len() + a.len() > 65536 {
                        assert(b.take(65536 - kept.len()) =~= a.take(65536 - kept.len()));
                    }
                }
            },
            KindView::Transport(kept) => {
                let a = datagrams_in(rest);
                let b = datagrams_in(notes);
                if kept.len() < 65536 {
                    if note is App && kept.len() + a.len() < 65536 {
                        assert(kept + b =~= (kept + a).push((note->from, note->App_payload)));
                    } else if kept.len() + a.len() == 65536 {
                        assert(b.take(65536 - kept.len()) =~= a);
                        assert(a.take(65536 - kept.len()) =~= a);
                    } else if kept.len() + a.len() > 65536 {
                        assert(b.take(65536 - kept.len()) =~= a.take(65536 - kept.len()));
                    }
                }
            },
            _ => {},
        }
    }
}

/// What a node sends goes out in its order, each datagram from the address of the
/// socket that it was sent from.
pub proof fn law_sends_go_out_in_order(outbox: Seq<Outgoing>, sockets: Seq<SocketAddr>)
    requires
        forall|i: int| 0 <= i < outbox.len() ==> (#[trigger] outbox[i]).socket.0 < sockets.len(),
    ensures
        outgoing(outbox, sockets).len() == outbox.len(),
        forall|i: int|
            0 <= i < outbox.len() ==> #[trigger] outgoing(outbox, sockets)[i] == (SendView {
                from: sockets[outbox[i].socket.0 as int],
                to: outbox[i].to,
                payload: outbox[i].payload@,
            }),
    decreases outbox.len(),
{
    if outbox.len() > 0 {
        let rest = outbox.drop_last();
        assert forall|i: int| 0 <= i < rest.len() implies (#[trigger] rest[i]).socket.0
            < sockets.len() by {
            assert(outbox[i].socket.0 < sockets.len());
        }
        law_sends_go_out_in_order(rest, sockets);
        assert(outbox[outbox.len() - 1].socket.0 < sockets.len());
        assert forall|i: int| 0 <= i < outbox.len() implies #[trigger] outgoing(outbox, sockets)[i]
            == (SendView {
            from: sockets[outbox[i].socket.0 as int],
            to: outbox[i].to,
            payload: outbox[i].payload@,
        }) by {
            if i < rest.len() {
                assert(outgoing(rest, sockets)[i] == outgoing(outbox, sockets)[i]);
                assert(rest[i] == outbox[i]);
            }
        }
    }
}

/// Datagrams are routed one after the other.
pub proof fn law_routed_one_by_one(
    w: WorldView,
    sender: u32,
    first: Seq<SendView>,
    next: SendView,
)
    ensures
        w.routed_all(sender, Seq::empty()) == w,
        w.routed_all(sender, first.push(next)) == w.routed_all(sender, first).routed(
            sender,
            next.from,
            next.to,
            next.payload,
        ),
{
    assert(first.push(next).drop_last() =~= first);
}

/// A socket is bound at the address of its host and the port that was asked for,
/// or one from 49152 on; it is found again under its id, and no two have one
/// address.
pub proof fn law_sockets_are_bound(
    env: SimEnv,
    port: Option<u16>,
    r: Result<SocketId, BindError>,
    after: SimEnv,
)
    requires
        bound(env, port, r, after),
        env.next_ephemeral >= 49152,
    ensures
        after.next_ephemeral >= 49152,
        port is None ==> after.next_ephemeral != env.next_ephemeral,
        port is Some ==> after.next_ephemeral == env.next_ephemeral,
        r is Ok ==> {
            let id = (r->Ok_0).0 as int;
            &&& id == env.sockets@.len()
            &&& after.sockets@.len() == id + 1
            &&& after.sockets@[id].ip == env.lan_ip
            &&& port matches Some(p) ==> after.sockets@[id].port == p
            &&& port is None ==> after.sockets@[id].port >= 49152
            &&& !env.sockets@.contains(after.sockets@[id])
            &&& forall|i: int| 0 <= i < id ==> #[trigger] after.sockets@[i] == env.sockets@[i]
        },
        r is Err ==> after.sockets@ == env.sockets@,
        r matches Err(BindError::AlreadyBound(addr)) ==> env.sockets@.contains(addr),
        port matches Some(p) ==> (r is Ok <==> env.sockets@.len() <= u32::MAX
            && !env.sockets@.contains(SocketAddr { ip: env.lan_ip, port: p })),
{
}

/// Addresses of hosts and boxes do not clash: each host has its own, and each box
/// of a host too; and a host behind boxes is at none that is routed.
pub proof fn law_addresses_are_apart(
    a: int,
    b: int,
    behind: bool,
    ipv6: bool,
    l: int,
    m: int,
)
    requires
        0 <= a < 200,
        0 <= b < 200,
        0 <= l < 256,
        0 <= m < 256,
    ensures
        a != b ==> host_ip(a, behind, ipv6) != host_ip(b, behind, ipv6),
        a != b || l != m ==> box_ip(a, l) != box_ip(b, m),
        host_ip(a, false, ipv6) != box_ip(b, m),
        host_ip(a, true, ipv6) != box_ip(b, m),
        host_ip(a, true, ipv6) != host_ip(b, false, ipv6),
        host_ip(a, false, true) is V6,
        host_ip(a, false, false) is V4,
        host_ip(a, true, ipv6) is V4,
{
}

/// A host that is added is up, has the next id, its boxes and its sockets, and is
/// the one that datagrams to its outermost address go to; the hosts that were
/// there stay as they are.
pub proof fn law_hosts_are_added(
    w: WorldView,
    nats: Seq<NatConfig>,
    options: OptionsView,
    kind: KindView,
    ip: IpAddr,
)
    requires
        w.hosts.len() < 200,
        nats.len() <= 256,
        options.nats == nats,
    ensures
        ({
            let id = w.hosts.len() as int;
            let after = w.with_node(options, kind);
            let host = after.hosts[id];
            let outer = if nats.len() > 0 {
                box_ip(id, nats.len() - 1)
            } else {
                host.lan_ip
            };
            let config = w.config_for(options);
            &&& after.hosts.len() == id + 1
            &&& forall|i: int| 0 <= i < id ==> #[trigger] after.hosts[i] == w.hosts[i]
            &&& host.up
            &&& host.kind == kind
            &&& host.next_timer is None
            &&& host.chain.len() == nats.len()
            &&& nats.len() > 0 ==> host.chain.last().external_ip == outer
            &&& host.sockets == seq![config.bind_addr]
            &&& config.bind_addr.ip == host.lan_ip
            &&& config.bind_addr.port == options.bind_port
            &&& config.repair_addr matches Some(addr) && addr.ip == host.lan_ip && addr.port
                != options.bind_port
            &&& config.shred_version == Some(options.shred_version)
            &&& config.static_peers == options.static_peers
            &&& config.fanout == options.fanout
            &&& config.mode == options.mode
            &&& config.enabled
            &&& after.owners.dom().contains(outer) && after.owners[outer] == id
            &&& ip != outer ==> (after.owners.dom().contains(ip) <==> w.owners.dom().contains(ip))
                && after.owners[ip] == w.owners[ip]
            &&& after.queue == w.queue
            &&& after.links == w.links
        }),
{
}

/// A node that is restarted is up, with nothing delivered to it; its boxes, its
/// sockets and all the other hosts are as they were.
pub proof fn law_restart_forgets(w: WorldView, host: u32, other: int)
    requires
        host < w.hosts.len(),
        0 <= other < w.hosts.len(),
        other != host,
    ensures
        ({
            let after = w.restarted(host);
            let entry = w.hosts[host as int];
            &&& after.hosts[host as int].up
            &&& after.hosts[host as int].kind == KindView::Overlay(Seq::empty())
            &&& after.hosts[host as int].chain == entry.chain
            &&& after.hosts[host as int].firewall == entry.firewall
            &&& after.hosts[host as int].sockets == entry.sockets
            &&& after.hosts[host as int].lan_ip == entry.lan_ip
            &&& after.hosts[other] == w.hosts[other]
            &&& after.queue == w.queue
            &&& after.now == w.now
        }),
{
}

/// A node was called as `ran` says, and what it reports, sends and asks for is
/// carried through.
pub open spec fn carried_through<
    C: OverlayCore,
    T: OverlayTransport,
>(
    a: Sim<C, T>,
    host: u32,
    call: CallView,
    ran: Node<C, T>,
    told: Node<C, T>,
    notes: Seq<NoteView>,
    due: Option<u64>,
    after: Sim<C, T>,
) -> bool {
    let there = WorldView {
        hosts: a.world.hosts.update(
            host as int,
            HostView {
                sockets: ran.env.sockets@,
                next_ephemeral: ran.env.next_ephemeral,
                ..a.world.hosts[host as int]
            },
        ),
        ..a.world
    };
    let quiet = SimEnv { outbox: told.env.outbox, ..ran.env };
    &&& a.nodes[host as int].called(a.world.now, call, ran)
    &&& told.env.outbox@.len() == 0
    &&& (Node { env: quiet, machine: ran.machine }).reported(notes, told)
    &&& told.due(due, after.nodes[host as int])
    &&& after.nodes[host as int].env.outbox@.len() == 0
    &&& after.nodes[host as int].env.sockets@ == ran.env.sockets@
    &&& after.world == there.noted_all(host, notes).routed_all(
        host,
        outgoing(ran.env.outbox@, ran.env.sockets@),
    ).scheduled(host, due)
    &&& forall|i: int|
        0 <= i < a.nodes.len() && i != host ==> #[trigger] after.nodes[i] == a.nodes[i]
}

/// What a node does when it is called is carried through: it is called at the time
/// of the world, what it reports is noted, what it sends is routed from the
/// sockets that it has then, all of it and in its order, and its timer is set anew.
pub proof fn law_reactions_are_carried_through<
    C: OverlayCore,
    T: OverlayTransport,
>(a: Sim<C, T>, host: u32, call: CallView, after: Sim<C, T>)
    requires
        a.reacted(host, call, after),
        host < a.nodes.len(),
        a.nodes.len() == a.world.hosts.len(),
    ensures
        exists|ran: Node<C, T>, told: Node<C, T>, notes: Seq<NoteView>, due: Option<u64>|
            #[trigger]
            carried_through(a, host, call, ran, told, notes, due, after),
{
    let ran = choose|ran: Node<C, T>| #[trigger]
        a.nodes[host as int].called(a.world.now, call, ran) && a.with_ran(host, ran).wound_up(
            host,
            after,
        );
    let s = a.with_ran(host, ran);
    let (quiet, notes, told, deadline) = choose|
        quiet: Node<C, T>,
        notes: Seq<NoteView>,
        told: Node<C, T>,
        deadline: Option<u64>,
    | #[trigger]
        s.wound_up_by(host, quiet, notes, told, deadline, after);
    assert(s.wound_up_by(host, quiet, notes, told, deadline, after));
    assert(s.nodes[host as int] == ran);
    assert(quiet == (Node {
        env: SimEnv { outbox: told.env.outbox, ..ran.env },
        machine: ran.machine,
    }));
    assert(carried_through(a, host, call, ran, told, notes, deadline, after));
}

/// A datagram that reaches a socket of a node is handed to the node, from where it
/// came and as it is.
pub proof fn law_arrivals_are_handed_over<
    C: OverlayCore,
    T: OverlayTransport,
>(
    a: Sim<C, T>,
    to_host: u32,
    src: SocketAddr,
    dst: SocketAddr,
    payload: Seq<u8>,
    after: Sim<C, T>,
)
    requires
        to_host < a.world.hosts.len(),
        a.handled(EventView::Delivery { to_host, src, dst, payload }, after),
    ensures
        ({
            let (arrival, w) = a.world.arrived(to_host, src, dst, payload);
            match arrival {
                Some((socket, _)) if !(a.world.hosts[to_host as int].kind is Probe) => exists|
                    there: Sim<C, T>,
                |
                    there.world == w && there.nodes == a.nodes && #[trigger] there.reacted(
                        to_host,
                        CallView::Datagram { socket, src, payload },
                        after,
                    ),
                _ => after.world == w && after.nodes == a.nodes,
            }
        }),
{
    let (arrival, w) = a.world.arrived(to_host, src, dst, payload);
    let there = Sim { world: w, ..a };
    if arrival is Some && !(a.world.hosts[to_host as int].kind is Probe) {
        assert(there.reacted(
            to_host,
            CallView::Datagram { socket: (arrival->0).0, src, payload },
            after,
        ));
    }
}

/// A run ends at its target, and nothing is left that was due by then.
pub proof fn law_runs_leave_nothing_due<
    C: OverlayCore,
    T: OverlayTransport,
>(a: Sim<C, T>, target: u64, after: Sim<C, T>)
    requires
        a.ran_to(target, after),
    ensures
        after.world.now == target,
        after.world.queue.len() > 0 ==> after.world.queue[0].at > target,
{
}

/// An event is taken off the queue when its time has come: the first, and no other.
pub proof fn law_first_is_next(w: WorldView, i: int)
    requires
        w.queue.len() > 0,
        0 <= i < w.queue.len() - 1,
    ensures
        w.popped().queue.len() == w.queue.len() - 1,
        w.popped().queue[i] == w.queue[i + 1],
        w.popped().now >= w.now,
        w.popped().now >= w.queue[0].at,
        w.popped().now == w.now || w.popped().now == w.queue[0].at,
        w.popped().hosts == w.hosts,
        w.due(w.queue[0].at),
        w.queue[0].at > 0 ==> !w.due((w.queue[0].at - 1) as u64),
{
}

/// A call reaches the node for what it is, at the time of the world: its core, or
/// its bare transport, takes the datagram, the timer, or what it is to send.
pub proof fn law_calls_reach_the_node<C: OverlayCore, T: OverlayTransport>(
    node: Node<C, T>,
    now: u64,
    call: CallView,
    after: Node<C, T>,
)
    requires
        node.called(now, call, after),
    ensures
        ({
            let env = SimEnv { now, ..node.env }.seen();
            let env_after = after.env.seen();
            &&& env.clock == Some(now)
            &&& match (node.machine, after.machine, call) {
                (
                    Machine::Overlay(a),
                    Machine::Overlay(b),
                    CallView::Datagram { socket, src, payload },
                ) => a.takes_datagram(env, socket, src, payload, &b, env_after),
                (Machine::Overlay(a), Machine::Overlay(b), CallView::Timer) => a.takes_timer(
                    env,
                    &b,
                    env_after,
                ),
                (
                    Machine::Overlay(a),
                    Machine::Overlay(b),
                    CallView::SourcePacket { payload },
                ) => a.takes_source_packet(env, payload, &b, env_after),
                (
                    Machine::Transport(a),
                    Machine::Transport(b),
                    CallView::Datagram { socket, src, payload },
                ) => a.takes_datagram(env, socket, src, payload, &b, env_after),
                (Machine::Transport(a), Machine::Transport(b), CallView::Timer) => a.takes_timer(
                    env,
                    &b,
                    env_after,
                ),
                (Machine::Transport(a), Machine::Transport(b), CallView::Send { to, payload }) => {
                    exists|r: Result<(), QueueError>| #[trigger]
                        a.takes_outbound(env, to, payload, r, &b, env_after)
                },
                (Machine::Overlay(a), Machine::Overlay(b), _) => b == a,
                (Machine::Transport(a), Machine::Transport(b), _) => b == a,
                (Machine::Probe, Machine::Probe, _) => after.env.outbox == node.env.outbox,
                _ => false,
            }
        }),
{
}

/// Everything that a node tells is noted for what it is, in its order: a shred,
/// a peer that came or went, and a datagram that was received.
pub proof fn law_events_are_noted(
    events: Seq<CoreEvent>,
    transport: Seq<TransportEvent>,
    inbound: Seq<(SocketAddr, Vec<u8>)>,
    i: int,
)
    ensures
        core_notes(events).len() == events.len(),
        transport_notes(transport).len() == transport.len(),
        inbound_notes(inbound).len() == inbound.len(),
        0 <= i < events.len() ==> match events[i] {
            CoreEvent::ShredForFilter(packet) => core_notes(events)[i] == NoteView::Shred(packet@),
            CoreEvent::PeerConnected { peer, pubkey } => core_notes(events)[i]
                == (NoteView::Connected { peer, pubkey }),
            CoreEvent::PeerDisconnected { peer } => core_notes(events)[i]
                == (NoteView::Disconnected { peer }),
        },
        0 <= i < transport.len() ==> match transport[i] {
            TransportEvent::Connected { peer, pubkey } => transport_notes(transport)[i]
                == (NoteView::Connected { peer, pubkey }),
            TransportEvent::Disconnected { peer, .. } => transport_notes(transport)[i]
                == (NoteView::Disconnected { peer }),
        },
        0 <= i < inbound.len() ==> inbound_notes(inbound)[i] == (NoteView::App {
            from: inbound[i].0,
            payload: inbound[i].1@,
        }),
{
}

/// A node is asked for all that it has to tell, and a bare transport for its events
/// first and then for what it received.
pub proof fn law_nodes_are_asked_for_all<C: OverlayCore, T: OverlayTransport>(
    node: Node<C, T>,
    notes: Seq<NoteView>,
    after: Node<C, T>,
)
    requires
        node.reported(notes, after),
    ensures
        match (node.machine, after.machine) {
            (Machine::Overlay(a), Machine::Overlay(b)) => exists|events: Seq<CoreEvent>| #[trigger]
                a.tells(events, &b) && notes == core_notes(events),
            (Machine::Transport(a), Machine::Transport(b)) => exists|
                events: Seq<TransportEvent>,
                told: T,
                inbound: Seq<(SocketAddr, Vec<u8>)>,
            |
                #![trigger a.tells(events, &told), told.hands_out(inbound, &b)]
                a.tells(events, &told) && told.hands_out(inbound, &b) && notes == transport_notes(
                    events,
                ) + inbound_notes(inbound),
            (Machine::Probe, Machine::Probe) => notes.len() == 0,
            _ => false,
        },
{
}

/// A node that joins, or is started again, has its timer set from the start.
pub proof fn law_joining_nodes_are_timed<C: OverlayCore, T: OverlayTransport>(
    a: Sim<C, T>,
    options: OptionsView,
    kind: KindView,
    machine: Machine<C, T>,
    after: Sim<C, T>,
)
    requires
        a.joined(options, kind, machine, after),
        a.nodes.len() == a.world.hosts.len(),
        a.world.hosts.len() < u32::MAX,
    ensures
        exists|deadline: Option<u64>|
            after.world == #[trigger] a.world.with_node(options, kind).scheduled(
                a.world.hosts.len() as u32,
                deadline,
            ),
        after.nodes.len() == a.nodes.len() + 1,
        forall|i: int| 0 <= i < a.nodes.len() ==> #[trigger] after.nodes[i] == a.nodes[i],
{
    let id = a.world.hosts.len() as u32;
    let mid = choose|mid: Sim<C, T>| #[trigger]
        a.added(a.world.with_node(options, kind), machine, mid) && mid.timed(id, after);
    let deadline = choose|deadline: Option<u64>|
        {
            &&& #[trigger] mid.nodes[id as int].due(deadline, after.nodes[id as int])
            &&& after.world == mid.world.scheduled(id, deadline)
            &&& after.nodes == mid.nodes.update(id as int, after.nodes[id as int])
        };
    assert(after.world == a.world.with_node(options, kind).scheduled(id, deadline));
    assert forall|i: int| 0 <= i < a.nodes.len() implies #[trigger] after.nodes[i]
        == a.nodes[i] by {
        assert(mid.nodes.drop_last()[i] == a.nodes[i]);
    }
}

/// A node of which nothing is asked takes shreds in, listens on port 65410, passes
/// shreds to eight peers and forgets a peer after half a minute; it says every ten
/// seconds that it is there, and gives up on silence after thirty.
pub proof fn law_plain_nodes()
    ensures
        OptionsView::plain().mode is Sink,
        OptionsView::plain().static_peers.len() == 0,
        OptionsView::plain().nats.len() == 0,
        !OptionsView::plain().ipv6,
        OptionsView::plain().firewall is None,
        OptionsView::plain().bind_port == 65410,
        OptionsView::plain().fanout == 8,
        OptionsView::plain().peer_ttl.nanos == 30_000_000_000,
        OptionsView::plain().keep_alive_interval matches Some(every) && every.nanos
            == 10_000_000_000,
        OptionsView::plain().max_idle_timeout matches Some(silence) && silence.nanos
            == 30_000_000_000,
        OptionsView::plain().initial_mtu is None,
{
}

/// A node that is started again runs a new core, made for its address as it was,
/// has nothing delivered to it and has its timer set.
pub proof fn law_restarted_nodes_are_new<K: ScenarioKit>(
    a: Sim<K::Core, K::Transport>,
    host: HostId,
    options: OptionsView,
    kit: K,
    kit_after: K,
    after: Sim<K::Core, K::Transport>,
)
    requires
        a.restarted_by(host, options, kit, kit_after, after),
        host.0 < a.nodes.len(),
        a.nodes.len() == a.world.hosts.len(),
    ensures
        exists|deadline: Option<u64>|
            after.world == #[trigger] a.world.restarted(host.0).scheduled(host.0, deadline),
        exists|core: K::Core| #[trigger]
            kit.makes_core(
                a.world.seed,
                host,
                WorldView::config_at(host.0 as int, options),
                options,
                a.world.now,
                core,
                &kit_after,
            ),
        forall|i: int|
            0 <= i < a.nodes.len() && i != host.0 ==> #[trigger] after.nodes[i] == a.nodes[i],
{
    let core = choose|core: K::Core| #[trigger]
        kit.makes_core(
            a.world.seed,
            host,
            WorldView::config_at(host.0 as int, options),
            options,
            a.world.now,
            core,
            &kit_after,
        ) && (Sim { world: a.world.restarted(host.0), ..a }).with_machine(
            host.0,
            Machine::Overlay(core),
        ).timed(host.0, after);
    let mid = (Sim { world: a.world.restarted(host.0), ..a }).with_machine(
        host.0,
        Machine::Overlay(core),
    );
    let deadline = choose|deadline: Option<u64>|
        {
            &&& #[trigger] mid.nodes[host.0 as int].due(deadline, after.nodes[host.0 as int])
            &&& after.world == mid.world.scheduled(host.0, deadline)
            &&& after.nodes == mid.nodes.update(host.0 as int, after.nodes[host.0 as int])
        };
    assert(after.world == a.world.restarted(host.0).scheduled(host.0, deadline));
}

} // verus!
