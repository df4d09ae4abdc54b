//! What a probe receives, it receives in the order in which it was handled, and
//! over a link that keeps the order, in which it was sent.

use vstd::prelude::*;
use crate::addr::SocketAddr;
use crate::overlay::service::OverlayCore;
use crate::overlay::sim::nat_box::{FirewallView, Flow};
use crate::overlay::sim::net::LinkParams;
use crate::overlay::sim::order::{
    advances, grows, lemma_handled_grows, lemma_routed_grows, precedes,
};
use crate::overlay::sim::trace::TraceEvent;
use crate::overlay::sim::world::{
    into_chain, outgoing, queued, through_chain, CallView, EventView, HostView, KindView, LinkKey,
    Node, NoteView, ProbeView, QueuedView, SendView, Sim, WorldView,
};
use crate::overlay::transport::OverlayTransport;
use crate::rng::ratio_draw;
use crate::time::sat_u64;

verus! {

/// What the probe on `host` has received; nothing where there is none.
pub open spec fn received_by(w: WorldView, host: u32) -> Seq<ProbeView> {
    match w.hosts[host as int].kind {
        KindView::Probe(received) => received,
        _ => Seq::empty(),
    }
}

/// A datagram that a probe received, and the event that brought it.
pub struct Receipt {
    pub event: QueuedView,
    pub datagram: ProbeView,
}

impl Receipt {
    /// The event brings this datagram to `host`.
    pub open spec fn is_for(self, host: u32) -> bool {
        &&& self.event.event matches EventView::Delivery { to_host, src, payload, .. } && to_host
            == host && src == self.datagram.src && payload == self.datagram.payload
        &&& self.event.at <= self.datagram.at_nanos
    }
}

/// The datagrams of receipts.
pub open spec fn datagrams(log: Seq<Receipt>) -> Seq<ProbeView> {
    Seq::new(log.len(), |i: int| log[i].datagram)
}

/// `b` is `a` later on, and `log` is what the probe on `host` received in
/// between: it follows what was received before, and comes in the order of the
/// events that brought it.
#[verifier::opaque]
pub open spec fn brings(a: WorldView, b: WorldView, host: u32, log: Seq<Receipt>) -> bool {
    &&& advances(a, b)
    &&& a.hosts.len() == b.hosts.len()
    &&& a.hosts[host as int].kind is Probe
    &&& b.hosts[host as int].kind is Probe
    &&& received_by(b, host) == received_by(a, host) + datagrams(log)
    &&& forall|i: int|
        0 <= i < log.len() ==> {
            &&& (#[trigger] log[i]).is_for(host)
            &&& a.now <= log[i].datagram.at_nanos <= b.now
            &&& log[i].event.seq <= b.seq
            &&& a.queue.contains(log[i].event) || is_new(a, log[i].event)
        }
    &&& forall|i: int, j: int|
        #![trigger log[i], log[j]]
        0 <= i < j < log.len() ==> precedes(log[i].event, log[j].event)
            && log[i].datagram.at_nanos <= log[j].datagram.at_nanos
    &&& forall|e: QueuedView| #[trigger]
        b.queue.contains(e) ==> a.queue.contains(e) || is_new(a, e)
    &&& forall|i: int, e: QueuedView|
        #![trigger log[i], b.queue.contains(e)]
        0 <= i < log.len() && b.queue.contains(e) ==> precedes(log[i].event, e)
}

/// `e` was not there in `w`, and is not due before it.
pub open spec fn is_new(w: WorldView, e: QueuedView) -> bool {
    e.seq > w.seq && e.at >= w.now
}

proof fn lemma_brings_twice(
    a: WorldView,
    b: WorldView,
    c: WorldView,
    host: u32,
    l1: Seq<Receipt>,
    l2: Seq<Receipt>,
)
    requires
        brings(a, b, host, l1),
        brings(b, c, host, l2),
    ensures
        brings(a, c, host, l1 + l2),
{
    reveal(brings);
    let log = l1 + l2;
    assert(received_by(c, host) =~= received_by(a, host) + datagrams(log)) by {
        assert(datagrams(log) =~= datagrams(l1) + datagrams(l2));
    }
    assert forall|i: int| 0 <= i < log.len() implies {
        &&& (#[trigger] log[i]).is_for(host)
        &&& a.now <= log[i].datagram.at_nanos <= c.now
        &&& log[i].event.seq <= c.seq
        &&& a.queue.contains(log[i].event) || is_new(a, log[i].event)
    } by {
        if i < l1.len() {
            assert(log[i] == l1[i]);
        } else {
            assert(log[i] == l2[i - l1.len()]);
        }
    }
    assert forall|i: int, j: int|
        #![trigger log[i], log[j]]
        0 <= i < j < log.len() implies precedes(log[i].event, log[j].event)
        && log[i].datagram.at_nanos <= log[j].datagram.at_nanos by {
        if j < l1.len() {
            assert(log[i] == l1[i] && log[j] == l1[j]);
        } else if i >= l1.len() {
            assert(log[i] == l2[i - l1.len()] && log[j] == l2[j - l1.len()]);
        } else {
            assert(log[i] == l1[i] && log[j] == l2[j - l1.len()]);
            if b.queue.contains(log[j].event) {
                assert(precedes(l1[i].event, log[j].event));
            }
        }
    }
    assert forall|i: int, e: QueuedView|
        #![trigger log[i], c.queue.contains(e)]
        0 <= i < log.len() && c.queue.contains(e) implies precedes(log[i].event, e) by {
        if i < l1.len() {
            assert(log[i] == l1[i]);
            if b.queue.contains(e) {
                assert(precedes(l1[i].event, e));
            }
        } else {
            assert(log[i] == l2[i - l1.len()]);
        }
    }
}

/// A world that grows, and in which the probe receives nothing.
proof fn lemma_brings_nothing(a: WorldView, b: WorldView, host: u32)
    requires
        grows(a, b),
        a.hosts.len() == b.hosts.len(),
        a.hosts[host as int].kind is Probe,
        b.hosts[host as int].kind == a.hosts[host as int].kind,
    ensures
        brings(a, b, host, Seq::empty()),
{
    reveal(brings);
    reveal(grows);
    assert(received_by(b, host) =~= received_by(a, host) + datagrams(Seq::empty()));
}

/// What posting on a link leaves alone.
proof fn lemma_posted(
    w: WorldView,
    key: LinkKey,
    params: LinkParams,
    src: SocketAddr,
    to: SocketAddr,
    payload: Seq<u8>,
)
    ensures
        ({
            let after = w.posted(key, params, src, to, payload);
            &&& after.hosts == w.hosts
            &&& after.now == w.now
            &&& params.reorder_probability.numerator == 0 ==> after.horizon.dom().contains(key) && (
            w.horizon.dom().contains(key) ==> w.horizon[key] <= after.horizon[key])
            &&& forall|e: QueuedView| #[trigger]
                after.queue.contains(e) && !w.queue.contains(e) ==> {
                    &&& e.event == (EventView::Delivery { to_host: key.to, src, dst: to, payload })
                    &&& w.seq < e.seq <= after.seq
                    &&& params.reorder_probability.numerator == 0 ==> e.at == after.horizon[key]
                }
        }),
{
    let (delay, rng1) = if params.delay_max.nanos > params.delay_min.nanos {
        crate::rng::range_u64_draw(w.rng, params.delay_min.nanos, params.delay_max.nanos)
    } else {
        (params.delay_min.nanos, w.rng)
    };
    let p = params.reorder_probability;
    let (reordered, rng2) = if p.numerator > 0 {
        ratio_draw(rng1, p.numerator, p.denominator)
    } else {
        (false, rng1)
    };
    let arrival = sat_u64(w.now + delay);
    let horizon = if w.horizon.dom().contains(key) {
        w.horizon[key]
    } else {
        0
    };
    let at = if !reordered && arrival < horizon {
        horizon
    } else {
        arrival
    };
    let event = EventView::Delivery { to_host: key.to, src, dst: to, payload };
    if w.seq < u64::MAX {
        lemma_queued_adds(w.queue, QueuedView { at, seq: (w.seq + 1) as u64, event });
    }
}

proof fn lemma_queued_adds(q: Seq<QueuedView>, x: QueuedView)
    ensures
        forall|e: QueuedView| #[trigger] queued(q, x).contains(e) ==> q.contains(e) || e == x,
    decreases q.len(),
{
    let after = queued(q, x);
    if q.len() > 0 && q.last().at > x.at {
        let rest = queued(q.drop_last(), x);
        lemma_queued_adds(q.drop_last(), x);
        assert forall|e: QueuedView| #[trigger] after.contains(e) implies q.contains(e) || e
            == x by {
            let i = after.index_of(e);
            if i < rest.len() {
                assert(rest[i] == e);
                assert(rest.contains(e));
                if q.drop_last().contains(e) {
                    let k = q.drop_last().index_of(e);
                    assert(q[k] == e);
                }
            } else {
                assert(q[q.len() - 1] == e);
            }
        }
    } else {
        assert forall|e: QueuedView| #[trigger] after.contains(e) implies q.contains(e) || e
            == x by {
            let i = after.index_of(e);
            if i < q.len() {
                assert(q[i] == e);
            }
        }
    }
}

/// What sending over a link leads to: copies of the datagram, one or two or
/// none, none of them due before what was scheduled on a link that keeps the
/// order, nor after what it is scheduled up to then.
pub open spec fn is_sent_over(
    w: WorldView,
    after: WorldView,
    key: LinkKey,
    params: LinkParams,
    payload: Seq<u8>,
) -> bool {
    &&& after.hosts == w.hosts
    &&& forall|e: QueuedView| #[trigger]
        after.queue.contains(e) && !w.queue.contains(e) ==> {
            &&& e.event matches EventView::Delivery { to_host, payload: carried, .. } && to_host
                == key.to && carried == payload
            &&& w.seq < e.seq <= after.seq
            &&& params.reorder_probability.numerator == 0 ==> {
                &&& after.horizon.dom().contains(key)
                &&& e.at <= after.horizon[key]
                &&& w.horizon.dom().contains(key) ==> w.horizon[key] <= e.at
            }
        }
}

proof fn lemma_faulted(
    w: WorldView,
    key: LinkKey,
    params: LinkParams,
    src: SocketAddr,
    to: SocketAddr,
    payload: Seq<u8>,
)
    ensures
        is_sent_over(w, w.faulted(key, params, src, to, payload), key, params, payload),
{
    let p = params.drop_probability;
    let (dropped, rng1) = ratio_draw(w.rng, p.numerator, p.denominator);
    if !dropped {
        let q = params.duplicate_probability;
        let (twice, rng2) = if q.numerator > 0 {
            ratio_draw(rng1, q.numerator, q.denominator)
        } else {
            (false, rng1)
        };
        let w2 = WorldView { rng: rng2, ..w };
        if twice {
            let w3 = w2.recorded(TraceEvent::LinkDuplicated { from: key.from, to: key.to });
            let once = w3.posted(key, params, src, to, payload);
            lemma_posted(w3, key, params, src, to, payload);
            lemma_posted(once, key, params, src, to, payload);
            let after = once.posted(key, params, src, to, payload);
            assert(after == w.faulted(key, params, src, to, payload));
            assert forall|e: QueuedView| #[trigger]
                after.queue.contains(e) && !w.queue.contains(e) implies {
                &&& e.event matches EventView::Delivery { to_host, payload: carried, .. } && to_host
                    == key.to && carried == payload
                &&& w.seq < e.seq <= after.seq
                &&& params.reorder_probability.numerator == 0 ==> {
                    &&& after.horizon.dom().contains(key)
                    &&& e.at <= after.horizon[key]
                    &&& w.horizon.dom().contains(key) ==> w.horizon[key] <= e.at
                }
            } by {
                if once.queue.contains(e) {
                    assert(!w3.queue.contains(e));
                }
            }
        } else {
            lemma_posted(w2, key, params, src, to, payload);
        }
    }
}

/// Sending from a host changes no other host, and no host's kind, and brings
/// copies of the datagram on their way to the host that has its address.
proof fn lemma_routed(
    w: WorldView,
    sender: u32,
    from: SocketAddr,
    to: SocketAddr,
    payload: Seq<u8>,
)
    requires
        sender < w.hosts.len(),
    ensures
        ({
            let after = w.routed(sender, from, to, payload);
            &&& after.hosts.len() == w.hosts.len()
            &&& forall|i: int|
                0 <= i < w.hosts.len() ==> (#[trigger] after.hosts[i]).kind == w.hosts[i].kind
            &&& forall|e: QueuedView| #[trigger]
                after.queue.contains(e) && !w.queue.contains(e) ==> {
                    &&& e.event matches EventView::Delivery { to_host, payload: carried, .. }
                        && carried == payload && (w.link(
                        sender,
                        to_host,
                    ).reorder_probability.numerator == 0 ==> {
                        let key = LinkKey { from: sender, to: to_host };
                        &&& after.horizon.dom().contains(key)
                        &&& e.at <= after.horizon[key]
                        &&& w.horizon.dom().contains(key) ==> w.horizon[key] <= e.at
                    })
                    &&& w.seq < e.seq <= after.seq
                }
        }),
{
    let host = w.hosts[sender as int];
    let firewall = match host.firewall {
        Some(f) => Some(
            FirewallView { flows: f.flows.insert(Flow { local: from, remote: to }, w.now), ..f },
        ),
        None => None,
    };
    let (src, chain, trace) = through_chain(host.chain, 0, w.now, from, to, sender, w.trace);
    let hosts = w.hosts.update(sender as int, HostView { chain, firewall, ..host });
    let v = WorldView { hosts, trace, ..w };
    if let Some(src) = src {
        if v.owners.dom().contains(to.ip) {
            let owner = v.owners[to.ip];
            let params = v.link(sender, owner);
            let len = payload.len() as usize;
            if params.up && !(params.mtu is Some && len > params.mtu->0) {
                let sent = v.recorded(TraceEvent::HostSend { host: sender, from: src, to, len });
                lemma_faulted(
                    sent,
                    LinkKey { from: sender, to: owner },
                    params,
                    src,
                    to,
                    payload,
                );
            }
        }
    }
}

proof fn lemma_routed_all(w: WorldView, sender: u32, sends: Seq<SendView>)
    requires
        sender < w.hosts.len(),
    ensures
        w.routed_all(sender, sends).hosts.len() == w.hosts.len(),
        forall|i: int|
            0 <= i < w.hosts.len() ==> (#[trigger] w.routed_all(sender, sends).hosts[i]).kind
                == w.hosts[i].kind,
    decreases sends.len(),
{
    if sends.len() > 0 {
        let s = sends.last();
        let rest = w.routed_all(sender, sends.drop_last());
        lemma_routed_all(w, sender, sends.drop_last());
        lemma_routed(rest, sender, s.from, s.to, s.payload);
        let after = w.routed_all(sender, sends);
        assert forall|i: int| 0 <= i < w.hosts.len() implies (#[trigger] after.hosts[i]).kind
            == w.hosts[i].kind by {
            assert(rest.hosts[i].kind == w.hosts[i].kind);
        }
    }
}

proof fn lemma_noted_all(w: WorldView, host: u32, notes: Seq<NoteView>, other: u32)
    requires
        host < w.hosts.len(),
        other < w.hosts.len(),
        other != host,
    ensures
        w.noted_all(host, notes).hosts.len() == w.hosts.len(),
        w.noted_all(host, notes).hosts[other as int] == w.hosts[other as int],
    decreases notes.len(),
{
    if notes.len() > 0 {
        lemma_noted_all(w, host, notes.drop_last(), other);
    }
}

/// The machine of one host does not touch what a probe on another received.
proof fn lemma_reacted<C: OverlayCore, T: OverlayTransport>(
    a: Sim<C, T>,
    host: u32,
    call: CallView,
    after: Sim<C, T>,
    probe: u32,
)
    requires
        a.reacted(host, call, after),
        host < a.world.hosts.len(),
        probe < a.world.hosts.len(),
        probe != host,
    ensures
        after.world.hosts.len() == a.world.hosts.len(),
        after.world.hosts[probe as int].kind == a.world.hosts[probe as int].kind,
{
    let h = host as int;
    let ran = choose|ran: Node<C, T>| #[trigger]
        a.nodes[h].called(a.world.now, call, ran) && a.with_ran(host, ran).wound_up(host, after);
    let mid = a.with_ran(host, ran);
    let (quiet, notes, told, deadline) = choose|
        quiet: Node<C, T>,
        notes: Seq<NoteView>,
        told: Node<C, T>,
        deadline: Option<u64>,
    | #[trigger]
        mid.wound_up_by(host, quiet, notes, told, deadline, after);
    let sends = outgoing(mid.nodes[h].env.outbox@, mid.nodes[h].env.sockets@);
    let x = mid.world.noted_all(host, notes);
    let y = x.routed_all(host, sends);
    lemma_noted_all(mid.world, host, notes, probe);
    lemma_routed_all(x, host, sends);
    assert(y.hosts[probe as int].kind == x.hosts[probe as int].kind);
}

/// What bringing a datagram to a host does to the list of a probe.
proof fn lemma_arrived(
    w: WorldView,
    to_host: u32,
    src: SocketAddr,
    dst: SocketAddr,
    payload: Seq<u8>,
    probe: u32,
)
    requires
        to_host < w.hosts.len(),
        probe < w.hosts.len(),
        w.hosts[probe as int].kind is Probe,
    ensures
        ({
            let after = w.arrived(to_host, src, dst, payload).1;
            &&& after.hosts.len() == w.hosts.len()
            &&& after.hosts[probe as int].kind is Probe
            &&& to_host != probe ==> after.hosts[probe as int].kind == w.hosts[probe as int].kind
            &&& after.hosts[to_host as int].kind is Probe == w.hosts[to_host as int].kind is Probe
            &&& received_by(after, probe) == received_by(w, probe) || exists|d: ProbeView|
                to_host == probe && d.at_nanos == w.now && d.src == src && d.payload == payload
                    && received_by(after, probe) == #[trigger] received_by(w, probe).push(d)
        }),
{
    let host = w.hosts[to_host as int];
    if host.up {
        let (inner, chain, trace) = into_chain(
            host.chain,
            host.chain.len(),
            w.now,
            src,
            dst,
            to_host,
            w.trace,
        );
        let v = WorldView {
            hosts: w.hosts.update(to_host as int, HostView { chain, ..host }),
            trace,
            ..w
        };
        if let Some(own) = inner {
            let sockets = v.hosts[to_host as int].sockets;
            let socket = crate::overlay::env::SocketId(
                sockets.index_of_first(own)->0 as u32,
            );
            let d = ProbeView { at_nanos: w.now, socket, src, dst: own, payload };
            let after = v.screened(to_host, src, own, payload).1;
            assert(after == w.arrived(to_host, src, dst, payload).1);
            if to_host == probe && received_by(after, probe) != received_by(w, probe) {
                assert(received_by(after, probe) == received_by(w, probe).push(d));
            }
        }
    }
}

/// Handling an event brings a probe at most the datagram of that event.
proof fn lemma_handled<C: OverlayCore, T: OverlayTransport>(
    a: Sim<C, T>,
    after: Sim<C, T>,
    probe: u32,
) -> (log: Seq<Receipt>)
    requires
        a.world.wf(),
        a.world.queue.len() > 0,
        a.popped().handled(a.world.queue[0].event, after),
        probe < a.world.hosts.len(),
        a.world.hosts[probe as int].kind is Probe,
    ensures
        brings(a.world, after.world, probe, log),
        log.len() <= 1,
        log.len() == 1 ==> log[0].event == a.world.queue[0],
{
    let e = a.world.queue[0];
    let p = a.popped();
    assert(a.world.names_host(e.event));
    lemma_handled_grows(p, e.event, after);
    let log = lemma_handled_receipt(p, e, after, probe);
    reveal(grows);
    reveal(brings);
    let b = after.world;
    assert forall|x: QueuedView| #[trigger] p.world.queue.contains(x) implies a.world.queue.contains(
        x,
    ) && precedes(e, x) by {
        let k = p.world.queue.index_of(x);
        assert(a.world.queue[k + 1] == x);
        assert(a.world.queue[0].at <= a.world.queue[k + 1].at);
    }
    assert(a.world.queue.contains(e));
    log
}

/// What the probe receives when `e`, which has been taken off the queue, is
/// handled.
proof fn lemma_handled_receipt<C: OverlayCore, T: OverlayTransport>(
    p: Sim<C, T>,
    e: QueuedView,
    after: Sim<C, T>,
    probe: u32,
) -> (log: Seq<Receipt>)
    requires
        p.handled(e.event, after),
        p.world.names_host(e.event),
        e.at <= p.world.now,
        probe < p.world.hosts.len(),
        p.world.hosts[probe as int].kind is Probe,
    ensures
        after.world.hosts.len() == p.world.hosts.len(),
        after.world.hosts[probe as int].kind is Probe,
        received_by(after.world, probe) == received_by(p.world, probe) + datagrams(log),
        log.len() <= 1,
        log.len() == 1 ==> log[0].event == e && log[0].is_for(probe) && log[0].datagram.at_nanos
            == p.world.now,
{
    let none = Seq::<Receipt>::empty();
    assert(received_by(p.world, probe) =~= received_by(p.world, probe) + datagrams(none));
    match e.event {
        EventView::Delivery { to_host, src, dst, payload } => {
            let (arrival, w) = p.world.arrived(to_host, src, dst, payload);
            lemma_arrived(p.world, to_host, src, dst, payload, probe);
            if arrival is Some && !(p.world.hosts[to_host as int].kind is Probe) {
                lemma_reacted(
                    Sim { world: w, ..p },
                    to_host,
                    CallView::Datagram { socket: (arrival->0).0, src, payload },
                    after,
                    probe,
                );
                none
            } else if received_by(w, probe) == received_by(p.world, probe) {
                none
            } else {
                let d = choose|d: ProbeView|
                    to_host == probe && d.at_nanos == p.world.now && d.src == src && d.payload
                        == payload && received_by(w, probe) == #[trigger] received_by(
                        p.world,
                        probe,
                    ).push(d);
                let log = seq![Receipt { event: e, datagram: d }];
                assert(received_by(w, probe) =~= received_by(p.world, probe) + datagrams(log));
                log
            }
        },
        EventView::Timer { host, generation } => {
            let entry = p.world.hosts[host as int];
            let fired = Sim { world: p.world.fired(host), ..p };
            if entry.up && entry.timer_generation == generation && !(entry.kind is Probe) {
                lemma_reacted(fired, host, CallView::Timer, after, probe);
            }
            none
        },
    }
}

/// `e` carries `payload` to a host.
pub open spec fn carries(e: QueuedView, payload: Seq<u8>) -> bool {
    e.event matches EventView::Delivery { payload: carried, .. } && carried == payload
}

/// Of the datagrams with `payload`, none is on its way in `b` and none has come
/// in `log` that was not on its way in `a`.
#[verifier::opaque]
pub open spec fn adds_none(
    a: WorldView,
    b: WorldView,
    log: Seq<Receipt>,
    payload: Seq<u8>,
) -> bool {
    &&& forall|e: QueuedView| #[trigger]
        b.queue.contains(e) && carries(e, payload) ==> a.queue.contains(e)
    &&& forall|i: int|
        0 <= i < log.len() && carries((#[trigger] log[i]).event, payload) ==> a.queue.contains(
            log[i].event,
        )
}

proof fn lemma_adds_none_twice(
    a: WorldView,
    b: WorldView,
    c: WorldView,
    l1: Seq<Receipt>,
    l2: Seq<Receipt>,
    payload: Seq<u8>,
)
    requires
        adds_none(a, b, l1, payload),
        adds_none(b, c, l2, payload),
    ensures
        adds_none(a, c, l1 + l2, payload),
{
    reveal(adds_none);
    let log = l1 + l2;
    assert forall|i: int| 0 <= i < log.len() && carries(
        (#[trigger] log[i]).event,
        payload,
    ) implies a.queue.contains(log[i].event) by {
        if i < l1.len() {
            assert(log[i] == l1[i]);
        } else {
            assert(log[i] == l2[i - l1.len()]);
        }
    }
}

/// One thing that happens to a world.
pub enum Step {
    /// It runs until this time.
    Run { until: u64 },
    /// A datagram is sent from a host.
    Send { sender: u32, from: SocketAddr, to: SocketAddr, payload: Seq<u8> },
}

/// `b` is what a step makes of `a`.
pub open spec fn steps_to<C: OverlayCore, T: OverlayTransport>(
    a: Sim<C, T>,
    step: Step,
    b: Sim<C, T>,
) -> bool {
    match step {
        Step::Run { until } => a.world.now <= until && a.ran_to(until, b),
        Step::Send { sender, from, to, payload } => sender < a.world.hosts.len() && b == (Sim {
            world: a.world.routed(sender, from, to, payload),
            ..a
        }),
    }
}

/// `b` is what steps make of `a`, one after the other.
pub open spec fn goes_to<C: OverlayCore, T: OverlayTransport>(
    a: Sim<C, T>,
    steps: Seq<Step>,
    b: Sim<C, T>,
) -> bool
    decreases steps.len(),
{
    if steps.len() == 0 {
        b == a
    } else {
        exists|mid: Sim<C, T>|
            goes_to(a, steps.drop_last(), mid) && #[trigger] steps_to(mid, steps.last(), b)
    }
}

/// None of the steps sends `payload`.
pub open spec fn none_sends(steps: Seq<Step>, payload: Seq<u8>) -> bool {
    forall|i: int|
        0 <= i < steps.len() ==> ((#[trigger] steps[i]) matches Step::Send { payload: sent, .. }
            ==> sent != payload)
}

/// Where there are only probes, handling an event puts nothing on its way.
proof fn lemma_handled_by_probes<C: OverlayCore, T: OverlayTransport>(
    a: Sim<C, T>,
    after: Sim<C, T>,
)
    requires
        a.world.wf(),
        a.world.queue.len() > 0,
        a.popped().handled(a.world.queue[0].event, after),
        a.world.probes_only(),
    ensures
        after.world.probes_only(),
        after.world.queue == a.world.popped().queue,
{
    let e = a.world.queue[0];
    let p = a.popped();
    assert(a.world.names_host(e.event));
    match e.event {
        EventView::Delivery { to_host, src, dst, payload } => {
            assert(p.world.hosts[to_host as int].kind is Probe);
            lemma_arrived_hosts(p.world, to_host, src, dst, payload);
        },
        EventView::Timer { host, generation } => {
            assert(p.world.hosts[host as int].kind is Probe);
        },
    }
}

proof fn lemma_arrived_hosts(
    w: WorldView,
    to_host: u32,
    src: SocketAddr,
    dst: SocketAddr,
    payload: Seq<u8>,
)
    requires
        to_host < w.hosts.len(),
        w.probes_only(),
    ensures
        w.arrived(to_host, src, dst, payload).1.probes_only(),
        w.arrived(to_host, src, dst, payload).1.queue == w.queue,
{
    let after = w.arrived(to_host, src, dst, payload).1;
    assert(w.hosts[to_host as int].kind is Probe);
    assert forall|i: int| 0 <= i < after.hosts.len() implies (#[trigger] after.hosts[i]).kind is Probe by {
        lemma_arrived(w, to_host, src, dst, payload, i as u32);
    }
}

proof fn lemma_reaches<C: OverlayCore, T: OverlayTransport>(
    a: Sim<C, T>,
    n: nat,
    target: u64,
    last: Sim<C, T>,
    probe: u32,
    payloads: Set<Seq<u8>>,
) -> (log: Seq<Receipt>)
    requires
        a.reaches(n, target, last),
        a.world.now <= target,
        probe < a.world.hosts.len(),
        a.world.hosts[probe as int].kind is Probe,
    ensures
        brings(a.world, last.world, probe, log),
        last.world.now <= target,
        a.world.probes_only() ==> {
            &&& last.world.probes_only()
            &&& forall|payload: Seq<u8>| #[trigger]
                payloads.contains(payload) ==> adds_none(a.world, last.world, log, payload)
        },
    decreases n,
{
    if n == 0 {
        assert(grows(a.world, a.world)) by {
            reveal(grows);
        }
        lemma_brings_nothing(a.world, a.world, probe);
        reveal(adds_none);
        Seq::empty()
    } else {
        let mid = choose|mid: Sim<C, T>|
            a.reaches((n - 1) as nat, target, mid) && mid.wf() && #[trigger] mid.world.due(target)
                && mid.popped().handled(mid.world.queue[0].event, last);
        let l1 = lemma_reaches(a, (n - 1) as nat, target, mid, probe, payloads);
        assert(probe < mid.world.hosts.len() && mid.world.hosts[probe as int].kind is Probe) by {
            reveal(brings);
        }
        let l2 = lemma_handled(mid, last, probe);
        lemma_brings_twice(a.world, mid.world, last.world, probe, l1, l2);
        assert(last.world.now <= target) by {
            lemma_handled_now(mid, last);
        }
        if a.world.probes_only() {
            lemma_handled_by_probes(mid, last);
            assert forall|payload: Seq<u8>| #[trigger] payloads.contains(payload) implies adds_none(
                a.world,
                last.world,
                l1 + l2,
                payload,
            ) by {
                assert(adds_none(mid.world, last.world, l2, payload)) by {
                    reveal(adds_none);
                    assert(mid.world.queue.contains(mid.world.queue[0]));
                    assert forall|e: QueuedView| #[trigger]
                        last.world.queue.contains(e) implies mid.world.queue.contains(e) by {
                        let k = last.world.queue.index_of(e);
                        assert(mid.world.queue[k + 1] == e);
                    }
                }
                lemma_adds_none_twice(a.world, mid.world, last.world, l1, l2, payload);
            }
        }
        l1 + l2
    }
}

/// Handling an event takes no time.
proof fn lemma_handled_now<C: OverlayCore, T: OverlayTransport>(a: Sim<C, T>, after: Sim<C, T>)
    requires
        a.popped().handled(a.world.queue[0].event, after),
    ensures
        after.world.now == a.popped().world.now,
{
    let p = a.popped();
    match a.world.queue[0].event {
        EventView::Delivery { to_host, src, dst, payload } => {
            let (arrival, w) = p.world.arrived(to_host, src, dst, payload);
            if arrival is Some && !(p.world.hosts[to_host as int].kind is Probe) {
                lemma_reacted_now(
                    Sim { world: w, ..p },
                    to_host,
                    CallView::Datagram { socket: (arrival->0).0, src, payload },
                    after,
                );
            }
        },
        EventView::Timer { host, generation } => {
            let entry = p.world.hosts[host as int];
            let fired = Sim { world: p.world.fired(host), ..p };
            if entry.up && entry.timer_generation == generation && !(entry.kind is Probe) {
                lemma_reacted_now(fired, host, CallView::Timer, after);
            }
        },
    }
}

proof fn lemma_reacted_now<C: OverlayCore, T: OverlayTransport>(
    a: Sim<C, T>,
    host: u32,
    call: CallView,
    after: Sim<C, T>,
)
    requires
        a.reacted(host, call, after),
    ensures
        after.world.now == a.world.now,
{
    let h = host as int;
    let ran = choose|ran: Node<C, T>| #[trigger]
        a.nodes[h].called(a.world.now, call, ran) && a.with_ran(host, ran).wound_up(host, after);
    let mid = a.with_ran(host, ran);
    let (quiet, notes, told, deadline) = choose|
        quiet: Node<C, T>,
        notes: Seq<NoteView>,
        told: Node<C, T>,
        deadline: Option<u64>,
    | #[trigger]
        mid.wound_up_by(host, quiet, notes, told, deadline, after);
    let sends = outgoing(mid.nodes[h].env.outbox@, mid.nodes[h].env.sockets@);
    lemma_noted_now(mid.world, host, notes);
    lemma_routed_now(mid.world.noted_all(host, notes), host, sends);
}

proof fn lemma_noted_now(w: WorldView, host: u32, notes: Seq<NoteView>)
    ensures
        w.noted_all(host, notes).now == w.now,
    decreases notes.len(),
{
    if notes.len() > 0 {
        lemma_noted_now(w, host, notes.drop_last());
    }
}

proof fn lemma_routed_now(w: WorldView, sender: u32, sends: Seq<SendView>)
    ensures
        w.routed_all(sender, sends).now == w.now,
    decreases sends.len(),
{
    if sends.len() > 0 {
        lemma_routed_now(w, sender, sends.drop_last());
    }
}

proof fn lemma_step<C: OverlayCore, T: OverlayTransport>(
    a: Sim<C, T>,
    step: Step,
    b: Sim<C, T>,
    probe: u32,
    payloads: Set<Seq<u8>>,
) -> (log: Seq<Receipt>)
    requires
        steps_to(a, step, b),
        probe < a.world.hosts.len(),
        a.world.hosts[probe as int].kind is Probe,
    ensures
        brings(a.world, b.world, probe, log),
        a.world.probes_only() ==> b.world.probes_only(),
        forall|payload: Seq<u8>| #[trigger]
            payloads.contains(payload) && a.world.probes_only() && (step matches Step::Send {
                payload: sent,
                ..
            } ==> sent != payload) ==> adds_none(a.world, b.world, log, payload),
{
    match step {
        Step::Run { until } => {
            let (n, last) = choose|n: nat, last: Sim<C, T>| #[trigger]
                a.reaches(n, until, last) && !last.world.due(until) && b == (Sim {
                    world: WorldView { now: until, ..last.world },
                    ..last
                });
            let log = lemma_reaches(a, n, until, last, probe, payloads);
            assert(brings(a.world, b.world, probe, log)) by {
                reveal(brings);
            }
            reveal(adds_none);
            log
        },
        Step::Send { sender, from, to, payload } => {
            lemma_routed_grows(a.world, sender, from, to, payload);
            lemma_routed(a.world, sender, from, to, payload);
            assert(b.world.hosts[probe as int].kind == a.world.hosts[probe as int].kind);
            lemma_brings_nothing(a.world, b.world, probe);
            reveal(adds_none);
            Seq::empty()
        },
    }
}

/// Whatever happens to a world, what a probe receives in between is brought by
/// events in their order.
proof fn lemma_goes_to<C: OverlayCore, T: OverlayTransport>(
    a: Sim<C, T>,
    steps: Seq<Step>,
    b: Sim<C, T>,
    probe: u32,
    payloads: Set<Seq<u8>>,
) -> (log: Seq<Receipt>)
    requires
        goes_to(a, steps, b),
        probe < a.world.hosts.len(),
        a.world.hosts[probe as int].kind is Probe,
    ensures
        brings(a.world, b.world, probe, log),
        a.world.probes_only() ==> b.world.probes_only(),
        forall|payload: Seq<u8>| #[trigger]
            payloads.contains(payload) && a.world.probes_only() && none_sends(steps, payload)
                ==> adds_none(a.world, b.world, log, payload),
    decreases steps.len(),
{
    if steps.len() == 0 {
        assert(grows(a.world, a.world)) by {
            reveal(grows);
        }
        lemma_brings_nothing(a.world, a.world, probe);
        reveal(adds_none);
        Seq::empty()
    } else {
        let rest = steps.drop_last();
        let mid = choose|mid: Sim<C, T>|
            goes_to(a, rest, mid) && #[trigger] steps_to(mid, steps.last(), b);
        let l1 = lemma_goes_to(a, rest, mid, probe, payloads);
        assert(probe < mid.world.hosts.len() && mid.world.hosts[probe as int].kind is Probe) by {
            reveal(brings);
        }
        let l2 = lemma_step(mid, steps.last(), b, probe, payloads);
        lemma_brings_twice(a.world, mid.world, b.world, probe, l1, l2);
        assert forall|payload: Seq<u8>| #[trigger]
            payloads.contains(payload) && a.world.probes_only() && none_sends(
                steps,
                payload,
            ) implies adds_none(a.world, b.world, l1 + l2, payload) by {
            assert(none_sends(rest, payload)) by {
                assert forall|i: int| 0 <= i < rest.len() implies ((
                #[trigger] rest[i]) matches Step::Send { payload: sent, .. } ==> sent
                    != payload) by {
                    assert(rest[i] == steps[i]);
                }
            }
            assert(steps[steps.len() - 1] == steps.last());
            lemma_adds_none_twice(a.world, mid.world, b.world, l1, l2, payload);
        }
        l1 + l2
    }
}

/// `e` is a copy of the datagram whose sending leads from `before` to `after`.
pub open spec fn is_copy(before: WorldView, after: WorldView, e: QueuedView) -> bool {
    after.queue.contains(e) && !before.queue.contains(e)
}

/// What a probe received between two worlds is `log`, in the order of the
/// events that brought it, at times that do not go back, and whatever copy of
/// the first sending is among it comes before every copy of the second.
pub open spec fn received_in_order(
    start: WorldView,
    a: WorldView,
    mid: WorldView,
    b: WorldView,
    last: WorldView,
    probe: u32,
    log: Seq<Receipt>,
) -> bool {
    &&& received_by(last, probe) == received_by(start, probe) + datagrams(log)
    &&& forall|i: int| 0 <= i < log.len() ==> (#[trigger] log[i]).is_for(probe)
    &&& forall|i: int, j: int|
        #![trigger log[i], log[j]]
        0 <= i < j < log.len() ==> log[i].datagram.at_nanos <= log[j].datagram.at_nanos
    &&& forall|i: int, j: int|
        #![trigger log[i], log[j]]
        0 <= i < log.len() && 0 <= j < log.len() && is_copy(start, a, log[i].event) && is_copy(
            mid,
            b,
            log[j].event,
        ) ==> i < j
}

proof fn lemma_in_order<C: OverlayCore, T: OverlayTransport>(
    start: Sim<C, T>,
    s1: (SocketAddr, SocketAddr, Seq<u8>),
    a: Sim<C, T>,
    between: Seq<Step>,
    mid: Sim<C, T>,
    s2: (SocketAddr, SocketAddr, Seq<u8>),
    b: Sim<C, T>,
    after: Seq<Step>,
    last: Sim<C, T>,
    sender: u32,
    probe: u32,
) -> (logs: (Seq<Receipt>, Seq<Receipt>))
    requires
        sender < start.world.hosts.len(),
        probe < start.world.hosts.len(),
        start.world.hosts[probe as int].kind is Probe,
        start.world.link(sender, probe).reorder_probability.numerator == 0,
        mid.world.link(sender, probe).reorder_probability.numerator == 0,
        steps_to(start, Step::Send { sender, from: s1.0, to: s1.1, payload: s1.2 }, a),
        goes_to(a, between, mid),
        steps_to(mid, Step::Send { sender, from: s2.0, to: s2.1, payload: s2.2 }, b),
        goes_to(b, after, last),
    ensures
        brings(a.world, mid.world, probe, logs.0),
        brings(b.world, last.world, probe, logs.1),
        received_in_order(
            start.world,
            a.world,
            mid.world,
            b.world,
            last.world,
            probe,
            logs.0 + logs.1,
        ),
        start.world.probes_only() ==> {
            &&& none_sends(between, s1.2) ==> adds_none(a.world, mid.world, logs.0, s1.2)
            &&& none_sends(between, s2.2) ==> adds_none(a.world, mid.world, logs.0, s2.2)
            &&& none_sends(after, s1.2) ==> adds_none(b.world, last.world, logs.1, s1.2)
            &&& none_sends(after, s2.2) ==> adds_none(b.world, last.world, logs.1, s2.2)
        },
{
    let both = set![s1.2, s2.2];
    lemma_routed(start.world, sender, s1.0, s1.1, s1.2);
    lemma_routed_grows(start.world, sender, s1.0, s1.1, s1.2);
    assert(a.world.hosts[probe as int].kind == start.world.hosts[probe as int].kind);
    lemma_brings_nothing(start.world, a.world, probe);
    if start.world.probes_only() {
        assert forall|i: int| 0 <= i < a.world.hosts.len() implies (
        #[trigger] a.world.hosts[i]).kind is Probe by {
            assert(start.world.hosts[i].kind is Probe);
        }
    }
    let l1 = lemma_goes_to(a, between, mid, probe, both);
    assert(probe < mid.world.hosts.len() && mid.world.hosts[probe as int].kind is Probe) by {
        reveal(brings);
    }
    lemma_routed(mid.world, sender, s2.0, s2.1, s2.2);
    lemma_routed_grows(mid.world, sender, s2.0, s2.1, s2.2);
    assert(b.world.hosts[probe as int].kind == mid.world.hosts[probe as int].kind);
    lemma_brings_nothing(mid.world, b.world, probe);
    if mid.world.probes_only() {
        assert forall|i: int| 0 <= i < b.world.hosts.len() implies (
        #[trigger] b.world.hosts[i]).kind is Probe by {
            assert(mid.world.hosts[i].kind is Probe);
        }
    }
    let l2 = lemma_goes_to(b, after, last, probe, both);
    assert(both.contains(s1.2) && both.contains(s2.2));
    let none = Seq::<Receipt>::empty();
    lemma_brings_twice(start.world, a.world, mid.world, probe, none, l1);
    lemma_brings_twice(start.world, mid.world, b.world, probe, none + l1, none);
    lemma_brings_twice(start.world, b.world, last.world, probe, none + l1 + none, l2);
    let log = l1 + l2;
    assert(none + l1 + none + l2 =~= log);
    reveal(brings);
    assert forall|i: int, j: int|
        #![trigger log[i], log[j]]
        0 <= i < log.len() && 0 <= j < log.len() && is_copy(
            start.world,
            a.world,
            log[i].event,
        ) && is_copy(mid.world, b.world, log[j].event) implies i < j by {
        let x = log[i].event;
        let y = log[j].event;
        let key = LinkKey { from: sender, to: probe };
        assert(log[i].is_for(probe) && log[j].is_for(probe));
        assert(a.world.horizon.dom().contains(key) && x.at <= a.world.horizon[key]);
        assert(a.world.horizon[key] <= mid.world.horizon[key]);
        assert(mid.world.horizon[key] <= y.at);
        assert(precedes(x, y));
        if j < i {
            assert(precedes(y, x));
        }
    }
    (l1, l2)
}

/// Links are first in, first out, up to the list of what a probe received:
/// of two datagrams that are sent from one host over a link that keeps the
/// order, however long either is delayed, duplicated or dropped, and whatever
/// happens between and after, every copy of the first that the probe receives
/// comes before every copy of the second.
pub proof fn law_probe_receives_in_order<C: OverlayCore, T: OverlayTransport>(
    start: Sim<C, T>,
    s1: (SocketAddr, SocketAddr, Seq<u8>),
    a: Sim<C, T>,
    between: Seq<Step>,
    mid: Sim<C, T>,
    s2: (SocketAddr, SocketAddr, Seq<u8>),
    b: Sim<C, T>,
    after: Seq<Step>,
    last: Sim<C, T>,
    sender: u32,
    probe: u32,
)
    requires
        sender < start.world.hosts.len(),
        probe < start.world.hosts.len(),
        start.world.hosts[probe as int].kind is Probe,
        start.world.link(sender, probe).reorder_probability.numerator == 0,
        mid.world.link(sender, probe).reorder_probability.numerator == 0,
        steps_to(start, Step::Send { sender, from: s1.0, to: s1.1, payload: s1.2 }, a),
        goes_to(a, between, mid),
        steps_to(mid, Step::Send { sender, from: s2.0, to: s2.1, payload: s2.2 }, b),
        goes_to(b, after, last),
    ensures
        exists|log: Seq<Receipt>| #[trigger]
            received_in_order(
                start.world,
                a.world,
                mid.world,
                b.world,
                last.world,
                probe,
                log,
            ),
{
    let logs = lemma_in_order(start, s1, a, between, mid, s2, b, after, last, sender, probe);
    assert(received_in_order(
        start.world,
        a.world,
        mid.world,
        b.world,
        last.world,
        probe,
        logs.0 + logs.1,
    ));
}

/// The same of what is in the datagrams, among probes: where two payloads differ
/// and each is sent once, over a link that keeps the order, the list of what the
/// probe received has every copy of the one that was sent first before every
/// copy of the other, and its times do not go back.
pub proof fn law_probe_links_are_fifo<C: OverlayCore, T: OverlayTransport>(
    start: Sim<C, T>,
    s1: (SocketAddr, SocketAddr, Seq<u8>),
    a: Sim<C, T>,
    between: Seq<Step>,
    mid: Sim<C, T>,
    s2: (SocketAddr, SocketAddr, Seq<u8>),
    b: Sim<C, T>,
    after: Seq<Step>,
    last: Sim<C, T>,
    sender: u32,
    probe: u32,
)
    requires
        start.world.probes_only(),
        sender < start.world.hosts.len(),
        probe < start.world.hosts.len(),
        received_by(start.world, probe).len() == 0,
        start.world.link(sender, probe).reorder_probability.numerator == 0,
        mid.world.link(sender, probe).reorder_probability.numerator == 0,
        s1.2 != s2.2,
        forall|e: QueuedView| #[trigger]
            start.world.queue.contains(e) ==> !carries(e, s1.2) && !carries(e, s2.2),
        none_sends(between, s1.2),
        none_sends(between, s2.2),
        none_sends(after, s1.2),
        none_sends(after, s2.2),
        steps_to(start, Step::Send { sender, from: s1.0, to: s1.1, payload: s1.2 }, a),
        goes_to(a, between, mid),
        steps_to(mid, Step::Send { sender, from: s2.0, to: s2.1, payload: s2.2 }, b),
        goes_to(b, after, last),
    ensures
        ({
            let received = received_by(last.world, probe);
            &&& forall|i: int, j: int|
                #![trigger received[i], received[j]]
                0 <= i < received.len() && 0 <= j < received.len() && received[i].payload == s1.2
                    && received[j].payload == s2.2 ==> i < j
            &&& forall|i: int, j: int|
                #![trigger received[i], received[j]]
                0 <= i < j < received.len() ==> received[i].at_nanos <= received[j].at_nanos
        }),
{
    assert(start.world.hosts[probe as int].kind is Probe);
    let (l1, l2) = lemma_in_order(
        start,
        s1,
        a,
        between,
        mid,
        s2,
        b,
        after,
        last,
        sender,
        probe,
    );
    let log = l1 + l2;
    let received = received_by(last.world, probe);
    assert(received =~= datagrams(log));
    lemma_routed(start.world, sender, s1.0, s1.1, s1.2);
    lemma_routed(mid.world, sender, s2.0, s2.1, s2.2);
    reveal(adds_none);
    assert forall|i: int, j: int|
        #![trigger received[i], received[j]]
        0 <= i < received.len() && 0 <= j < received.len() && received[i].payload == s1.2
            && received[j].payload == s2.2 implies i < j by {
        let x = log[i].event;
        let y = log[j].event;
        assert(log[i].is_for(probe) && log[j].is_for(probe));
        assert(carries(x, s1.2) && carries(y, s2.2));
        assert(a.world.queue.contains(x)) by {
            if i < l1.len() {
                assert(log[i] == l1[i]);
            } else {
                assert(log[i] == l2[i - l1.len()]);
                assert(b.world.queue.contains(x));
                assert(mid.world.queue.contains(x));
            }
        }
        assert(is_copy(start.world, a.world, x));
        assert forall|e: QueuedView| #[trigger] a.world.queue.contains(e) implies !carries(
            e,
            s2.2,
        ) by {
            if !start.world.queue.contains(e) {
                assert(carries(e, s1.2));
            }
        }
        assert(b.world.queue.contains(y)) by {
            if j < l1.len() {
                assert(log[j] == l1[j]);
                assert(a.world.queue.contains(y));
            } else {
                assert(log[j] == l2[j - l1.len()]);
            }
        }
        assert(!mid.world.queue.contains(y)) by {
            if mid.world.queue.contains(y) {
                assert(a.world.queue.contains(y));
            }
        }
        assert(is_copy(mid.world, b.world, y));
    }
    assert forall|i: int, j: int|
        #![trigger received[i], received[j]]
        0 <= i < j < received.len() implies received[i].at_nanos <= received[j].at_nanos by {
        assert(log[i].datagram == received[i] && log[j].datagram == received[j]);
    }
}

} // verus!
