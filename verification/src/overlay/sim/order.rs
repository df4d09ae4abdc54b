//! Links keep the order of what is sent over them, unless they are told to let
//! datagrams escape it.

use vstd::prelude::*;
use crate::addr::SocketAddr;
use crate::overlay::service::OverlayCore;
use crate::overlay::sim::nat_box::{FirewallView, Flow};
use crate::overlay::sim::net::LinkParams;
use crate::overlay::sim::trace::TraceEvent;
use crate::overlay::sim::world::{
    outgoing, queued, through_chain, CallView, EventView, HostView, LinkKey, Node, NoteView,
    QueuedView, SendView, Sim, WorldView, TIMER_MIN_ADVANCE_NANOS,
};
use crate::overlay::transport::OverlayTransport;
use crate::rng::ratio_draw;
use crate::time::{bumped, sat_u64};

verus! {

/// `x` is handled before `y`: it is due earlier, or was put in earlier.
pub open spec fn precedes(x: QueuedView, y: QueuedView) -> bool {
    x.at < y.at || (x.at == y.at && x.seq < y.seq)
}

/// `b` is `a` later on, as far as the order of links goes: nothing is scheduled
/// on a link before what was, and numbers and times go up.
pub open spec fn advances(a: WorldView, b: WorldView) -> bool {
    &&& a.seq <= b.seq
    &&& a.now <= b.now
    &&& forall|key: LinkKey| #[trigger]
        a.horizon.dom().contains(key) ==> b.horizon.dom().contains(key) && a.horizon[key]
            <= b.horizon[key]
}

/// `b` is `a` later on: what was on its way still is, and what is new has a
/// higher number and does not come before the present.
#[verifier::opaque]
pub open spec fn grows(a: WorldView, b: WorldView) -> bool {
    &&& advances(a, b)
    &&& forall|e: QueuedView| #[trigger] a.queue.contains(e) ==> b.queue.contains(e)
    &&& forall|e: QueuedView| #[trigger]
        b.queue.contains(e) ==> a.queue.contains(e) || (e.seq > a.seq && e.at >= a.now)
}

proof fn lemma_grows_twice(a: WorldView, b: WorldView, c: WorldView)
    requires
        grows(a, b),
        grows(b, c),
    ensures
        grows(a, c),
{
    reveal(grows);
}

/// What changes neither the queue nor the order of links.
proof fn lemma_grows_same(a: WorldView, b: WorldView)
    requires
        a.queue == b.queue,
        a.horizon == b.horizon,
        a.seq == b.seq,
        a.now == b.now,
    ensures
        grows(a, b),
{
    reveal(grows);
}

proof fn lemma_queued_keeps(q: Seq<QueuedView>, x: QueuedView)
    ensures
        queued(q, x).contains(x),
        forall|e: QueuedView| #[trigger] q.contains(e) ==> queued(q, x).contains(e),
        forall|e: QueuedView| #[trigger] queued(q, x).contains(e) ==> q.contains(e) || e == x,
    decreases q.len(),
{
    let after = queued(q, x);
    if q.len() == 0 || q.last().at <= x.at {
        assert(after[q.len() as int] == x);
        assert forall|e: QueuedView| #[trigger] q.contains(e) implies after.contains(e) by {
            let i = q.index_of(e);
            assert(after[i] == e);
        }
        assert forall|e: QueuedView| #[trigger] after.contains(e) implies q.contains(e) || e
            == x by {
            let i = after.index_of(e);
            if i < q.len() {
                assert(q[i] == e);
            }
        }
    } else {
        let rest = queued(q.drop_last(), x);
        lemma_queued_keeps(q.drop_last(), x);
        let i = rest.index_of(x);
        assert(after[i] == x);
        assert forall|e: QueuedView| #[trigger] q.contains(e) implies after.contains(e) by {
            let i = q.index_of(e);
            if i < q.len() - 1 {
                assert(q.drop_last()[i] == e);
                assert(q.drop_last().contains(e));
                let k = rest.index_of(e);
                assert(after[k] == e);
            } else {
                assert(after[rest.len() as int] == e);
            }
        }
        assert forall|e: QueuedView| #[trigger] after.contains(e) implies q.contains(e) || e
            == x by {
            let i = after.index_of(e);
            if i < rest.len() {
                assert(rest[i] == e);
                assert(rest.contains(e));
                if q.drop_last().contains(e) {
                    let k = q.drop_last().index_of(e);
                    assert(q[k] == e);
                }
            } else {
                assert(q[q.len() - 1] == e);
            }
        }
    }
}

proof fn lemma_pushed_grows(w: WorldView, at: u64, event: EventView)
    requires
        w.now <= at,
    ensures
        grows(w, w.pushed(at, event)),
        w.seq < u64::MAX ==> w.pushed(at, event).queue.contains(
            QueuedView { at, seq: (w.seq + 1) as u64, event },
        ),
{
    reveal(grows);
    if w.seq < u64::MAX {
        lemma_queued_keeps(w.queue, QueuedView { at, seq: (w.seq + 1) as u64, event });
    }
}

/// The event that brings a datagram, which is sent over a link that keeps the
/// order, to its host.
pub open spec fn in_order(
    w: WorldView,
    key: LinkKey,
    params: LinkParams,
    src: SocketAddr,
    to: SocketAddr,
    payload: Seq<u8>,
) -> QueuedView {
    QueuedView {
        at: w.posted(key, params, src, to, payload).horizon[key],
        seq: (w.seq + 1) as u64,
        event: EventView::Delivery { to_host: key.to, src, dst: to, payload },
    }
}

proof fn lemma_posted_grows(
    w: WorldView,
    key: LinkKey,
    params: LinkParams,
    src: SocketAddr,
    to: SocketAddr,
    payload: Seq<u8>,
)
    ensures
        grows(w, w.posted(key, params, src, to, payload)),
        params.reorder_probability.numerator == 0 ==> {
            let after = w.posted(key, params, src, to, payload);
            let x = in_order(w, key, params, src, to, payload);
            &&& after.horizon.dom().contains(key)
            &&& w.horizon.dom().contains(key) ==> w.horizon[key] <= x.at
            &&& w.seq < u64::MAX ==> after.queue.contains(x) && after.seq == x.seq
        },
{
    reveal(grows);
    let (delay, rng1) = if params.delay_max.nanos > params.delay_min.nanos {
        crate::rng::range_u64_draw(w.rng, params.delay_min.nanos, params.delay_max.nanos)
    } else {
        (params.delay_min.nanos, w.rng)
    };
    let p = params.reorder_probability;
    let (reordered, rng2) = if p.numerator > 0 {
        ratio_draw(rng1, p.numerator, p.denominator)
    } else {
        (false, rng1)
    };
    let arrival = sat_u64(w.now + delay);
    let horizon = if w.horizon.dom().contains(key) {
        w.horizon[key]
    } else {
        0
    };
    let at = if !reordered && arrival < horizon {
        horizon
    } else {
        arrival
    };
    let mid = WorldView {
        rng: rng2,
        horizon: if reordered {
            w.horizon
        } else {
            w.horizon.insert(key, at)
        },
        ..w
    };
    assert(advances(w, mid));
    let event = EventView::Delivery { to_host: key.to, src, dst: to, payload };
    lemma_pushed_grows(mid, at, event);
    assert(w.posted(key, params, src, to, payload) == mid.pushed(at, event));
}

proof fn lemma_faulted_grows(
    w: WorldView,
    key: LinkKey,
    params: LinkParams,
    src: SocketAddr,
    to: SocketAddr,
    payload: Seq<u8>,
)
    ensures
        grows(w, w.faulted(key, params, src, to, payload)),
{
    reveal(grows);
    let p = params.drop_probability;
    let (dropped, rng1) = ratio_draw(w.rng, p.numerator, p.denominator);
    if !dropped {
        let q = params.duplicate_probability;
        let (twice, rng2) = if q.numerator > 0 {
            ratio_draw(rng1, q.numerator, q.denominator)
        } else {
            (false, rng1)
        };
        let w2 = WorldView { rng: rng2, ..w };
        if twice {
            let w3 = w2.recorded(TraceEvent::LinkDuplicated { from: key.from, to: key.to });
            lemma_posted_grows(w3, key, params, src, to, payload);
            lemma_posted_grows(
                w3.posted(key, params, src, to, payload),
                key,
                params,
                src,
                to,
                payload,
            );
        } else {
            lemma_posted_grows(w2, key, params, src, to, payload);
        }
    }
}

pub proof fn lemma_routed_grows(
    w: WorldView,
    sender: u32,
    from: SocketAddr,
    to: SocketAddr,
    payload: Seq<u8>,
)
    ensures
        grows(w, w.routed(sender, from, to, payload)),
{
    reveal(grows);
    let host = w.hosts[sender as int];
    let firewall = match host.firewall {
        Some(f) => Some(
            FirewallView { flows: f.flows.insert(Flow { local: from, remote: to }, w.now), ..f },
        ),
        None => None,
    };
    let (src, chain, trace) = through_chain(host.chain, 0, w.now, from, to, sender, w.trace);
    let hosts = w.hosts.update(sender as int, HostView { chain, firewall, ..host });
    let v = WorldView { hosts, trace, ..w };
    if let Some(src) = src {
        if v.owners.dom().contains(to.ip) {
            let owner = v.owners[to.ip];
            let params = v.link(sender, owner);
            let len = payload.len() as usize;
            if params.up && !(params.mtu is Some && len > params.mtu->0) {
                let sent = v.recorded(TraceEvent::HostSend { host: sender, from: src, to, len });
                lemma_faulted_grows(
                    sent,
                    LinkKey { from: sender, to: owner },
                    params,
                    src,
                    to,
                    payload,
                );
            }
        }
    }
}

proof fn lemma_routed_all_grows(w: WorldView, sender: u32, sends: Seq<SendView>)
    ensures
        grows(w, w.routed_all(sender, sends)),
    decreases sends.len(),
{
    if sends.len() == 0 {
        lemma_grows_same(w, w);
    } else {
        let s = sends.last();
        lemma_routed_all_grows(w, sender, sends.drop_last());
        lemma_routed_grows(
            w.routed_all(sender, sends.drop_last()),
            sender,
            s.from,
            s.to,
            s.payload,
        );
        lemma_grows_twice(
            w,
            w.routed_all(sender, sends.drop_last()),
            w.routed_all(sender, sends),
        );
    }
}

proof fn lemma_noted_all_grows(w: WorldView, host: u32, notes: Seq<NoteView>)
    ensures
        grows(w, w.noted_all(host, notes)),
    decreases notes.len(),
{
    if notes.len() == 0 {
        lemma_grows_same(w, w);
    } else {
        lemma_noted_all_grows(w, host, notes.drop_last());
        let mid = w.noted_all(host, notes.drop_last());
        lemma_grows_same(mid, mid.noted(host, notes.last()));
        lemma_grows_twice(w, mid, w.noted_all(host, notes));
    }
}

proof fn lemma_scheduled_grows(w: WorldView, host: u32, deadline: Option<u64>)
    ensures
        grows(w, w.scheduled(host, deadline)),
{
    reveal(grows);
    let entry = w.hosts[host as int];
    if let Some(due) = deadline {
        let soonest = sat_u64(w.now + TIMER_MIN_ADVANCE_NANOS);
        let at = if due > soonest {
            due
        } else {
            soonest
        };
        let generation = bumped(entry.timer_generation);
        let v = WorldView {
            hosts: w.hosts.update(
                host as int,
                HostView { next_timer: Some(at), timer_generation: generation, ..entry },
            ),
            ..w
        };
        lemma_pushed_grows(v, at, EventView::Timer { host, generation });
    }
}

proof fn lemma_reacted_grows<C: OverlayCore, T: OverlayTransport>(
    a: Sim<C, T>,
    host: u32,
    call: CallView,
    after: Sim<C, T>,
)
    requires
        a.reacted(host, call, after),
    ensures
        grows(a.world, after.world),
{
    let h = host as int;
    let ran = choose|ran: Node<C, T>| #[trigger]
        a.nodes[h].called(a.world.now, call, ran) && a.with_ran(host, ran).wound_up(host, after);
    let mid = a.with_ran(host, ran);
    let (quiet, notes, told, deadline) = choose|
        quiet: Node<C, T>,
        notes: Seq<NoteView>,
        told: Node<C, T>,
        deadline: Option<u64>,
    | #[trigger]
        mid.wound_up_by(host, quiet, notes, told, deadline, after);
    let sends = outgoing(mid.nodes[h].env.outbox@, mid.nodes[h].env.sockets@);
    let x = mid.world.noted_all(host, notes);
    let y = x.routed_all(host, sends);
    lemma_noted_all_grows(mid.world, host, notes);
    lemma_routed_all_grows(x, host, sends);
    lemma_scheduled_grows(y, host, deadline);
    lemma_grows_same(a.world, mid.world);
    lemma_grows_twice(a.world, mid.world, x);
    lemma_grows_twice(a.world, x, y);
    lemma_grows_twice(a.world, y, after.world);
}

pub proof fn lemma_handled_grows<C: OverlayCore, T: OverlayTransport>(
    a: Sim<C, T>,
    event: EventView,
    after: Sim<C, T>,
)
    requires
        a.handled(event, after),
    ensures
        grows(a.world, after.world),
{
    match event {
        EventView::Delivery { to_host, src, dst, payload } => {
            let (arrival, w) = a.world.arrived(to_host, src, dst, payload);
            lemma_grows_same(a.world, w);
            if arrival is Some && !(a.world.hosts[to_host as int].kind is Probe) {
                lemma_reacted_grows(
                    Sim { world: w, ..a },
                    to_host,
                    CallView::Datagram { socket: (arrival->0).0, src, payload },
                    after,
                );
                lemma_grows_twice(a.world, w, after.world);
            }
        },
        EventView::Timer { host, generation } => {
            let entry = a.world.hosts[host as int];
            let fired = Sim { world: a.world.fired(host), ..a };
            lemma_grows_same(a.world, fired.world);
            lemma_grows_same(a.world, a.world);
            if entry.up && entry.timer_generation == generation && !(entry.kind is Probe) {
                lemma_reacted_grows(fired, host, CallView::Timer, after);
                lemma_grows_twice(a.world, fired.world, after.world);
            }
        },
    }
}

/// However a world runs, nothing is scheduled on a link before what was.
pub proof fn law_run_advances<C: OverlayCore, T: OverlayTransport>(
    a: Sim<C, T>,
    n: nat,
    target: u64,
    last: Sim<C, T>,
)
    requires
        a.reaches(n, target, last),
    ensures
        advances(a.world, last.world),
    decreases n,
{
    if n > 0 {
        let mid = choose|mid: Sim<C, T>|
            a.reaches((n - 1) as nat, target, mid) && mid.wf() && #[trigger] mid.world.due(target)
                && mid.popped().handled(mid.world.queue[0].event, last);
        law_run_advances(a, (n - 1) as nat, target, mid);
        lemma_handled_grows(mid.popped(), mid.world.queue[0].event, last);
        reveal(grows);
    }
}

proof fn lemma_step_in_order(a: WorldView, b: WorldView, x: QueuedView, y: QueuedView)
    requires
        a.wf(),
        a.queue.len() > 0,
        grows(a.popped(), b),
        x.seq <= a.seq,
        precedes(x, y),
        a.queue.contains(x) ==> a.queue.contains(y),
    ensures
        b.queue.contains(x) ==> b.queue.contains(y),
{
    reveal(grows);
    if b.queue.contains(x) {
        let popped = a.popped().queue;
        assert(popped.contains(x));
        let k = popped.index_of(x);
        assert(a.queue[k + 1] == x);
        assert(a.queue.contains(x));
        let j = a.queue.index_of(y);
        assert(a.queue[j] == y);
        if j <= k + 1 {
            assert(a.queue[j].at == y.at && a.queue[k + 1].at == x.at);
        }
        assert(popped[j - 1] == y);
        assert(popped.contains(y));
    }
}

/// Of two events, the one that precedes is handled first: as long as it is on
/// its way, so is the other.
pub proof fn law_handled_in_order<C: OverlayCore, T: OverlayTransport>(
    a: Sim<C, T>,
    n: nat,
    target: u64,
    last: Sim<C, T>,
    x: QueuedView,
    y: QueuedView,
)
    requires
        a.reaches(n, target, last),
        a.world.queue.contains(y),
        x.seq <= a.world.seq,
        precedes(x, y),
    ensures
        last.world.queue.contains(x) ==> last.world.queue.contains(y),
    decreases n,
{
    if n > 0 && last.world.queue.contains(x) {
        let mid = choose|mid: Sim<C, T>|
            a.reaches((n - 1) as nat, target, mid) && mid.wf() && #[trigger] mid.world.due(target)
                && mid.popped().handled(mid.world.queue[0].event, last);
        law_handled_in_order(a, (n - 1) as nat, target, mid, x, y);
        law_run_advances(a, (n - 1) as nat, target, mid);
        lemma_handled_grows(mid.popped(), mid.world.queue[0].event, last);
        lemma_step_in_order(mid.world, last.world, x, y);
    }
}

/// Links are first in, first out: of two datagrams that are sent over a link
/// which keeps the order, however long either is delayed and whatever happens
/// in between, the one that was sent first is handled first. `a` is the world
/// once the first has been sent; `mid` is the world later on, when the second
/// is, and `b` what the two of them run in from then on.
pub proof fn law_links_are_fifo<C: OverlayCore, T: OverlayTransport>(
    before: WorldView,
    key: LinkKey,
    p1: LinkParams,
    src1: SocketAddr,
    to1: SocketAddr,
    first: Seq<u8>,
    a: Sim<C, T>,
    n: nat,
    target: u64,
    mid: Sim<C, T>,
    p2: LinkParams,
    src2: SocketAddr,
    to2: SocketAddr,
    second: Seq<u8>,
    b: Sim<C, T>,
    m: nat,
    until: u64,
    last: Sim<C, T>,
)
    requires
        p1.reorder_probability.numerator == 0,
        p2.reorder_probability.numerator == 0,
        before.seq < u64::MAX,
        a.world == before.posted(key, p1, src1, to1, first),
        a.reaches(n, target, mid),
        mid.world.seq < u64::MAX,
        b.world == mid.world.posted(key, p2, src2, to2, second),
        b.reaches(m, until, last),
    ensures
        ({
            let x = in_order(before, key, p1, src1, to1, first);
            let y = in_order(mid.world, key, p2, src2, to2, second);
            &&& a.world.queue.contains(x)
            &&& b.world.queue.contains(y)
            &&& x.at <= y.at
            &&& precedes(x, y)
            &&& last.world.queue.contains(x) ==> last.world.queue.contains(y)
        }),
{
    let x = in_order(before, key, p1, src1, to1, first);
    let y = in_order(mid.world, key, p2, src2, to2, second);
    lemma_posted_grows(before, key, p1, src1, to1, first);
    law_run_advances(a, n, target, mid);
    lemma_posted_grows(mid.world, key, p2, src2, to2, second);
    reveal(grows);
    assert(a.world.horizon.dom().contains(key));
    law_handled_in_order(b, m, until, last, x, y);
}

/// Events are handled at the times that they are due, and time never goes back:
/// what is handled later comes at a later time, or at the same.
pub proof fn law_time_goes_on<C: OverlayCore, T: OverlayTransport>(
    a: Sim<C, T>,
    n: nat,
    target: u64,
    last: Sim<C, T>,
)
    requires
        a.reaches(n, target, last),
    ensures
        a.world.now <= last.world.now,
    decreases n,
{
    if n > 0 {
        let mid = choose|mid: Sim<C, T>|
            a.reaches((n - 1) as nat, target, mid) && mid.wf() && #[trigger] mid.world.due(target)
                && mid.popped().handled(mid.world.queue[0].event, last);
        law_time_goes_on(a, (n - 1) as nat, target, mid);
        lemma_handled_grows(mid.popped(), mid.world.queue[0].event, last);
        reveal(grows);
    }
}

} // verus!
