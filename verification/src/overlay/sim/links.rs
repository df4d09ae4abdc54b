//! What links do to datagrams: they lose, double and delay them as they are told
//! to, and carry them to the host that has the address.

use vstd::prelude::*;
use crate::addr::SocketAddr;
use crate::overlay::sim::nat_box::{FirewallView, Flow};
use crate::overlay::sim::net::LinkParams;
use crate::overlay::sim::trace::TraceEvent;
use crate::overlay::sim::world::{
    queued, through_chain, EventView, HostView, LinkKey, QueuedView, WorldView,
};
use crate::rng::{range_u64_draw, ratio_draw};
use crate::time::sat_u64;

verus! {

/// What is scheduled on a link up to now.
pub open spec fn horizon_of(w: WorldView, key: LinkKey) -> u64 {
    if w.horizon.dom().contains(key) {
        w.horizon[key]
    } else {
        0
    }
}

/// What is new on the queue comes no sooner than the least delay of the link
/// allows, and no later than its greatest delay or what was scheduled before.
pub open spec fn delayed_within(
    w: WorldView,
    after: WorldView,
    key: LinkKey,
    params: LinkParams,
) -> bool {
    let soonest = sat_u64(w.now + params.delay_min.nanos);
    let latest = sat_u64(
        w.now + (if params.delay_max.nanos > params.delay_min.nanos {
            params.delay_max.nanos
        } else {
            params.delay_min.nanos
        }),
    );
    &&& forall|e: QueuedView| #[trigger]
        after.queue.contains(e) && !w.queue.contains(e) ==> soonest <= e.at && (e.at <= latest
            || e.at <= horizon_of(w, key))
    &&& horizon_of(after, key) <= latest || horizon_of(after, key) <= horizon_of(w, key)
    &&& after.now == w.now
}

/// A link that loses all lets nothing through, and one that loses none lets
/// everything through.
pub open spec fn is_certain(w: WorldView, after: WorldView, params: LinkParams) -> bool {
    &&& params.drop_probability.numerator == params.drop_probability.denominator ==> after.queue
        == w.queue
    &&& params.drop_probability.numerator == 0 && w.seq < u64::MAX ==> after.seq > w.seq
}

/// What is new on the queue went over the link from `from` to `to`, if that is up
/// and lets it through, within its delays; and everything did if the link loses
/// none.
pub open spec fn keeps_to_link(
    w: WorldView,
    after: WorldView,
    from: u32,
    to: u32,
    payload: Seq<u8>,
) -> bool {
    let key = LinkKey { from, to };
    let params = if w.links.dom().contains(key) {
        w.links[key]
    } else {
        w.default_link
    };
    if !params.up || (params.mtu is Some && payload.len() > params.mtu->0) {
        after.queue == w.queue
    } else {
        is_certain(w, after, params) && delayed_within(w, after, key, params)
    }
}

/// What is new on a queue after something was put on it.
pub proof fn lemma_queue_gains(q: Seq<QueuedView>, x: QueuedView)
    ensures
        queued(q, x).len() == q.len() + 1,
        queued(q, x).contains(x),
        forall|e: QueuedView| #[trigger] queued(q, x).contains(e) ==> q.contains(e) || e == x,
        forall|e: QueuedView| #[trigger] q.contains(e) ==> queued(q, x).contains(e),
    decreases q.len(),
{
    let after = queued(q, x);
    if q.len() == 0 || q.last().at <= x.at {
        assert(after[q.len() as int] == x);
        assert forall|e: QueuedView| #[trigger] q.contains(e) implies after.contains(e) by {
            let i = q.index_of(e);
            assert(after[i] == e);
        }
        assert forall|e: QueuedView| #[trigger] after.contains(e) implies q.contains(e) || e
            == x by {
            let i = after.index_of(e);
            if i < q.len() {
                assert(q[i] == e);
            }
        }
    } else {
        let rest = queued(q.drop_last(), x);
        lemma_queue_gains(q.drop_last(), x);
        let k = rest.index_of(x);
        assert(after[k] == x);
        assert forall|e: QueuedView| #[trigger] q.contains(e) implies after.contains(e) by {
            let i = q.index_of(e);
            if i < q.len() - 1 {
                assert(q.drop_last()[i] == e);
                assert(q.drop_last().contains(e));
                let m = rest.index_of(e);
                assert(after[m] == e);
            } else {
                assert(after[rest.len() as int] == e);
            }
        }
        assert forall|e: QueuedView| #[trigger] after.contains(e) implies q.contains(e) || e
            == x by {
            let i = after.index_of(e);
            if i < rest.len() {
                assert(rest[i] == e);
                assert(rest.contains(e));
                if q.drop_last().contains(e) {
                    let m = q.drop_last().index_of(e);
                    assert(q[m] == e);
                }
            } else {
                assert(q[q.len() - 1] == e);
            }
        }
    }
}

/// A datagram leaves the boxes of its host with this address.
pub open spec fn leaves_as(
    w: WorldView,
    sender: u32,
    from: SocketAddr,
    to: SocketAddr,
) -> Option<SocketAddr> {
    let host = w.hosts[sender as int];
    through_chain(host.chain, 0, w.now, from, to, sender, w.trace).0
}

/// The link that datagrams from `sender` to `owner` take is the one that was set
/// between the two, and else the one for all.
pub open spec fn in_effect(w: WorldView, sender: u32, owner: u32, params: LinkParams) -> bool {
    let key = LinkKey { from: sender, to: owner };
    if w.links.dom().contains(key) {
        params == w.links[key]
    } else {
        params == w.default_link
    }
}

/// Nothing is put on the queue, and what was recorded is followed by the record
/// of why.
pub open spec fn is_gone(w: WorldView, after: WorldView, why: TraceEvent) -> bool {
    &&& after.queue == w.queue
    &&& after.seq == w.seq
    &&& after.horizon == w.horizon
    &&& after.trace.records.len() > 0
    &&& after.trace.records.last() == (w.now, why)
}

/// A datagram without a way is gone: where no host has its address, where the
/// link is partitioned, where it is larger than the link lets through, and where
/// its own boxes keep it back.
pub proof fn law_no_way_no_datagram(
    w: WorldView,
    sender: u32,
    from: SocketAddr,
    to: SocketAddr,
    payload: Seq<u8>,
    params: LinkParams,
)
    requires
        sender < w.hosts.len(),
        payload.len() <= usize::MAX,
        w.owners.dom().contains(to.ip) ==> in_effect(w, sender, w.owners[to.ip], params),
    ensures
        ({
            let after = w.routed(sender, from, to, payload);
            let owner = w.owners[to.ip];
            &&& leaves_as(w, sender, from, to) is None ==> after.queue == w.queue && after.rng
                == w.rng
            &&& leaves_as(w, sender, from, to) is Some ==> {
                &&& !w.owners.dom().contains(to.ip) ==> is_gone(
                    w,
                    after,
                    TraceEvent::NoRoute { from: sender, to },
                ) && after.rng == w.rng
                &&& w.owners.dom().contains(to.ip) && !params.up ==> is_gone(
                    w,
                    after,
                    TraceEvent::LinkDown { from: sender, to: owner },
                ) && after.rng == w.rng
                &&& w.owners.dom().contains(to.ip) && params.up && params.mtu is Some
                    && payload.len() > params.mtu->0 ==> is_gone(
                    w,
                    after,
                    TraceEvent::MtuDropped {
                        from: sender,
                        to: owner,
                        len: payload.len() as usize,
                        mtu: params.mtu->0,
                    },
                ) && after.rng == w.rng
            }
        }),
{
}

/// Loss is real: where the draw says so that is made with the drop probability
/// of the link, the datagram is gone, and otherwise it is on its way.
pub proof fn law_lost_datagrams_are_gone(
    w: WorldView,
    sender: u32,
    from: SocketAddr,
    to: SocketAddr,
    payload: Seq<u8>,
    params: LinkParams,
)
    requires
        sender < w.hosts.len(),
        payload.len() <= usize::MAX,
        leaves_as(w, sender, from, to) is Some,
        w.owners.dom().contains(to.ip),
        in_effect(w, sender, w.owners[to.ip], params),
        params.up,
        params.mtu is Some ==> payload.len() <= params.mtu->0,
        w.seq + 2 <= u64::MAX,
    ensures
        ({
            let p = params.drop_probability;
            let after = w.routed(sender, from, to, payload);
            let owner = w.owners[to.ip];
            if ratio_draw(w.rng, p.numerator, p.denominator).0 {
                is_gone(
                    w,
                    after,
                    TraceEvent::LinkDropped {
                        from: sender,
                        to: owner,
                        len: payload.len() as usize,
                    },
                )
            } else {
                after.queue.len() > w.queue.len() && after.seq > w.seq
            }
        }),
{
    let host = w.hosts[sender as int];
    let v = lemma_left(w, sender, from, to);
    let src = leaves_as(w, sender, from, to)->0;
    let owner = w.owners[to.ip];
    let key = LinkKey { from: sender, to: owner };
    let len = payload.len() as usize;
    let sent = v.recorded(TraceEvent::HostSend { host: sender, from: src, to, len });
    assert(w.routed(sender, from, to, payload) == sent.faulted(key, params, src, to, payload));
    lemma_faulted_queue(sent, key, params, src, to, payload);
}

/// The world once a datagram has left the boxes of its host.
proof fn lemma_left(w: WorldView, sender: u32, from: SocketAddr, to: SocketAddr) -> (v: WorldView)
    requires
        sender < w.hosts.len(),
    ensures
        v == (WorldView { hosts: v.hosts, trace: v.trace, ..w }),
        forall|payload: Seq<u8>| #[trigger]
            w.routed(sender, from, to, payload) == (match leaves_as(w, sender, from, to) {
                None => v,
                Some(src) => v.linked(sender, src, to, payload),
            }),
{
    let host = w.hosts[sender as int];
    let firewall = match host.firewall {
        Some(f) => Some(
            FirewallView { flows: f.flows.insert(Flow { local: from, remote: to }, w.now), ..f },
        ),
        None => None,
    };
    let (src, chain, trace) = through_chain(host.chain, 0, w.now, from, to, sender, w.trace);
    WorldView {
        hosts: w.hosts.update(sender as int, HostView { chain, firewall, ..host }),
        trace,
        ..w
    }
}

proof fn lemma_posted_queue(
    w: WorldView,
    key: LinkKey,
    params: LinkParams,
    src: SocketAddr,
    to: SocketAddr,
    payload: Seq<u8>,
)
    requires
        w.seq < u64::MAX,
    ensures
        ({
            let after = w.posted(key, params, src, to, payload);
            let p = params.reorder_probability;
            let drawn = params.delay_max.nanos > params.delay_min.nanos;
            let delay = if drawn {
                range_u64_draw(w.rng, params.delay_min.nanos, params.delay_max.nanos).0
            } else {
                params.delay_min.nanos
            };
            let rng1 = if drawn {
                range_u64_draw(w.rng, params.delay_min.nanos, params.delay_max.nanos).1
            } else {
                w.rng
            };
            let escapes = p.numerator > 0 && ratio_draw(rng1, p.numerator, p.denominator).0;
            let arrival = sat_u64(w.now + delay);
            let at = if !escapes && arrival < horizon_of(w, key) {
                horizon_of(w, key)
            } else {
                arrival
            };
            let e = QueuedView {
                at,
                seq: (w.seq + 1) as u64,
                event: EventView::Delivery { to_host: key.to, src, dst: to, payload },
            };
            &&& after.seq == w.seq + 1
            &&& after.queue.len() == w.queue.len() + 1
            &&& after.queue.contains(e)
            &&& forall|x: QueuedView| #[trigger]
                after.queue.contains(x) ==> w.queue.contains(x) || x == e
            &&& forall|x: QueuedView| #[trigger] w.queue.contains(x) ==> after.queue.contains(x)
            &&& after.trace == w.trace
            &&& after.now == w.now
            &&& after.hosts == w.hosts
            &&& horizon_of(after, key) == (if escapes {
                horizon_of(w, key)
            } else {
                at
            })
        }),
{
    let p = params.reorder_probability;
    let drawn = params.delay_max.nanos > params.delay_min.nanos;
    let delay = if drawn {
        range_u64_draw(w.rng, params.delay_min.nanos, params.delay_max.nanos).0
    } else {
        params.delay_min.nanos
    };
    let rng1 = if drawn {
        range_u64_draw(w.rng, params.delay_min.nanos, params.delay_max.nanos).1
    } else {
        w.rng
    };
    let escapes = p.numerator > 0 && ratio_draw(rng1, p.numerator, p.denominator).0;
    let arrival = sat_u64(w.now + delay);
    let at = if !escapes && arrival < horizon_of(w, key) {
        horizon_of(w, key)
    } else {
        arrival
    };
    let e = QueuedView {
        at,
        seq: (w.seq + 1) as u64,
        event: EventView::Delivery { to_host: key.to, src, dst: to, payload },
    };
    lemma_queue_gains(w.queue, e);
}

proof fn lemma_faulted_queue(
    w: WorldView,
    key: LinkKey,
    params: LinkParams,
    src: SocketAddr,
    to: SocketAddr,
    payload: Seq<u8>,
)
    requires
        w.seq + 2 <= u64::MAX,
    ensures
        ({
            let after = w.faulted(key, params, src, to, payload);
            let p = params.drop_probability;
            let q = params.duplicate_probability;
            let (dropped, rng1) = ratio_draw(w.rng, p.numerator, p.denominator);
            let twice = q.numerator > 0 && ratio_draw(rng1, q.numerator, q.denominator).0;
            let copies = if dropped {
                0int
            } else if twice {
                2int
            } else {
                1int
            };
            &&& after.seq == w.seq + copies
            &&& after.queue.len() == w.queue.len() + copies
            &&& dropped ==> after == (WorldView {
                rng: rng1,
                trace: w.trace.recorded(
                    w.now,
                    TraceEvent::LinkDropped {
                        from: key.from,
                        to: key.to,
                        len: payload.len() as usize,
                    },
                ),
                ..w
            })
            &&& !dropped && twice ==> after.trace == w.trace.recorded(
                w.now,
                TraceEvent::LinkDuplicated { from: key.from, to: key.to },
            )
            &&& !dropped && !twice ==> after.trace == w.trace
            &&& forall|x: QueuedView| #[trigger]
                after.queue.contains(x) && !w.queue.contains(x) ==> x.event == (
                EventView::Delivery { to_host: key.to, src, dst: to, payload })
            &&& forall|x: QueuedView| #[trigger] w.queue.contains(x) ==> after.queue.contains(x)
        }),
{
    let p = params.drop_probability;
    let q = params.duplicate_probability;
    let (dropped, rng1) = ratio_draw(w.rng, p.numerator, p.denominator);
    let w1 = WorldView { rng: rng1, ..w };
    if !dropped {
        let (twice, rng2) = if q.numerator > 0 {
            ratio_draw(rng1, q.numerator, q.denominator)
        } else {
            (false, rng1)
        };
        let w2 = WorldView { rng: rng2, ..w1 };
        if twice {
            let w3 = w2.recorded(TraceEvent::LinkDuplicated { from: key.from, to: key.to });
            let once = w3.posted(key, params, src, to, payload);
            lemma_posted_queue(w3, key, params, src, to, payload);
            lemma_posted_queue(once, key, params, src, to, payload);
            let after = once.posted(key, params, src, to, payload);
            assert forall|x: QueuedView| #[trigger]
                after.queue.contains(x) && !w.queue.contains(x) implies x.event == (
            EventView::Delivery { to_host: key.to, src, dst: to, payload }) by {
                if once.queue.contains(x) {
                    assert(!w3.queue.contains(x));
                }
            }
            assert forall|x: QueuedView| #[trigger] w.queue.contains(x) implies after.queue.contains(
                x,
            ) by {
                assert(once.queue.contains(x));
            }
        } else {
            lemma_posted_queue(w2, key, params, src, to, payload);
        }
    }
}

/// A datagram that is not lost is on its way to the host that has its address, as
/// it is and from where it left: once, or twice where the draw says so that is
/// made with the duplicate probability of the link. Nothing else is put on the
/// queue or taken off it.
pub proof fn law_datagrams_are_carried_over(
    w: WorldView,
    sender: u32,
    from: SocketAddr,
    to: SocketAddr,
    payload: Seq<u8>,
    params: LinkParams,
    e: QueuedView,
)
    requires
        sender < w.hosts.len(),
        payload.len() <= usize::MAX,
        leaves_as(w, sender, from, to) is Some,
        w.owners.dom().contains(to.ip),
        in_effect(w, sender, w.owners[to.ip], params),
        params.up,
        params.mtu is Some ==> payload.len() <= params.mtu->0,
        w.seq + 2 <= u64::MAX,
        !ratio_draw(
            w.rng,
            params.drop_probability.numerator,
            params.drop_probability.denominator,
        ).0,
    ensures
        ({
            let p = params.drop_probability;
            let q = params.duplicate_probability;
            let rng1 = ratio_draw(w.rng, p.numerator, p.denominator).1;
            let twice = q.numerator > 0 && ratio_draw(rng1, q.numerator, q.denominator).0;
            let after = w.routed(sender, from, to, payload);
            let owner = w.owners[to.ip];
            &&& after.queue.len() == w.queue.len() + (if twice {
                2int
            } else {
                1int
            })
            &&& after.seq == w.seq + (if twice {
                2int
            } else {
                1int
            })
            &&& w.queue.contains(e) ==> after.queue.contains(e)
            &&& after.queue.contains(e) && !w.queue.contains(e) ==> e.event == (
            EventView::Delivery {
                to_host: owner,
                src: leaves_as(w, sender, from, to)->0,
                dst: to,
                payload,
            })
            &&& twice ==> after.trace.records.last() == (
                w.now,
                TraceEvent::LinkDuplicated { from: sender, to: owner },
            )
            &&& !twice ==> after.trace.records.last() == (
                w.now,
                TraceEvent::HostSend {
                    host: sender,
                    from: leaves_as(w, sender, from, to)->0,
                    to,
                    len: payload.len() as usize,
                },
            )
        }),
{
    let v = lemma_left(w, sender, from, to);
    let src = leaves_as(w, sender, from, to)->0;
    let owner = w.owners[to.ip];
    let key = LinkKey { from: sender, to: owner };
    let len = payload.len() as usize;
    let sent = v.recorded(TraceEvent::HostSend { host: sender, from: src, to, len });
    assert(w.routed(sender, from, to, payload) == sent.faulted(key, params, src, to, payload));
    lemma_faulted_queue(sent, key, params, src, to, payload);
}

/// A datagram that goes over a link once takes as long as the delay that is drawn
/// between the least and the greatest of the link. Where the link keeps the order
/// it waits for what was scheduled before; where the draw says so that is made
/// with the reorder probability, it does not.
pub proof fn law_delay_is_drawn(
    w: WorldView,
    sender: u32,
    from: SocketAddr,
    to: SocketAddr,
    payload: Seq<u8>,
    params: LinkParams,
)
    requires
        sender < w.hosts.len(),
        payload.len() <= usize::MAX,
        leaves_as(w, sender, from, to) is Some,
        w.owners.dom().contains(to.ip),
        in_effect(w, sender, w.owners[to.ip], params),
        params.up,
        params.mtu is Some ==> payload.len() <= params.mtu->0,
        w.seq + 2 <= u64::MAX,
        !ratio_draw(
            w.rng,
            params.drop_probability.numerator,
            params.drop_probability.denominator,
        ).0,
        params.duplicate_probability.numerator == 0,
    ensures
        ({
            let min = params.delay_min.nanos;
            let max = params.delay_max.nanos;
            let key = LinkKey { from: sender, to: w.owners[to.ip] };
            let rng1 = ratio_draw(
                w.rng,
                params.drop_probability.numerator,
                params.drop_probability.denominator,
            ).1;
            let delay = if max > min {
                range_u64_draw(rng1, min, max).0
            } else {
                min
            };
            let rng2 = if max > min {
                range_u64_draw(rng1, min, max).1
            } else {
                rng1
            };
            let p = params.reorder_probability;
            let escapes = p.numerator > 0 && ratio_draw(rng2, p.numerator, p.denominator).0;
            let after = w.routed(sender, from, to, payload);
            let before = horizon_of(w, key);
            exists|e: QueuedView| #[trigger]
                after.queue.contains(e) && e.seq == w.seq + 1 && e.event == (
                EventView::Delivery {
                    to_host: w.owners[to.ip],
                    src: leaves_as(w, sender, from, to)->0,
                    dst: to,
                    payload,
                }) && (w.now + delay <= u64::MAX ==> e.at == (if !escapes && w.now + delay
                    < before {
                    before as int
                } else {
                    w.now + delay
                }))
        }),
{
    let v = lemma_left(w, sender, from, to);
    let src = leaves_as(w, sender, from, to)->0;
    let owner = w.owners[to.ip];
    let key = LinkKey { from: sender, to: owner };
    let len = payload.len() as usize;
    let sent = v.recorded(TraceEvent::HostSend { host: sender, from: src, to, len });
    let p = params.drop_probability;
    let rng1 = ratio_draw(sent.rng, p.numerator, p.denominator).1;
    let w2 = WorldView { rng: rng1, ..sent };
    assert(w.routed(sender, from, to, payload) == w2.posted(key, params, src, to, payload));
    lemma_posted_queue(w2, key, params, src, to, payload);
}

/// What one copy on a link is delayed by, given the bounds of what was drawn.
pub proof fn lemma_posted_within(
    w: WorldView,
    key: LinkKey,
    params: LinkParams,
    src: SocketAddr,
    to: SocketAddr,
    payload: Seq<u8>,
)
    requires
        params.delay_max.nanos > params.delay_min.nanos ==> ({
            let d = range_u64_draw(w.rng, params.delay_min.nanos, params.delay_max.nanos).0;
            params.delay_min.nanos <= d <= params.delay_max.nanos
        }),
    ensures
        delayed_within(w, w.posted(key, params, src, to, payload), key, params),
{
    let after = w.posted(key, params, src, to, payload);
    if w.seq < u64::MAX {
        lemma_posted_queue(w, key, params, src, to, payload);
    }
}

/// Bounds on what is new go over two steps.
pub proof fn lemma_within_twice(
    a: WorldView,
    b: WorldView,
    c: WorldView,
    key: LinkKey,
    params: LinkParams,
)
    requires
        delayed_within(a, b, key, params),
        delayed_within(b, c, key, params),
    ensures
        delayed_within(a, c, key, params),
{
    assert forall|e: QueuedView| #[trigger]
        c.queue.contains(e) && !a.queue.contains(e) implies sat_u64(
        a.now + params.delay_min.nanos,
    ) <= e.at by {
        if b.queue.contains(e) {
        }
    }
}

} // verus!
