//! What the harness of the high seam does between its nodes: it carries datagrams,
//! streams and dials, loses what it is told to lose, and keeps what nodes report.

use vstd::prelude::*;
use crate::addr::SocketAddr;
use crate::codec::{le_bytes, lemma_le_len};
use crate::overlay::env::OverlayEnv;
use crate::overlay::service::OverlayRepairReq;
use crate::overlay::sim::highseam::{
    address_of, advert_bytes, all_noted, answers_at, chained, lemma_timers_same, lookups_of,
    maybe_bytes, node_record, peer_bytes, repair_answer, AdvertSummary, HighSeamCore,
    HighSeamEnv, HighSeamEvent, Net, NetView, NodeView, RepairEventView, SeamCall, StoreKey,
};
use crate::overlay::sim::mem_transport::OverlayStreamId;
use crate::pubkey::Pubkey;
use crate::rng::ratio_draw;

verus! {

/// Loss is real: where the draw says so that is made with the drop probability, a
/// datagram reaches nobody, and nothing else happens. So it is where nobody is up
/// at its address.
pub proof fn law_lost_datagrams_reach_nobody<C: HighSeamCore>(
    s: Net<C>,
    from: SocketAddr,
    to: SocketAddr,
    bytes: Seq<u8>,
    after: Net<C>,
)
    requires
        s.datagram_passed(from, to, bytes, after),
        s.view.drop.numerator > 0 && ratio_draw(
            s.view.rng,
            s.view.drop.numerator,
            s.view.drop.denominator,
        ).0 || !s.view.by_addr.dom().contains(to)
            || !s.view.nodes[s.view.by_addr[to] as int].up,
    ensures
        after.seams == s.seams,
        after.view.nodes == s.view.nodes,
        after.view.ops == s.view.ops,
        after.view.dials == s.view.dials,
        after.view.ticks == s.view.ticks,
{
}

/// A datagram that is not lost is handed to the node that is up at its address, as
/// it is and from where it was sent. The two are then connected, if somebody is
/// where it came from.
pub proof fn law_datagrams_reach_their_node<C: HighSeamCore>(
    s: Net<C>,
    from: SocketAddr,
    to: SocketAddr,
    bytes: Seq<u8>,
    after: Net<C>,
)
    requires
        s.view.names_wf(),
        s.datagram_passed(from, to, bytes, after),
        s.view.drop.numerator == 0 || !ratio_draw(
            s.view.rng,
            s.view.drop.numerator,
            s.view.drop.denominator,
        ).0,
        s.view.by_addr.dom().contains(to),
        s.view.nodes[s.view.by_addr[to] as int].up,
    ensures
        ({
            let target = s.view.by_addr[to] as int;
            exists|ready: Net<C>|
                {
                    &&& #[trigger] ready.reacted(target, SeamCall::Datagram { from, bytes }, after)
                    &&& ready.seams == s.seams
                    &&& ready.view.ticks == s.view.ticks
                    &&& ready.view.nodes[target].in_flight == s.view.nodes[target].in_flight
                    &&& ready.view.nodes[target].delivered == s.view.nodes[target].delivered
                    &&& s.view.by_addr.dom().contains(from) && s.view.by_addr[from] != target
                        && s.view.nodes[s.view.by_addr[from] as int].addr == from
                        ==> ready.view.nodes[target].transport.by_addr.dom().contains(from)
                    &&& s.view.nodes[target].transport.by_addr.dom().contains(from)
                        ==> ready.view.nodes == s.view.nodes
                }
        }),
{
    let target = s.view.by_addr[to] as int;
    let drawn = s.view.drop_drawn().1;
    let ready = s.with_view(drawn.dialed_on_demand(from, target));
    assert(ready.reacted(target, SeamCall::Datagram { from, bytes }, after));
}

/// Datagrams of one node are passed in their order.
pub proof fn law_queue_keeps_its_order<C: HighSeamCore>(
    s: Net<C>,
    from: SocketAddr,
    first: Seq<(SocketAddr, Seq<u8>)>,
    next: (SocketAddr, Seq<u8>),
    after: Net<C>,
)
    requires
        s.queue_passed(from, first.push(next), after),
    ensures
        exists|mid: Net<C>|
            s.queue_passed(from, first, mid) && #[trigger] mid.datagram_passed(
                from,
                next.0,
                next.1,
                after,
            ),
{
    assert(first.push(next).drop_last() =~= first);
}

/// Two nodes that are connected know each other, each by its key at its address;
/// and no other node is touched.
pub proof fn law_connections_go_both_ways(s: NetView, a: int, b: int, other: int)
    requires
        0 <= a < s.nodes.len(),
        0 <= b < s.nodes.len(),
        0 <= other < s.nodes.len(),
        a != b,
        other != a,
        other != b,
        !s.nodes[a].transport.by_addr.dom().contains(s.nodes[b].addr),
        !s.nodes[b].transport.by_addr.dom().contains(s.nodes[a].addr),
    ensures
        ({
            let after = s.connected(a, b);
            let x = after.nodes[a].transport;
            let y = after.nodes[b].transport;
            &&& x.established.dom().contains(s.nodes[b].pubkey)
            &&& x.established[s.nodes[b].pubkey] == s.nodes[b].addr
            &&& x.by_addr[s.nodes[b].addr] == s.nodes[b].pubkey
            &&& y.established.dom().contains(s.nodes[a].pubkey)
            &&& y.established[s.nodes[a].pubkey] == s.nodes[a].addr
            &&& y.by_addr[s.nodes[a].addr] == s.nodes[a].pubkey
            &&& after.nodes[other] == s.nodes[other]
            &&& after.ops == s.ops
            &&& after.dials == s.dials
        }),
{
}

/// A dial lands with the node that is up at its address, if that is another one and
/// not yet connected; and otherwise it is lost.
pub proof fn law_dials_land(s: NetView, from: usize, addr: SocketAddr)
    requires
        s.names_wf(),
        from < s.nodes.len(),
    ensures
        ({
            let (after, woken) = s.dials_arrived(seq![(from, addr)]);
            let there = s.by_addr[addr];
            if s.by_addr.dom().contains(addr) && s.nodes[there as int].up && there != from
                && !s.nodes[from as int].transport.by_addr.dom().contains(addr) {
                &&& after == s.connected(from as int, there as int)
                &&& woken.contains(from as int) && woken.contains(there as int)
                &&& forall|i: int| #[trigger] woken.contains(i) ==> i == from || i == there
            } else {
                after == s && woken == Set::<int>::empty()
            }
        }),
{
    let one = seq![(from, addr)];
    assert(one.drop_last() =~= Seq::empty());
    assert(one.last() == (from, addr));
    reveal_with_fuel(NetView::dials_arrived, 3);
}

/// Every timer of a node that is up fires.
pub proof fn law_timers_fire<C: HighSeamCore>(s: Net<C>, n: int, after: Net<C>, index: int)
    requires
        0 <= n <= s.view.nodes.len(),
        s.timers_fired(n, after),
        0 <= index < n,
    ensures
        s.view.nodes[index].up ==> exists|a: Net<C>, b: Net<C>| #[trigger]
            a.reacted(index, SeamCall::Timer, b) && a.view.ticks == s.view.ticks,
    decreases n,
{
    let mid = choose|mid: Net<C>|
        s.timers_fired(n - 1, mid) && #[trigger] mid.timer_fired(n - 1, after);
    lemma_timers_same(s, n - 1, mid);
    if index == n - 1 {
        if s.view.nodes[index].up {
            assert(mid.view.nodes[index].up);
            assert(mid.reacted(index, SeamCall::Timer, after));
        }
    } else {
        law_timers_fire(s, n - 1, mid, index);
    }
}

/// A tick takes a second, and fires the timers of the nodes that are up.
pub proof fn law_tick_is_a_second<C: HighSeamCore>(s: Net<C>, after: Net<C>, index: int)
    requires
        s.ticked(after),
        s.view.ticks + 1 < 0x1_0000_0000,
        0 <= index < s.view.nodes.len(),
    ensures
        (NetView { ticks: (s.view.ticks + 1) as u64, ..s.view }).now() == s.view.now()
            + 1_000_000_000,
        s.view.nodes[index].up ==> exists|a: Net<C>, b: Net<C>| #[trigger]
            a.reacted(index, SeamCall::Timer, b) && a.view.ticks == s.view.ticks + 1,
{
    let (fired, passed, streamed) = choose|fired: Net<C>, passed: Net<C>, streamed: Net<C>|
        #[trigger]
        s.ticked_by(fired, passed, streamed, after);
    let start = s.with_view(s.view.cleared());
    law_timers_fire(start, s.view.nodes.len() as int, fired, index);
    if s.view.nodes[index].up {
        assert(start.view.nodes[index].up);
    }
}

/// What was on its way at the start of a tick is what the tick passes on, and all
/// that is on its way after it is new.
pub proof fn law_tick_clears_the_way(s: NetView, index: int)
    requires
        0 <= index < s.nodes.len(),
        s.ticks < u64::MAX,
    ensures
        s.queues()[index] == s.nodes[index].in_flight,
        s.queues().len() == s.nodes.len(),
        s.cleared().nodes.len() == s.nodes.len(),
        s.cleared().nodes[index].in_flight.len() == 0,
        s.cleared().nodes[index].delivered == s.nodes[index].delivered,
        s.cleared().nodes[index].transport == s.nodes[index].transport,
        s.cleared().nodes[index].up == s.nodes[index].up,
        s.cleared().ops.len() == 0,
        s.cleared().dials.len() == 0,
        s.cleared().ticks == s.ticks + 1,
{
}

/// All that a node has sent, opened and dialed is picked up, in its order, and is
/// on its way once.
pub proof fn law_all_is_picked_up(s: NetView, index: int, i: int)
    requires
        0 <= index < s.nodes.len(),
        index <= usize::MAX,
    ensures
        ({
            let node = s.nodes[index];
            let after = s.collected(index);
            let flying = after.nodes[index].in_flight;
            let f = node.in_flight.len();
            let o = node.outbox.len();
            let d = node.transport.deferred.len();
            &&& flying.len() == f + o + d
            &&& 0 <= i < f ==> flying[i] == node.in_flight[i]
            &&& 0 <= i < o ==> flying[f + i] == (node.outbox[i].1, node.outbox[i].2)
            &&& 0 <= i < d ==> flying[f + o + i] == node.transport.deferred[i]
            &&& after.ops.len() == s.ops.len() + node.transport.ops.len()
            &&& 0 <= i < s.ops.len() ==> after.ops[i] == s.ops[i]
            &&& 0 <= i < node.transport.ops.len() ==> after.ops[s.ops.len() + i] == (
                index as usize,
                node.transport.ops[i].0,
                node.transport.ops[i].1,
            )
            &&& after.dials.len() == s.dials.len() + node.transport.dials.len()
            &&& 0 <= i < s.dials.len() ==> after.dials[i] == s.dials[i]
            &&& 0 <= i < node.transport.dials.len() ==> after.dials[s.dials.len() + i] == (
                index as usize,
                node.transport.dials[i],
            )
            &&& after.nodes[index].outbox.len() == 0
            &&& after.nodes[index].transport.ops.len() == 0
            &&& after.nodes[index].transport.dials.len() == 0
            &&& after.nodes[index].transport.deferred.len() == 0
            &&& after.nodes[index].delivered == node.delivered
        }),
{
}

/// A request for one shred is answered with that shred, if the store has it, and
/// with none if not. A request for the highest from an index on is answered with
/// the highest that the store has of the slot, if its index is no lower.
pub proof fn law_repair_answers(
    store: Map<StoreKey, Seq<u8>>,
    slot: u64,
    index: u32,
    one: Option<Seq<u8>>,
    highest: Option<Seq<u8>>,
    held: StoreKey,
)
    requires
        repair_answer(store, OverlayRepairReq::WindowIndex { slot, shred_index: index }, one),
        repair_answer(
            store,
            OverlayRepairReq::HighestWindowIndex { slot, shred_index: index },
            highest,
        ),
        store.dom().contains(held),
        held.slot == slot,
    ensures
        held.index == index ==> one == Some(store[held]),
        !store.dom().contains(StoreKey { slot, index }) ==> one is None,
        highest matches Some(bytes) ==> exists|key: StoreKey| #[trigger]
            store.dom().contains(key) && key.slot == slot && index <= key.index && held.index
                <= key.index && bytes == store[key],
        held.index >= index && (forall|k: StoreKey| #[trigger]
            store.dom().contains(k) && k.slot == slot ==> k.index <= held.index) ==> highest
            == Some(store[held]),
        (forall|k: StoreKey| #[trigger]
            store.dom().contains(k) && k.slot == slot ==> k.index < index) ==> highest is None,
{
    let window = OverlayRepairReq::WindowIndex { slot, shred_index: index };
    let top = OverlayRepairReq::HighestWindowIndex { slot, shred_index: index };
    if held.index == index {
        assert(answers_at(store, window, held));
    }
    if highest is Some {
        let key = choose|key: StoreKey| #[trigger]
            answers_at(store, top, key) && highest->0 == store[key];
        assert(store.dom().contains(key));
    }
    if held.index >= index && (forall|k: StoreKey| #[trigger]
        store.dom().contains(k) && k.slot == slot ==> k.index <= held.index) {
        assert(answers_at(store, top, held));
        let key = choose|key: StoreKey| #[trigger]
            answers_at(store, top, key) && highest->0 == store[key];
        assert(key.index == held.index);
        assert(key == held);
    }
}

/// The shreds that events hand over.
pub open spec fn shreds_told(events: Seq<HighSeamEvent>) -> Seq<Seq<u8>>
    decreases events.len(),
{
    if events.len() == 0 {
        Seq::empty()
    } else {
        match events.last() {
            HighSeamEvent::ShredForFilter(bytes) => shreds_told(events.drop_last()).push(bytes@),
            _ => shreds_told(events.drop_last()),
        }
    }
}

/// What events tell of repair.
pub open spec fn repair_told(events: Seq<HighSeamEvent>, ticks: u64) -> Seq<RepairEventView>
    decreases events.len(),
{
    if events.len() == 0 {
        Seq::empty()
    } else {
        let rest = repair_told(events.drop_last(), ticks);
        match events.last() {
            HighSeamEvent::RepairResponse { stream, peer, shred } => rest.push(
                RepairEventView::Response {
                    at: ticks,
                    stream: stream.0,
                    peer,
                    shred: maybe_bytes(shred),
                },
            ),
            HighSeamEvent::RepairFailed { stream, peer } => rest.push(
                RepairEventView::Failed { at: ticks, stream: stream.0, peer },
            ),
            _ => rest,
        }
    }
}

/// What a node reports is kept, in its order: the shreds that it hands over, and
/// what became of its repair requests, with the time. Nothing else changes.
pub proof fn law_reports_are_kept(node: NodeView, events: Seq<HighSeamEvent>, ticks: u64)
    ensures
        all_noted(node, events, ticks) == (NodeView {
            delivered: node.delivered + shreds_told(events),
            repair_events: node.repair_events + repair_told(events, ticks),
            ..node
        }),
    decreases events.len(),
{
    if events.len() == 0 {
        assert(node.delivered + shreds_told(events) =~= node.delivered);
        assert(node.repair_events + repair_told(events, ticks) =~= node.repair_events);
    } else {
        let rest = events.drop_last();
        law_reports_are_kept(node, rest, ticks);
        let before = all_noted(node, rest, ticks);
        let after = all_noted(node, events, ticks);
        assert(after.delivered =~= node.delivered + shreds_told(events));
        assert(after.repair_events =~= node.repair_events + repair_told(events, ticks));
    }
}

/// Every request that a peer makes is looked up, and nothing else is.
pub proof fn law_requests_are_looked_up(
    events: Seq<HighSeamEvent>,
    stream: OverlayStreamId,
    request: OverlayRepairReq,
)
    ensures
        lookups_of(events).contains((stream, request)) <==> events.contains(
            HighSeamEvent::RepairRequest { stream, request },
        ),
        lookups_of(events).len() <= events.len(),
    decreases events.len(),
{
    let x = (stream, request);
    let e = HighSeamEvent::RepairRequest { stream, request };
    if events.len() > 0 {
        let rest = events.drop_last();
        law_requests_are_looked_up(rest, stream, request);
        let before = lookups_of(rest);
        let after = lookups_of(events);
        if before.contains(x) {
            let i = before.index_of(x);
            assert(after[i] == x);
        }
        if rest.contains(e) {
            let i = rest.index_of(e);
            assert(events[i] == e);
        }
        if events.contains(e) {
            let i = events.index_of(e);
            if i < rest.len() {
                assert(rest[i] == e);
            } else {
                assert(after[before.len() as int] == x);
            }
        }
        if after.contains(x) {
            let i = after.index_of(x);
            if i < before.len() {
                assert(before[i] == x);
            } else {
                assert(events[events.len() - 1] == e);
            }
        }
    }
}

/// Every node has an address of its own.
pub proof fn law_nodes_are_apart(a: int, b: int)
    requires
        0 <= a < 64000,
        0 <= b < 64000,
        a != b,
    ensures
        address_of(a) != address_of(b),
        address_of(a).port == 65410,
{
    assert(a == a / 250 * 250 + a % 250);
    assert(b == b / 250 * 250 + b % 250);
}

/// A node that joins is up, is found at its address and by its key, and has done
/// nothing yet; the nodes that were there stay as they are.
pub proof fn law_nodes_join<C: HighSeamCore>(s: Net<C>, node: C, after: Net<C>)
    requires
        s.joined(node, after),
        s.view.nodes.len() < usize::MAX,
    ensures
        ({
            let n = s.view.nodes.len() as int;
            let new = after.view.nodes[n];
            &&& after.view.nodes.len() == n + 1
            &&& new.up
            &&& after.view.up_at(new.addr) == Some(n as usize)
            &&& after.view.up_as(new.pubkey) == Some(n as usize)
            &&& new.delivered.len() == 0
            &&& new.repair_events.len() == 0
            &&& new.in_flight.len() == 0
            &&& new.store == Map::<StoreKey, Seq<u8>>::empty()
            &&& after.seams[n].core == node
            &&& forall|i: int| 0 <= i < n ==> #[trigger] after.view.nodes[i] == s.view.nodes[i]
            &&& after.view.ticks == s.view.ticks
        }),
{
}

/// The record of a node starts with its key and ends with its counts, so that
/// records that are equal are of one key and of equal counts; and the digest of
/// several takes each of them in.
pub proof fn law_record_tells_counts(
    a: Pubkey,
    b: Pubkey,
    adverts_a: Seq<AdvertSummary>,
    adverts_b: Seq<AdvertSummary>,
    peers_a: Seq<Pubkey>,
    peers_b: Seq<Pubkey>,
    counts_a: (u64, u64, u64),
    counts_b: (u64, u64, u64),
)
    requires
        node_record(a, adverts_a, peers_a, counts_a.0, counts_a.1, counts_a.2) == node_record(
            b,
            adverts_b,
            peers_b,
            counts_b.0,
            counts_b.1,
            counts_b.2,
        ),
    ensures
        a == b,
        counts_a == counts_b,
{
    let x = node_record(a, adverts_a, peers_a, counts_a.0, counts_a.1, counts_a.2);
    let y = node_record(b, adverts_b, peers_b, counts_b.0, counts_b.1, counts_b.2);
    let n = x.len() as int;
    a.lemma_len();
    b.lemma_len();
    lemma_le_len(counts_a.0 as nat, 8);
    lemma_le_len(counts_a.1 as nat, 8);
    lemma_le_len(counts_a.2 as nat, 8);
    lemma_le_len(counts_b.0 as nat, 8);
    lemma_le_len(counts_b.1 as nat, 8);
    lemma_le_len(counts_b.2 as nat, 8);
    assert(x.subrange(0, 32) =~= a.bytes());
    assert(y.subrange(0, 32) =~= b.bytes());
    Pubkey::lemma_bytes_injective(a, b);
    assert(x.subrange(n - 8, n) =~= le_bytes(counts_a.2 as nat, 8));
    assert(y.subrange(n - 8, n) =~= le_bytes(counts_b.2 as nat, 8));
    assert(x.subrange(n - 16, n - 8) =~= le_bytes(counts_a.1 as nat, 8));
    assert(y.subrange(n - 16, n - 8) =~= le_bytes(counts_b.1 as nat, 8));
    assert(x.subrange(n - 24, n - 16) =~= le_bytes(counts_a.0 as nat, 8));
    assert(y.subrange(n - 24, n - 16) =~= le_bytes(counts_b.0 as nat, 8));
    crate::codec::lemma_byte_spans();
    crate::codec::lemma_le_roundtrip(counts_a.0 as nat, 8);
    crate::codec::lemma_le_roundtrip(counts_a.1 as nat, 8);
    crate::codec::lemma_le_roundtrip(counts_a.2 as nat, 8);
    crate::codec::lemma_le_roundtrip(counts_b.0 as nat, 8);
    crate::codec::lemma_le_roundtrip(counts_b.1 as nat, 8);
    crate::codec::lemma_le_roundtrip(counts_b.2 as nat, 8);
}

/// The digest of several records takes in what the digest of those before it is,
/// and then the record.
pub proof fn law_digest_takes_all_in(records: Seq<Seq<u8>>, next: Seq<u8>)
    ensures
        chained(Seq::<Seq<u8>>::empty()) == Seq::new(32, |i: int| 0u8),
        chained(records.push(next)) == crate::digest::sha256_of(chained(records) + next),
{
    assert(records.push(next).drop_last() =~= records);
}

/// Every node that is woken hears of it.
pub proof fn law_woken_nodes_hear<C: HighSeamCore>(
    s: Net<C>,
    woken: Set<int>,
    n: int,
    after: Net<C>,
    index: int,
)
    requires
        0 <= n <= s.view.nodes.len(),
        s.all_woke(woken, n, after),
        0 <= index < n,
        woken.contains(index),
    ensures
        exists|a: Net<C>, b: Net<C>| #[trigger] a.reacted(index, SeamCall::Activity, b),
    decreases n,
{
    let mid = choose|mid: Net<C>|
        s.all_woke(woken, n - 1, mid) && #[trigger] mid.woke(woken, n - 1, after);
    if index == n - 1 {
        assert(mid.reacted(index, SeamCall::Activity, after));
    } else {
        law_woken_nodes_hear(s, woken, n - 1, mid, index);
    }
}

/// A tick passes on all that was on its way: the datagrams of every node, then the
/// stream operations, then the dials, and the nodes that those reach hear of it.
pub proof fn law_tick_passes_all_on<C: HighSeamCore>(
    s: Net<C>,
    after: Net<C>,
    queues: Seq<Seq<(SocketAddr, Seq<u8>)>>,
)
    requires
        s.ticked(after),
        queues.len() == s.view.nodes.len(),
        forall|i: int|
            0 <= i < queues.len() ==> #[trigger] queues[i] == s.view.nodes[i].in_flight,
    ensures
        exists|fired: Net<C>, passed: Net<C>, streamed: Net<C>|
            {
                &&& #[trigger] fired.queues_passed(queues, passed)
                &&& #[trigger] passed.with_view(
                    passed.view.ops_arrived(s.view.ops).0,
                ).all_woke(
                    passed.view.ops_arrived(s.view.ops).1,
                    passed.view.nodes.len() as int,
                    streamed,
                )
                &&& streamed.with_view(streamed.view.dials_arrived(s.view.dials).0).all_woke(
                    streamed.view.dials_arrived(s.view.dials).1,
                    streamed.view.nodes.len() as int,
                    after,
                )
            },
{
    let (fired, passed, streamed) = choose|fired: Net<C>, passed: Net<C>, streamed: Net<C>|
        #[trigger]
        s.ticked_by(fired, passed, streamed, after);
    assert(s.ticked_by(fired, passed, streamed, after));
    assert(s.view.queues() =~= queues);
    assert(fired.queues_passed(queues, passed));
}

/// The queues of the nodes are passed in the order of the nodes, each as from the
/// address of its node.
pub proof fn law_queues_are_passed_in_order<C: HighSeamCore>(
    s: Net<C>,
    first: Seq<Seq<(SocketAddr, Seq<u8>)>>,
    next: Seq<(SocketAddr, Seq<u8>)>,
    after: Net<C>,
)
    requires
        s.queues_passed(first.push(next), after),
    ensures
        exists|mid: Net<C>|
            s.queues_passed(first, mid) && #[trigger] mid.queue_passed(
                s.view.nodes[first.len() as int].addr,
                next,
                after,
            ),
{
    assert(first.push(next).drop_last() =~= first);
}

/// A node that is called leaves nothing lying: all that it sent, opened and dialed
/// is on its way, and what it is called for happens at the time of the net.
pub proof fn law_calls_leave_nothing_lying<C: HighSeamCore>(
    s: Net<C>,
    index: int,
    call: SeamCall,
    after: Net<C>,
)
    requires
        s.reacted(index, call, after),
    ensures
        after.view.nodes[index].outbox.len() == 0,
        after.view.nodes[index].transport.ops.len() == 0,
        after.view.nodes[index].transport.dials.len() == 0,
        after.view.nodes[index].transport.deferred.len() == 0,
        s.view.nodes[index].delivered.is_prefix_of(after.view.nodes[index].delivered),
        s.view.ops.is_prefix_of(after.view.ops),
        exists|called: Net<C>| #[trigger]
            s.called(index, call, called) && called.settled(index, after),
{
}

/// Each request that a node hears of in a round is answered, in turn, with what its
/// store has.
pub proof fn law_every_request_is_answered<C: HighSeamCore>(
    s: Net<C>,
    index: int,
    first: Seq<(OverlayStreamId, OverlayRepairReq)>,
    next: (OverlayStreamId, OverlayRepairReq),
    after: Net<C>,
)
    requires
        s.all_answered(index, first.push(next), after),
    ensures
        exists|mid: Net<C>, shred: Option<Seq<u8>>|
            s.all_answered(index, first, mid) && repair_answer(
                mid.view.nodes[index].store,
                next.1,
                shred,
            ) && #[trigger] mid.called(
                index,
                SeamCall::Answer { stream: next.0, shred },
                after,
            ),
{
    assert(first.push(next).drop_last() =~= first);
    let mid = choose|mid: Net<C>|
        s.all_answered(index, first, mid) && #[trigger] mid.answered(index, next, after);
    let shred = choose|shred: Option<Seq<u8>>| #[trigger]
        repair_answer(mid.view.nodes[index].store, next.1, shred) && mid.called(
            index,
            SeamCall::Answer { stream: next.0, shred },
            after,
        );
    assert(mid.called(index, SeamCall::Answer { stream: next.0, shred }, after));
}

/// The record of a node holds its adverts and its peers too, one after the other:
/// of an advert its key, its number and how many addresses it names.
pub proof fn law_record_holds_adverts_and_peers(
    key: Pubkey,
    adverts: Seq<AdvertSummary>,
    peers: Seq<Pubkey>,
    counts: (u64, u64, u64),
    i: int,
)
    ensures
        ({
            let record = node_record(key, adverts, peers, counts.0, counts.1, counts.2);
            let a = 32 + 41 * i;
            let p = 32 + 41 * adverts.len() + 32 * i;
            &&& record.len() == 56 + 41 * adverts.len() + 32 * peers.len()
            &&& 0 <= i < adverts.len() ==> {
                &&& record.subrange(a, a + 32) == adverts[i].pubkey.bytes()
                &&& record.subrange(a + 32, a + 40) == le_bytes(adverts[i].seq as nat, 8)
                &&& record[a + 40] == adverts[i].direct_addrs
            }
            &&& 0 <= i < peers.len() ==> record.subrange(p, p + 32) == peers[i].bytes()
        }),
{
    let record = node_record(key, adverts, peers, counts.0, counts.1, counts.2);
    let a = 32 + 41 * i;
    let n = 32 + 41 * adverts.len();
    let p = n + 32 * i;
    let x = advert_bytes(adverts);
    let y = peer_bytes(peers);
    key.lemma_len();
    lemma_le_len(counts.0 as nat, 8);
    lemma_le_len(counts.1 as nat, 8);
    lemma_le_len(counts.2 as nat, 8);
    lemma_advert_bytes(adverts, i);
    lemma_peer_bytes(peers, i);
    if 0 <= i < adverts.len() {
        assert(record.subrange(a, a + 32) =~= x.subrange(41 * i, 41 * i + 32));
        assert(record.subrange(a + 32, a + 40) =~= x.subrange(41 * i + 32, 41 * i + 40));
        assert(record[a + 40] == x[41 * i + 40]);
    }
    if 0 <= i < peers.len() {
        assert(record.subrange(p, p + 32) =~= y.subrange(32 * i, 32 * i + 32));
    }
}

proof fn lemma_advert_bytes(adverts: Seq<AdvertSummary>, i: int)
    ensures
        advert_bytes(adverts).len() == 41 * adverts.len(),
        0 <= i < adverts.len() ==> {
            let x = advert_bytes(adverts);
            &&& x.subrange(41 * i, 41 * i + 32) == adverts[i].pubkey.bytes()
            &&& x.subrange(41 * i + 32, 41 * i + 40) == le_bytes(adverts[i].seq as nat, 8)
            &&& x[41 * i + 40] == adverts[i].direct_addrs
        },
    decreases adverts.len(),
{
    if adverts.len() > 0 {
        let rest = adverts.drop_last();
        let x = advert_bytes(adverts);
        let y = advert_bytes(rest);
        let last = adverts.last();
        lemma_advert_bytes(rest, i);
        last.pubkey.lemma_len();
        lemma_le_len(last.seq as nat, 8);
        if 0 <= i < rest.len() {
            assert(x.subrange(41 * i, 41 * i + 32) =~= y.subrange(41 * i, 41 * i + 32));
            assert(x.subrange(41 * i + 32, 41 * i + 40) =~= y.subrange(41 * i + 32, 41 * i + 40));
            assert(x[41 * i + 40] == y[41 * i + 40]);
        } else if i == rest.len() {
            assert(x.subrange(41 * i, 41 * i + 32) =~= last.pubkey.bytes());
            assert(x.subrange(41 * i + 32, 41 * i + 40) =~= le_bytes(last.seq as nat, 8));
        }
    }
}

proof fn lemma_peer_bytes(peers: Seq<Pubkey>, i: int)
    ensures
        peer_bytes(peers).len() == 32 * peers.len(),
        0 <= i < peers.len() ==> peer_bytes(peers).subrange(32 * i, 32 * i + 32)
            == peers[i].bytes(),
    decreases peers.len(),
{
    if peers.len() > 0 {
        let rest = peers.drop_last();
        let x = peer_bytes(peers);
        let y = peer_bytes(rest);
        lemma_peer_bytes(rest, i);
        peers.last().lemma_len();
        if 0 <= i < rest.len() {
            assert(x.subrange(32 * i, 32 * i + 32) =~= y.subrange(32 * i, 32 * i + 32));
        } else if i == rest.len() {
            assert(x.subrange(32 * i, 32 * i + 32) =~= peers.last().bytes());
        }
    }
}

/// A call reaches the node for what it is, at the time of the net.
pub proof fn law_seam_calls_reach_the_node<C: HighSeamCore>(
    s: Net<C>,
    index: int,
    call: SeamCall,
    after: Net<C>,
)
    requires
        s.called(index, call, after),
        0 <= index < s.seams.len(),
        s.seams.len() == s.view.nodes.len(),
    ensures
        ({
            let a = s.seams[index].core;
            let b = after.seams[index].core;
            let env = (HighSeamEnv { now: s.view.now(), ..s.seams[index].env }).seen();
            let env_after = after.seams[index].env.seen();
            let t = s.view.nodes[index].transport;
            let u = after.view.nodes[index].transport;
            &&& env.clock == Some(s.view.now())
            &&& after.view.nodes[index].outbox == env_after.sent
            &&& after.view.nodes[index].delivered == s.view.nodes[index].delivered
            &&& match call {
                SeamCall::Datagram { from, bytes } => a.takes_datagram(
                    env,
                    t,
                    from,
                    bytes,
                    &b,
                    env_after,
                    u,
                ),
                SeamCall::Timer => a.takes_timer(env, t, &b, env_after, u),
                SeamCall::SourcePacket { packet } => a.takes_source_packet(
                    env,
                    t,
                    packet,
                    &b,
                    env_after,
                    u,
                ),
                SeamCall::Activity => a.takes_activity(env, t, &b, env_after, u),
                SeamCall::Request { peer, request, stream } => a.takes_request(
                    env,
                    t,
                    peer,
                    request,
                    stream,
                    &b,
                    env_after,
                    u,
                ),
                SeamCall::Answer { stream, shred } => a.takes_answer(
                    env,
                    t,
                    stream,
                    shred,
                    &b,
                    env_after,
                    u,
                ),
            }
        }),
{
}

} // verus!
