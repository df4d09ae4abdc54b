//! One seed gives one run of the high seam: where the cores are deterministic,
//! nothing else decides what a net comes to.

use vstd::prelude::*;
use crate::addr::SocketAddr;
use crate::ordmap::Rank;
use crate::overlay::env::OverlayEnv;
use crate::overlay::service::OverlayRepairReq;
use crate::overlay::sim::highseam::{
    all_noted, answers_at, chained, is_digest, lemma_connected_same, lemma_dials_same,
    lemma_ops_same, lemma_queue_same, lemma_queues_same, lemma_timers_same, lemma_woke_same,
    lookups_of, maybe_bytes, record_by, record_of, records_of, repair_answer, seam_called,
    AdvertSummary, HighSeamCore, HighSeamEnv, HighSeamEvent, Net, NetView, NodeView, Seam,
    SeamCall, StoreKey,
};
use crate::overlay::sim::mem_transport::{MemView, OverlayStreamId};
use crate::overlay::sim::trace::hex_of;
use crate::overlay::sim::world::outbox_view;
use crate::pubkey::Pubkey;

verus! {

/// Two environments that no core can tell apart.
pub open spec fn same_sight(a: HighSeamEnv, b: HighSeamEnv) -> bool {
    a.seen() == b.seen()
}

/// Two events that tell the same.
pub open spec fn same_event(a: HighSeamEvent, b: HighSeamEvent) -> bool {
    match (a, b) {
        (HighSeamEvent::ShredForFilter(x), HighSeamEvent::ShredForFilter(y)) => x@ == y@,
        (
            HighSeamEvent::RepairResponse { stream: s1, peer: p1, shred: x },
            HighSeamEvent::RepairResponse { stream: s2, peer: p2, shred: y },
        ) => s1 == s2 && p1 == p2 && maybe_bytes(x) == maybe_bytes(y),
        _ => a == b,
    }
}

pub open spec fn same_events(a: Seq<HighSeamEvent>, b: Seq<HighSeamEvent>) -> bool {
    &&& a.len() == b.len()
    &&& forall|i: int| 0 <= i < a.len() ==> same_event(#[trigger] a[i], b[i])
}

/// What a core does, tells and shows is determined by its state and by what it
/// is called with.
pub open spec fn is_deterministic_seam<C: HighSeamCore>() -> bool {
    &&& forall|
        core: C,
        e1: HighSeamEnv,
        e2: HighSeamEnv,
        transport: MemView,
        call: SeamCall,
        a1: C,
        a2: C,
        x1: HighSeamEnv,
        x2: HighSeamEnv,
        t1: MemView,
        t2: MemView,
    |
        #![trigger seam_called(core, e1, transport, call, a1, x1, t1), seam_called(core, e2, transport, call, a2, x2, t2)]
        same_sight(e1, e2) && seam_called(core, e1, transport, call, a1, x1, t1) && seam_called(
            core,
            e2,
            transport,
            call,
            a2,
            x2,
            t2,
        ) ==> a1 == a2 && same_sight(x1, x2) && t1 == t2
    &&& forall|core: C, v1: Seq<HighSeamEvent>, v2: Seq<HighSeamEvent>, a1: C, a2: C|
        #![trigger core.tells(v1, &a1), core.tells(v2, &a2)]
        core.tells(v1, &a1) && core.tells(v2, &a2) ==> same_events(v1, v2) && a1 == a2
    &&& forall|core: C, now: u64, v1: Seq<AdvertSummary>, v2: Seq<AdvertSummary>|
        #![trigger core.shows(now, v1), core.shows(now, v2)]
        core.shows(now, v1) && core.shows(now, v2) ==> v1 == v2
    &&& forall|core: C, n1: u64, n2: u64|
        #![trigger core.counts_dropped(n1), core.counts_dropped(n2)]
        core.counts_dropped(n1) && core.counts_dropped(n2) ==> n1 == n2
    &&& forall|core: C, n1: u64, n2: u64|
        #![trigger core.counts_invalid(n1), core.counts_invalid(n2)]
        core.counts_invalid(n1) && core.counts_invalid(n2) ==> n1 == n2
}

impl<C: HighSeamCore> Seam<C> {
    /// The same core, which sees the same.
    pub open spec fn same(self, other: Self) -> bool {
        self.core == other.core && same_sight(self.env, other.env)
    }
}

impl<C: HighSeamCore> Net<C> {
    /// The same net with the same cores in it.
    pub open spec fn same(self, other: Self) -> bool {
        &&& self.view == other.view
        &&& self.seams.len() == other.seams.len()
        &&& forall|i: int|
            0 <= i < self.seams.len() ==> (#[trigger] self.seams[i]).same(other.seams[i])
    }

    /// Every node has its core.
    pub open spec fn is_manned(self) -> bool {
        self.seams.len() == self.view.nodes.len()
    }
}

/// Replacing one core by the same on both sides keeps nets the same.
proof fn lemma_one_seam<C: HighSeamCore>(
    a: Net<C>,
    b: Net<C>,
    index: int,
    one: Net<C>,
    other: Net<C>,
)
    requires
        a.same(b),
        0 <= index < a.seams.len(),
        one.view == other.view,
        one.seams == a.seams.update(index, one.seams[index]),
        other.seams == b.seams.update(index, other.seams[index]),
        one.seams[index].same(other.seams[index]),
    ensures
        one.same(other),
        one.seams.len() == a.seams.len(),
{
    assert forall|i: int| 0 <= i < one.seams.len() implies (#[trigger] one.seams[i]).same(
        other.seams[i],
    ) by {
        if i != index {
            assert(one.seams[i] == a.seams[i]);
            assert(other.seams[i] == b.seams[i]);
            assert(a.seams[i].same(b.seams[i]));
        }
    }
}

proof fn lemma_called_once<C: HighSeamCore>(
    a: Net<C>,
    b: Net<C>,
    index: int,
    call: SeamCall,
    one: Net<C>,
    other: Net<C>,
)
    requires
        is_deterministic_seam::<C>(),
        a.same(b),
        a.is_manned(),
        0 <= index < a.seams.len(),
        a.called(index, call, one),
        b.called(index, call, other),
    ensures
        one.same(other),
        one.is_manned(),
        one.view.nodes.len() == a.view.nodes.len(),
{
    let now = a.view.now();
    assert(a.seams[index].same(b.seams[index]));
    let e1 = HighSeamEnv { now, ..a.seams[index].env };
    let e2 = HighSeamEnv { now, ..b.seams[index].env };
    assert(same_sight(e1, e2));
    let transport = a.view.nodes[index].transport;
    assert(seam_called(
        a.seams[index].core,
        e1,
        transport,
        call,
        one.seams[index].core,
        one.seams[index].env,
        one.view.nodes[index].transport,
    ));
    assert(seam_called(
        a.seams[index].core,
        e2,
        transport,
        call,
        other.seams[index].core,
        other.seams[index].env,
        other.view.nodes[index].transport,
    ));
    lemma_one_seam(a, b, index, one, other);
}

proof fn lemma_gathered_once<C: HighSeamCore>(
    a: Net<C>,
    b: Net<C>,
    index: int,
    one: Net<C>,
    other: Net<C>,
)
    requires
        a.same(b),
        a.is_manned(),
        0 <= index < a.seams.len(),
        a.gathered(index, one),
        b.gathered(index, other),
    ensures
        one.same(other),
        one.is_manned(),
        one.view.nodes.len() == a.view.nodes.len(),
{
    assert(a.seams[index].same(b.seams[index]));
    assert(outbox_view(one.seams[index].env.outbox@) =~= outbox_view(
        other.seams[index].env.outbox@,
    ));
    lemma_one_seam(a, b, index, one, other);
}

proof fn lemma_events_once(
    node: NodeView,
    a: Seq<HighSeamEvent>,
    b: Seq<HighSeamEvent>,
    ticks: u64,
)
    requires
        same_events(a, b),
    ensures
        all_noted(node, a, ticks) == all_noted(node, b, ticks),
        lookups_of(a) == lookups_of(b),
    decreases a.len(),
{
    if a.len() > 0 {
        assert forall|i: int| 0 <= i < a.len() - 1 implies same_event(
            #[trigger] a.drop_last()[i],
            b.drop_last()[i],
        ) by {
            assert(same_event(a[i], b[i]));
        }
        lemma_events_once(node, a.drop_last(), b.drop_last(), ticks);
        assert(same_event(a[a.len() - 1], b[a.len() - 1]));
    }
}

proof fn lemma_noted_once<C: HighSeamCore>(
    a: Net<C>,
    b: Net<C>,
    index: int,
    v1: Seq<HighSeamEvent>,
    one: Net<C>,
    v2: Seq<HighSeamEvent>,
    other: Net<C>,
)
    requires
        is_deterministic_seam::<C>(),
        a.same(b),
        a.is_manned(),
        0 <= index < a.seams.len(),
        a.noted(index, v1, one),
        b.noted(index, v2, other),
    ensures
        lookups_of(v1) == lookups_of(v2),
        one.same(other),
        one.is_manned(),
        one.view.nodes.len() == a.view.nodes.len(),
{
    assert(a.seams[index].same(b.seams[index]));
    assert(a.seams[index].core.tells(v1, &one.seams[index].core));
    assert(a.seams[index].core.tells(v2, &other.seams[index].core));
    lemma_events_once(a.view.nodes[index], v1, v2, a.view.ticks);
    lemma_one_seam(a, b, index, one, other);
}

proof fn lemma_answer_once(
    store: Map<StoreKey, Seq<u8>>,
    request: OverlayRepairReq,
    s1: Option<Seq<u8>>,
    s2: Option<Seq<u8>>,
)
    requires
        repair_answer(store, request, s1),
        repair_answer(store, request, s2),
    ensures
        s1 == s2,
{
    if let (Some(b1), Some(b2)) = (s1, s2) {
        let k1 = choose|key: StoreKey| #[trigger]
            answers_at(store, request, key) && b1 == store[key];
        let k2 = choose|key: StoreKey| #[trigger]
            answers_at(store, request, key) && b2 == store[key];
        assert(store.dom().contains(k1) && store.dom().contains(k2));
        assert(k1 == k2);
    }
}

proof fn lemma_all_answered_once<C: HighSeamCore>(
    a: Net<C>,
    b: Net<C>,
    index: int,
    lookups: Seq<(OverlayStreamId, OverlayRepairReq)>,
    one: Net<C>,
    other: Net<C>,
)
    requires
        is_deterministic_seam::<C>(),
        a.same(b),
        a.is_manned(),
        0 <= index < a.seams.len(),
        a.all_answered(index, lookups, one),
        b.all_answered(index, lookups, other),
    ensures
        one.same(other),
        one.is_manned(),
        one.view.nodes.len() == a.view.nodes.len(),
    decreases lookups.len(),
{
    if lookups.len() > 0 {
        let m1 = choose|mid: Net<C>|
            a.all_answered(index, lookups.drop_last(), mid) && #[trigger] mid.answered(
                index,
                lookups.last(),
                one,
            );
        let m2 = choose|mid: Net<C>|
            b.all_answered(index, lookups.drop_last(), mid) && #[trigger] mid.answered(
                index,
                lookups.last(),
                other,
            );
        lemma_all_answered_once(a, b, index, lookups.drop_last(), m1, m2);
        let (stream, request) = lookups.last();
        let store = m1.view.nodes[index].store;
        let s1 = choose|shred: Option<Seq<u8>>| #[trigger]
            repair_answer(store, request, shred) && m1.called(
                index,
                SeamCall::Answer { stream, shred },
                one,
            );
        let s2 = choose|shred: Option<Seq<u8>>| #[trigger]
            repair_answer(store, request, shred) && m2.called(
                index,
                SeamCall::Answer { stream, shred },
                other,
            );
        lemma_answer_once(store, request, s1, s2);
        lemma_called_once(m1, m2, index, SeamCall::Answer { stream, shred: s1 }, one, other);
    }
}

proof fn lemma_rounds_once<C: HighSeamCore>(
    a: Net<C>,
    b: Net<C>,
    index: int,
    n: nat,
    one: Net<C>,
    other: Net<C>,
)
    requires
        is_deterministic_seam::<C>(),
        a.same(b),
        a.is_manned(),
        0 <= index < a.seams.len(),
        a.rounds(index, n, one),
        b.rounds(index, n, other),
    ensures
        one.same(other),
        one.is_manned(),
        one.view.nodes.len() == a.view.nodes.len(),
    decreases n,
{
    if n > 0 {
        let m1 = choose|mid: Net<C>|
            a.rounds(index, (n - 1) as nat, mid) && #[trigger] mid.round(index, one);
        let m2 = choose|mid: Net<C>|
            b.rounds(index, (n - 1) as nat, mid) && #[trigger] mid.round(index, other);
        lemma_rounds_once(a, b, index, (n - 1) as nat, m1, m2);
        let (p1, v1, t1) = choose|picked: Net<C>, events: Seq<HighSeamEvent>, told: Net<C>|
            #[trigger]
            m1.round_by(index, picked, events, told, one);
        let (p2, v2, t2) = choose|picked: Net<C>, events: Seq<HighSeamEvent>, told: Net<C>|
            #[trigger]
            m2.round_by(index, picked, events, told, other);
        lemma_gathered_once(m1, m2, index, p1, p2);
        lemma_noted_once(p1, p2, index, v1, t1, v2, t2);
        lemma_all_answered_once(t1, t2, index, lookups_of(v1), one, other);
    }
}

/// The first rounds of many.
proof fn lemma_rounds_prefix<C: HighSeamCore>(a: Net<C>, index: int, n: nat, after: Net<C>, k: nat)
    requires
        a.rounds(index, n, after),
        k < n,
    ensures
        exists|mid: Net<C>, next: Net<C>|
            a.rounds(index, k, mid) && #[trigger] mid.round(index, next),
    decreases n,
{
    let m = choose|mid: Net<C>|
        a.rounds(index, (n - 1) as nat, mid) && #[trigger] mid.round(index, after);
    if k < n - 1 {
        lemma_rounds_prefix(a, index, (n - 1) as nat, m, k);
    } else {
        assert(a.rounds(index, k, m) && m.round(index, after));
    }
}

/// A node that has been seen to in `n` rounds is not seen to in more.
proof fn lemma_no_more_rounds<C: HighSeamCore>(
    a: Net<C>,
    b: Net<C>,
    index: int,
    n: nat,
    last: Net<C>,
    picked: Net<C>,
    events: Seq<HighSeamEvent>,
    after: Net<C>,
    m: nat,
    later: Net<C>,
)
    requires
        is_deterministic_seam::<C>(),
        a.same(b),
        a.is_manned(),
        0 <= index < a.seams.len(),
        a.settled_by(index, n, last, picked, events, after),
        b.rounds(index, m, later),
        m <= u64::MAX,
    ensures
        m <= n,
{
    if n < m {
        lemma_rounds_prefix(b, index, m, later, n);
        let (mid, next) = choose|mid: Net<C>, next: Net<C>|
            b.rounds(index, n, mid) && #[trigger] mid.round(index, next);
        lemma_rounds_once(a, b, index, n, last, mid);
        let (p2, v2, t2) = choose|picked: Net<C>, events: Seq<HighSeamEvent>, told: Net<C>|
            #[trigger]
            mid.round_by(index, picked, events, told, next);
        lemma_gathered_once(last, mid, index, picked, p2);
        lemma_noted_once(picked, p2, index, events, after, v2, t2);
    }
}

/// Nets that are the same react the same.
pub proof fn lemma_reacted_once<C: HighSeamCore>(
    a: Net<C>,
    b: Net<C>,
    index: int,
    call: SeamCall,
    one: Net<C>,
    other: Net<C>,
)
    requires
        is_deterministic_seam::<C>(),
        a.same(b),
        a.is_manned(),
        0 <= index < a.seams.len(),
        a.reacted(index, call, one),
        b.reacted(index, call, other),
    ensures
        one.same(other),
        one.is_manned(),
{
    let c1 = choose|called: Net<C>| #[trigger]
        a.called(index, call, called) && called.settled(index, one);
    let c2 = choose|called: Net<C>| #[trigger]
        b.called(index, call, called) && called.settled(index, other);
    lemma_called_once(a, b, index, call, c1, c2);
    let (n1, l1, p1, v1) = choose|
        n: nat,
        last: Net<C>,
        picked: Net<C>,
        events: Seq<HighSeamEvent>,
    | #[trigger]
        c1.settled_by(index, n, last, picked, events, one);
    let (n2, l2, p2, v2) = choose|
        n: nat,
        last: Net<C>,
        picked: Net<C>,
        events: Seq<HighSeamEvent>,
    | #[trigger]
        c2.settled_by(index, n, last, picked, events, other);
    assert(c2.same(c1)) by {
        assert forall|i: int| 0 <= i < c2.seams.len() implies (#[trigger] c2.seams[i]).same(
            c1.seams[i],
        ) by {
            assert(c1.seams[i].same(c2.seams[i]));
        }
    }
    lemma_no_more_rounds(c1, c2, index, n1, l1, p1, v1, one, n2, l2);
    lemma_no_more_rounds(c2, c1, index, n2, l2, p2, v2, other, n1, l1);
    lemma_rounds_once(c1, c2, index, n1, l1, l2);
    lemma_gathered_once(l1, l2, index, p1, p2);
    lemma_noted_once(p1, p2, index, v1, one, v2, other);
}

/// What changes in the view alone keeps nets the same.
proof fn lemma_with_view_same<C: HighSeamCore>(a: Net<C>, b: Net<C>, view: NetView)
    requires
        a.same(b),
    ensures
        a.with_view(view).same(b.with_view(view)),
{
    let x = a.with_view(view);
    let y = b.with_view(view);
    assert forall|i: int| 0 <= i < x.seams.len() implies (#[trigger] x.seams[i]).same(
        y.seams[i],
    ) by {
        assert(a.seams[i].same(b.seams[i]));
    }
}

proof fn lemma_timers_once<C: HighSeamCore>(
    a: Net<C>,
    b: Net<C>,
    n: int,
    one: Net<C>,
    other: Net<C>,
)
    requires
        is_deterministic_seam::<C>(),
        a.same(b),
        a.is_manned(),
        n <= a.seams.len(),
        a.timers_fired(n, one),
        b.timers_fired(n, other),
    ensures
        one.same(other),
        one.is_manned(),
    decreases n,
{
    if n > 0 {
        let m1 = choose|mid: Net<C>|
            a.timers_fired(n - 1, mid) && #[trigger] mid.timer_fired(n - 1, one);
        let m2 = choose|mid: Net<C>|
            b.timers_fired(n - 1, mid) && #[trigger] mid.timer_fired(n - 1, other);
        lemma_timers_once(a, b, n - 1, m1, m2);
        lemma_timers_same(a, n - 1, m1);
        if m1.view.nodes[n - 1].up {
            lemma_reacted_once(m1, m2, n - 1, SeamCall::Timer, one, other);
        }
    }
}

proof fn lemma_woke_once<C: HighSeamCore>(
    a: Net<C>,
    b: Net<C>,
    woken: Set<int>,
    n: int,
    one: Net<C>,
    other: Net<C>,
)
    requires
        is_deterministic_seam::<C>(),
        a.same(b),
        a.is_manned(),
        n <= a.seams.len(),
        a.all_woke(woken, n, one),
        b.all_woke(woken, n, other),
    ensures
        one.same(other),
        one.is_manned(),
    decreases n,
{
    if n > 0 {
        let m1 = choose|mid: Net<C>|
            a.all_woke(woken, n - 1, mid) && #[trigger] mid.woke(woken, n - 1, one);
        let m2 = choose|mid: Net<C>|
            b.all_woke(woken, n - 1, mid) && #[trigger] mid.woke(woken, n - 1, other);
        lemma_woke_once(a, b, woken, n - 1, m1, m2);
        lemma_woke_same(a, woken, n - 1, m1);
        if woken.contains(n - 1) {
            lemma_reacted_once(m1, m2, n - 1, SeamCall::Activity, one, other);
        }
    }
}

proof fn lemma_datagram_once<C: HighSeamCore>(
    a: Net<C>,
    b: Net<C>,
    from: SocketAddr,
    to: SocketAddr,
    bytes: Seq<u8>,
    one: Net<C>,
    other: Net<C>,
)
    requires
        is_deterministic_seam::<C>(),
        a.same(b),
        a.is_manned(),
        a.view.names_wf(),
        a.datagram_passed(from, to, bytes, one),
        b.datagram_passed(from, to, bytes, other),
    ensures
        one.same(other),
        one.is_manned(),
{
    let (dropped, drawn) = a.view.drop_drawn();
    match drawn.up_at(to) {
        Some(target) if !dropped => {
            assert(drawn.by_addr.dom().contains(to));
            if drawn.by_addr.dom().contains(from) {
                lemma_connected_same(drawn, drawn.by_addr[from] as int, target as int);
            }
            let ready = drawn.dialed_on_demand(from, target as int);
            lemma_with_view_same(a, b, ready);
            lemma_reacted_once(
                a.with_view(ready),
                b.with_view(ready),
                target as int,
                SeamCall::Datagram { from, bytes },
                one,
                other,
            );
        },
        _ => {
            lemma_with_view_same(a, b, drawn);
        },
    }
}

proof fn lemma_queue_once<C: HighSeamCore>(
    a: Net<C>,
    b: Net<C>,
    from: SocketAddr,
    queue: Seq<(SocketAddr, Seq<u8>)>,
    one: Net<C>,
    other: Net<C>,
)
    requires
        is_deterministic_seam::<C>(),
        a.same(b),
        a.is_manned(),
        a.view.names_wf(),
        a.queue_passed(from, queue, one),
        b.queue_passed(from, queue, other),
    ensures
        one.same(other),
        one.is_manned(),
    decreases queue.len(),
{
    if queue.len() > 0 {
        let (to, bytes) = queue.last();
        let m1 = choose|mid: Net<C>|
            a.queue_passed(from, queue.drop_last(), mid) && #[trigger] mid.datagram_passed(
                from,
                to,
                bytes,
                one,
            );
        let m2 = choose|mid: Net<C>|
            b.queue_passed(from, queue.drop_last(), mid) && #[trigger] mid.datagram_passed(
                from,
                to,
                bytes,
                other,
            );
        lemma_queue_once(a, b, from, queue.drop_last(), m1, m2);
        lemma_queue_same(a, from, queue.drop_last(), m1);
        lemma_datagram_once(m1, m2, from, to, bytes, one, other);
    }
}

proof fn lemma_queues_once<C: HighSeamCore>(
    a: Net<C>,
    b: Net<C>,
    queues: Seq<Seq<(SocketAddr, Seq<u8>)>>,
    one: Net<C>,
    other: Net<C>,
)
    requires
        is_deterministic_seam::<C>(),
        a.same(b),
        a.is_manned(),
        a.view.names_wf(),
        a.queues_passed(queues, one),
        b.queues_passed(queues, other),
    ensures
        one.same(other),
        one.is_manned(),
    decreases queues.len(),
{
    if queues.len() > 0 {
        let from = a.view.nodes[queues.len() - 1].addr;
        let m1 = choose|mid: Net<C>|
            a.queues_passed(queues.drop_last(), mid) && #[trigger] mid.queue_passed(
                from,
                queues.last(),
                one,
            );
        let m2 = choose|mid: Net<C>|
            b.queues_passed(queues.drop_last(), mid) && #[trigger] mid.queue_passed(
                from,
                queues.last(),
                other,
            );
        lemma_queues_once(a, b, queues.drop_last(), m1, m2);
        lemma_queues_same(a, queues.drop_last(), m1);
        lemma_queue_once(m1, m2, from, queues.last(), one, other);
    }
}

/// Nets that are the same are the same one tick later.
pub proof fn law_tick_deterministic<C: HighSeamCore>(
    a: Net<C>,
    b: Net<C>,
    one: Net<C>,
    other: Net<C>,
)
    requires
        is_deterministic_seam::<C>(),
        a.same(b),
        a.is_manned(),
        a.view.wf(),
        a.ticked(one),
        b.ticked(other),
    ensures
        one.same(other),
        one.is_manned(),
{
    let n = a.view.nodes.len() as int;
    let (f1, p1, s1) = choose|fired: Net<C>, passed: Net<C>, streamed: Net<C>| #[trigger]
        a.ticked_by(fired, passed, streamed, one);
    let (f2, p2, s2) = choose|fired: Net<C>, passed: Net<C>, streamed: Net<C>| #[trigger]
        b.ticked_by(fired, passed, streamed, other);
    let cleared = a.view.cleared();
    lemma_with_view_same(a, b, cleared);
    lemma_timers_once(a.with_view(cleared), b.with_view(cleared), n, f1, f2);
    lemma_timers_same(a.with_view(cleared), n, f1);
    lemma_queues_once(f1, f2, a.view.queues(), p1, p2);
    lemma_queues_same(f1, a.view.queues(), p1);
    let (arrived, woken) = p1.view.ops_arrived(a.view.ops);
    lemma_ops_same(p1.view, a.view.ops);
    lemma_with_view_same(p1, p2, arrived);
    lemma_woke_once(p1.with_view(arrived), p2.with_view(arrived), woken, n, s1, s2);
    lemma_woke_same(p1.with_view(arrived), woken, n, s1);
    let (landed, met) = s1.view.dials_arrived(a.view.dials);
    lemma_dials_same(s1.view, a.view.dials);
    lemma_with_view_same(s1, s2, landed);
    lemma_woke_once(s1.with_view(landed), s2.with_view(landed), met, n, one, other);
}

/// A node put into nets that are the same leaves them the same.
pub proof fn law_join_deterministic<C: HighSeamCore>(
    a: Net<C>,
    b: Net<C>,
    core: C,
    one: Net<C>,
    other: Net<C>,
)
    requires
        a.same(b),
        a.is_manned(),
        a.joined(core, one),
        b.joined(core, other),
    ensures
        one.same(other),
        one.is_manned(),
{
    assert forall|i: int| 0 <= i < one.seams.len() implies (#[trigger] one.seams[i]).same(
        other.seams[i],
    ) by {
        if i < a.seams.len() {
            assert(one.seams.drop_last()[i] == one.seams[i]);
            assert(other.seams.drop_last()[i] == other.seams[i]);
            assert(a.seams[i].same(b.seams[i]));
        } else {
            assert(outbox_view(one.seams[i].env.outbox@) =~= outbox_view(
                other.seams[i].env.outbox@,
            ));
        }
    }
}

proof fn lemma_run_once<C: HighSeamCore>(
    a: Net<C>,
    b: Net<C>,
    count: nat,
    one: Net<C>,
    other: Net<C>,
)
    requires
        is_deterministic_seam::<C>(),
        a.same(b),
        a.is_manned(),
        a.ran_for(count, one),
        b.ran_for(count, other),
    ensures
        one.same(other),
        one.is_manned(),
    decreases count,
{
    if count > 0 {
        let m1 = choose|mid: Net<C>|
            a.ran_for((count - 1) as nat, mid) && mid.view.wf() && #[trigger] mid.ticked(one);
        let m2 = choose|mid: Net<C>|
            b.ran_for((count - 1) as nat, mid) && mid.view.wf() && #[trigger] mid.ticked(other);
        lemma_run_once(a, b, (count - 1) as nat, m1, m2);
        law_tick_deterministic(m1, m2, one, other);
    }
}

/// Keys in order are determined by which they are.
proof fn lemma_keys_once(a: Seq<Pubkey>, b: Seq<Pubkey>)
    requires
        forall|i: int, j: int| 0 <= i < j < a.len() ==> a[i].rank() < a[j].rank(),
        forall|i: int, j: int| 0 <= i < j < b.len() ==> b[i].rank() < b[j].rank(),
        forall|p: Pubkey| #[trigger] a.contains(p) <==> b.contains(p),
    ensures
        a == b,
    decreases a.len(),
{
    if a.len() == 0 {
        if b.len() > 0 {
            assert(b.contains(b[0]));
            assert(a.contains(b[0]));
        }
        assert(a =~= b);
    } else {
        let m = a.len() - 1;
        let n = b.len() - 1;
        assert(a.contains(a[m]));
        assert(b.contains(a[m]));
        assert(b.contains(b[n]) && a.contains(b[n]));
        let i = choose|i: int| 0 <= i < b.len() && b[i] == a[m];
        let j = choose|j: int| 0 <= j < a.len() && a[j] == b[n];
        assert(a[m] == b[n]) by {
            Pubkey::rank_injective(a[m], b[n]);
        }
        assert forall|p: Pubkey| #[trigger]
            a.drop_last().contains(p) <==> b.drop_last().contains(p) by {
            if a.drop_last().contains(p) {
                let k = choose|k: int| 0 <= k < m && a.drop_last()[k] == p;
                assert(a[k] == p);
                assert(a.contains(p));
                assert(a.contains(p) && b.contains(p));
                let l = choose|l: int| 0 <= l < b.len() && b[l] == p;
                assert(a[k].rank() < a[m].rank());
                assert(b.drop_last()[l] == p);
            }
            if b.drop_last().contains(p) {
                let k = choose|k: int| 0 <= k < n && b.drop_last()[k] == p;
                assert(b[k] == p);
                assert(b.contains(p));
                assert(a.contains(p) && b.contains(p));
                let l = choose|l: int| 0 <= l < a.len() && a[l] == p;
                assert(b[k].rank() < b[n].rank());
                assert(a.drop_last()[l] == p);
            }
        }
        lemma_keys_once(a.drop_last(), b.drop_last());
        assert(a =~= a.drop_last().push(a[m]));
        assert(b =~= b.drop_last().push(b[n]));
    }
}

proof fn lemma_record_once<C: HighSeamCore>(
    a: Net<C>,
    b: Net<C>,
    index: int,
    one: Seq<u8>,
    other: Seq<u8>,
)
    requires
        is_deterministic_seam::<C>(),
        a.same(b),
        0 <= index < a.seams.len(),
        record_of(a, index, one),
        record_of(b, index, other),
    ensures
        one == other,
{
    let (v1, p1, d1, i1) = choose|
        adverts: Seq<AdvertSummary>,
        peers: Seq<Pubkey>,
        dropped: u64,
        invalid: u64,
    | #[trigger]
        record_by(a, index, adverts, peers, dropped, invalid, one);
    let (v2, p2, d2, i2) = choose|
        adverts: Seq<AdvertSummary>,
        peers: Seq<Pubkey>,
        dropped: u64,
        invalid: u64,
    | #[trigger]
        record_by(b, index, adverts, peers, dropped, invalid, other);
    assert(a.seams[index].same(b.seams[index]));
    let core = a.seams[index].core;
    assert(core.shows(a.view.now(), v1) && core.shows(a.view.now(), v2));
    assert(core.counts_dropped(d1) && core.counts_dropped(d2));
    assert(core.counts_invalid(i1) && core.counts_invalid(i2));
    lemma_keys_once(p1, p2);
}

/// The high seam is a function of its seed: nets that are the same, as two new
/// ones with one seed and the same cores are, have the same digest after the
/// same count of ticks.
pub proof fn law_high_seam_deterministic<C: HighSeamCore>(
    a: Net<C>,
    b: Net<C>,
    count: nat,
    one: Net<C>,
    other: Net<C>,
    d1: Seq<char>,
    d2: Seq<char>,
)
    requires
        is_deterministic_seam::<C>(),
        a.same(b),
        a.is_manned(),
        a.ran_for(count, one),
        b.ran_for(count, other),
        is_digest(one, d1),
        is_digest(other, d2),
    ensures
        one.same(other),
        d1 == d2,
{
    lemma_run_once(a, b, count, one, other);
    let r1 = choose|records: Seq<Seq<u8>>|
        records_of(one, records) && d1 == hex_of(#[trigger] chained(records));
    let r2 = choose|records: Seq<Seq<u8>>|
        records_of(other, records) && d2 == hex_of(#[trigger] chained(records));
    assert forall|i: int| 0 <= i < r1.len() implies r1[i] == r2[i] by {
        lemma_record_once(one, other, i, r1[i], r2[i]);
    }
    assert(r1 =~= r2);
}

} // verus!
