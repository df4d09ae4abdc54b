//! Canned scenarios. Each is a function of its seed; the hash of its trace is
//! the witness that a run was reproduced.

use std::collections::BTreeSet;
use vstd::prelude::*;
use crate::addr::SocketAddr;
use crate::codec::{bytes_eq, bytes_views};
use crate::digest::{hash_bytes, hash_of};
use crate::overlay::classify::{class_of, classify_observations, NatClass, TaggedObservation};
use crate::overlay::env::SocketId;
use crate::overlay::quic::OverlayQuicTransport;
use crate::overlay::service::{ConfigView, OverlayConfig, OverlayCore, OverlayMode};
use crate::overlay::sim::nat_box::{
    base_config,
    Allocator,
    Filtering,
    FirewallConfig,
    MappingKey,
    NatConfig,
    NatStats,
};
use crate::overlay::sim::net::{LinkParams, Probability};
use crate::overlay::sim::quic_likeness::{
    law_quic_transport_deterministic, quic_likeness, QuicLikeness,
};
use crate::overlay::sim::trace::{hex_of, Printing, TraceEvent, TraceView};
use crate::overlay::sim::likeness::{
    law_run_deterministic, lemma_joined_alike, lemma_reacted_alike, lemma_world_changed, Likeness,
};
use crate::overlay::sim::world::{
    law_probe_run_deterministic, lemma_ran_len, lemma_routed, lemma_with_probe, nats_wf, CallView,
    HostId, HostView, KindView, Machine, NodeOptions, OptionsView, Sim, SimWorld, WorldView,
    MAX_HOSTS,
};
use crate::overlay::transport::{addressed, OverlayTransport};
use crate::text::{ascii_chars, decimal, decimal_of, lit, put_text, same_text};
use crate::time::{sat_u64, Duration};
use crate::types::PACKET_DATA_SIZE;

verus! {

/// What scenarios are run with: the machines of their nodes, and the shreds
/// that these exchange. The relations say what a call of each method may come
/// to; they are the kit's own, and any holds of a kit that does not say
/// otherwise.
pub trait ScenarioKit {
    type Core: OverlayCore;

    type Transport: OverlayTransport;

    /// Asked for a core at `now_nanos`, the kit gives `core` and is then `after`.
    open spec fn makes_core(
        &self,
        seed: u64,
        host: HostId,
        config: ConfigView,
        options: OptionsView,
        now_nanos: u64,
        core: Self::Core,
        after: &Self,
    ) -> bool {
        true
    }

    /// Asked for a transport, the kit gives `transport` and is then `after`.
    open spec fn makes_transport(
        &self,
        seed: u64,
        host: HostId,
        options: OptionsView,
        transport: Self::Transport,
        after: &Self,
    ) -> bool {
        true
    }

    /// Asked for shreds, the kit gives `shreds` and is then `after`.
    open spec fn makes_shreds(
        &self,
        seed: u64,
        slot: u64,
        shreds: Seq<Seq<u8>>,
        after: &Self,
    ) -> bool {
        true
    }

    /// The core of `host`, which starts at `now_nanos`.
    fn core_for(
        &mut self,
        seed: u64,
        host: HostId,
        config: OverlayConfig,
        options: &NodeOptions,
        now_nanos: u64,
    ) -> (core: Self::Core)
        ensures
            old(self).makes_core(seed, host, config@, options@, now_nanos, core, &*final(self)),
    ;

    /// The bare transport of `host`.
    fn transport_for(&mut self, seed: u64, host: HostId, options: &NodeOptions) -> (transport:
        Self::Transport)
        ensures
            old(self).makes_transport(seed, host, options@, transport, &*final(self)),
    ;

    /// Shreds of `slot`, signed with a key that derives from the seed.
    fn shreds_for(&mut self, seed: u64, slot: u64) -> (shreds: Vec<Vec<u8>>)
        ensures
            old(self).makes_shreds(seed, slot, bytes_views(shreds@), &*final(self)),
    ;
}

#[derive(Debug)]
pub struct ScenarioOutcome {
    pub name: &'static str,
    pub seed: u64,
    pub trace_hash: String,
    pub events: u64,
    pub ok: bool,
    pub summary: String,
    /// The records of a verbose run, to be printed.
    pub printed: Vec<(u64, TraceEvent)>,
}

/// The digests of shreds.
pub open spec fn hashes_of(shreds: Seq<Seq<u8>>) -> Set<u64> {
    Set::new(|h: u64| exists|i: int| 0 <= i < shreds.len() && h == hash_of(#[trigger] shreds[i]))
}

/// How much of what was wanted has arrived.
#[derive(Clone, Copy, Debug, PartialEq, Eq, Structural)]
pub struct Tally {
    pub got: usize,
    pub want: usize,
    pub converged: bool,
}

/// `tally` counts those of `want` that are among `got`, each shred once.
pub open spec fn tallied(want: Seq<Seq<u8>>, got: Seq<Seq<u8>>, tally: Tally) -> bool {
    let wanted = hashes_of(want);
    let arrived = hashes_of(got);
    &&& wanted.finite()
    &&& tally.want == wanted.len()
    &&& tally.got == wanted.intersect(arrived).len()
    &&& tally.converged == wanted.subset_of(arrived)
}

/// One more shred has one more digest.
proof fn lemma_one_more(all: Seq<Seq<u8>>, i: int)
    requires
        0 <= i < all.len(),
    ensures
        hashes_of(all.take(i + 1)) == hashes_of(all.take(i)).insert(hash_of(all[i])),
{
    let had = all.take(i);
    let next = all.take(i + 1);
    let h = hash_of(all[i]);
    assert(next[i] == all[i]);
    assert forall|x: u64| hashes_of(next).contains(x) <==> hashes_of(had).insert(h).contains(x) by {
        if hashes_of(had).contains(x) {
            let k = choose|k: int| 0 <= k < had.len() && x == hash_of(#[trigger] had[k]);
            assert(next[k] == had[k]);
        }
        if hashes_of(next).contains(x) {
            let k = choose|k: int| 0 <= k < next.len() && x == hash_of(#[trigger] next[k]);
            if k < i {
                assert(had[k] == next[k]);
            }
        }
    }
    assert(hashes_of(next) =~= hashes_of(had).insert(h));
}

fn shred_hashes(shreds: &[Vec<u8>]) -> (r: BTreeSet<u64>)
    ensures
        r@ == hashes_of(bytes_views(shreds@)),
{
    let mut r: BTreeSet<u64> = BTreeSet::new();
    let ghost all = bytes_views(shreds@);
    let mut i: usize = 0;
    assert(r@ =~= hashes_of(all.take(0)));
    while i < shreds.len()
        invariant
            i <= shreds@.len(),
            all == bytes_views(shreds@),
            r@ == hashes_of(all.take(i as int)),
        decreases shreds@.len() - i,
    {
        r.insert(hash_bytes(&shreds[i]));
        proof {
            lemma_one_more(all, i as int);
        }
        i += 1;
    }
    assert(all.take(i as int) =~= all);
    r
}

/// Counts how much of `want` is among `got`.
pub fn tally(want: &[Vec<u8>], got: &[Vec<u8>]) -> (r: Tally)
    ensures
        tallied(bytes_views(want@), bytes_views(got@), r),
{
    let arrived = shred_hashes(got);
    let mut wanted: BTreeSet<u64> = BTreeSet::new();
    let mut n: usize = 0;
    let mut count: usize = 0;
    let ghost all = bytes_views(want@);
    let mut i: usize = 0;
    proof {
        assert(wanted@ =~= hashes_of(all.take(0)));
        assert(wanted@.intersect(arrived@) =~= Set::<u64>::empty());
    }
    while i < want.len()
        invariant
            i <= want@.len(),
            all == bytes_views(want@),
            wanted@ == hashes_of(all.take(i as int)),
            wanted@.finite(),
            n == wanted@.len(),
            n <= i,
            count == wanted@.intersect(arrived@).len(),
            count <= n,
        decreases want@.len() - i,
    {
        let h = hash_bytes(&want[i]);
        let ghost had = wanted@;
        let is_new = wanted.insert(h);
        let here = arrived.contains(&h);
        proof {
            lemma_one_more(all, i as int);
            let both = had.intersect(arrived@);
            if is_new && here {
                assert(had.insert(h).intersect(arrived@) =~= both.insert(h));
            } else {
                assert(had.insert(h).intersect(arrived@) =~= both);
            }
            assert(!is_new ==> had.insert(h) =~= had);
        }
        if is_new {
            n += 1;
            if here {
                count += 1;
            }
        }
        i += 1;
    }
    proof {
        assert(all.take(i as int) =~= all);
        let a = wanted@;
        let b = arrived@;
        if count == n {
            vstd::set_lib::lemma_len_intersect(a, b);
            vstd::set_lib::lemma_subset_equality(a.intersect(b), a);
        } else if a.subset_of(b) {
            assert(a.intersect(b) =~= a);
        }
    }
    Tally { got: count, want: n, converged: count == n }
}

/// What an exchange between two nodes came to.
pub struct ExchangeTally {
    pub sink: Tally,
    pub source: Tally,
}

/// `sink got {}/{} shreds, source got {}/{}`.
pub open spec fn exchange_text(t: ExchangeTally) -> Seq<char> {
    "sink got "@ + number_text(t.sink.got as nat) + "/"@ + number_text(t.sink.want as nat)
        + " shreds, source got "@ + number_text(t.source.got as nat) + "/"@ + number_text(
        t.source.want as nat,
    )
}

pub open spec fn number_text(n: nat) -> Seq<char> {
    ascii_chars(decimal_of(n))
}

/// `sink got {}/{} shreds, source got {}/{}`.
pub fn exchange_summary(t: &ExchangeTally) -> (summary: String)
    ensures
        summary@ == exchange_text(*t),
{
    let mut s = String::new();
    s.append("sink got ");
    s.append(decimal(t.sink.got as u64).as_str());
    s.append("/");
    s.append(decimal(t.sink.want as u64).as_str());
    s.append(" shreds, source got ");
    s.append(decimal(t.source.got as u64).as_str());
    s.append("/");
    s.append(decimal(t.source.want as u64).as_str());
    assert(s@ =~= exchange_text(*t));
    s
}

/// A path MTU at which the largest packets fit into one QUIC datagram.
pub const SHRED_CAPABLE_MTU: u16 = 1_400;

/// What an overlay node has delivered.
pub open spec fn delivered_by(w: WorldView, host: int) -> Seq<Seq<u8>> {
    match w.hosts[host].kind {
        KindView::Overlay(delivered) => delivered,
        _ => Seq::empty(),
    }
}

/// Two nodes after an exchange: what each had to give, and what arrived.
pub struct Exchange<C, T> {
    pub world: SimWorld<C, T>,
    pub from_source: Vec<Vec<u8>>,
    pub from_sink: Vec<Vec<u8>>,
    pub tally: ExchangeTally,
}

/// The world at `sim` once `nanos` more have passed is `after`.
pub open spec fn waited<C: OverlayCore, T: OverlayTransport>(
    sim: Sim<C, T>,
    nanos: int,
    after: Sim<C, T>,
) -> bool {
    sim.ran_to(sat_u64(sim.world.now + nanos), after)
}

/// A shred fed into a node, if it fits a packet, leads to `after`.
pub open spec fn fed_one<C: OverlayCore, T: OverlayTransport>(
    sim: Sim<C, T>,
    host: u32,
    shred: Seq<u8>,
    after: Sim<C, T>,
) -> bool {
    if shred.len() <= PACKET_DATA_SIZE {
        sim.reacted(host, CallView::SourcePacket { payload: shred }, after)
    } else {
        after == sim
    }
}

/// Shreds fed into a node, one after the other, lead to `after`.
pub open spec fn fed<C: OverlayCore, T: OverlayTransport>(
    sim: Sim<C, T>,
    host: u32,
    shreds: Seq<Seq<u8>>,
    after: Sim<C, T>,
) -> bool
    decreases shreds.len(),
{
    if shreds.len() == 0 {
        after == sim
    } else {
        exists|mid: Sim<C, T>|
            fed(sim, host, shreds.drop_last(), mid) && #[trigger] fed_one(
                mid,
                host,
                shreds.last(),
                after,
            )
    }
}

/// Feeds shreds into a node, as far as they fit a packet.
fn inject_all<C: OverlayCore, T: OverlayTransport>(
    world: &mut SimWorld<C, T>,
    host: HostId,
    shreds: &Vec<Vec<u8>>,
)
    requires
        old(world).wf(),
        host.0 < old(world)@.hosts.len(),
        !(old(world)@.hosts[host.0 as int].kind is Probe),
    ensures
        final(world).wf(),
        final(world).printing() == old(world).printing(),
        old(world)@.kept(final(world)@),
        fed(old(world).sim(), host.0, bytes_views(shreds@), final(world).sim()),
{
    let ghost start = world.sim();
    let ghost all = bytes_views(shreds@);
    let mut i: usize = 0;
    assert(all.take(0) =~= Seq::empty());
    while i < shreds.len()
        invariant
            i <= shreds@.len(),
            all == bytes_views(shreds@),
            world.wf(),
            world.printing() == old(world).printing(),
            host.0 < start.world.hosts.len(),
            !(start.world.hosts[host.0 as int].kind is Probe),
            start.world.kept(world@),
            fed(start, host.0, all.take(i as int), world.sim()),
        decreases shreds@.len() - i,
    {
        let ghost before = world.sim();
        assert(start.world.hosts[host.0 as int].kept(world@.hosts[host.0 as int]));
        if shreds[i].len() <= PACKET_DATA_SIZE {
            world.inject_shred(host, &shreds[i]);
        }
        proof {
            let next = all.take(i + 1);
            assert(next.drop_last() =~= all.take(i as int));
            assert(next.last() == shreds@[i as int]@);
            assert(fed_one(before, host.0, next.last(), world.sim()));
            lemma_kept(start.world, before.world, world@);
        }
        i += 1;
    }
    assert(all.take(i as int) =~= all);
}

proof fn lemma_kept(a: WorldView, b: WorldView, c: WorldView)
    requires
        a.kept(b),
        b.kept(c),
    ensures
        a.kept(c),
{
    assert forall|i: int|
        #![trigger c.hosts[i]]
        0 <= i < a.hosts.len() implies a.hosts[i].kept(c.hosts[i]) by {
        assert(a.hosts[i].kept(b.hosts[i]));
        assert(b.hosts[i].kept(c.hosts[i]));
    }
}

/// One round of an exchange: both nodes are fed their shreds, which leads to
/// `first` and then to `second`, and half a second passes.
pub open spec fn round_by<C: OverlayCore, T: OverlayTransport>(
    sim: Sim<C, T>,
    source: Seq<Seq<u8>>,
    sink: Seq<Seq<u8>>,
    first: Sim<C, T>,
    second: Sim<C, T>,
    after: Sim<C, T>,
) -> bool {
    &&& fed(sim, 0, source, first)
    &&& fed(first, 1, sink, second)
    &&& waited(second, 500_000_000, after)
}

pub open spec fn round_done<C: OverlayCore, T: OverlayTransport>(
    sim: Sim<C, T>,
    source: Seq<Seq<u8>>,
    sink: Seq<Seq<u8>>,
    after: Sim<C, T>,
) -> bool {
    exists|first: Sim<C, T>, second: Sim<C, T>| #[trigger]
        round_by(sim, source, sink, first, second, after)
}

/// `n` rounds of an exchange lead to `after`.
pub open spec fn rounds_done<C: OverlayCore, T: OverlayTransport>(
    sim: Sim<C, T>,
    n: nat,
    source: Seq<Seq<u8>>,
    sink: Seq<Seq<u8>>,
    after: Sim<C, T>,
) -> bool
    decreases n,
{
    if n == 0 {
        after == sim
    } else {
        exists|mid: Sim<C, T>|
            rounds_done(sim, (n - 1) as nat, source, sink, mid) && #[trigger] round_done(
                mid,
                source,
                sink,
                after,
            )
    }
}

/// A node with a core of the kit joins the world.
pub open spec fn node_joined<K: ScenarioKit>(
    kit: K,
    sim: Sim<K::Core, K::Transport>,
    options: OptionsView,
    kit_after: K,
    after: Sim<K::Core, K::Transport>,
) -> bool {
    exists|machine: K::Core| #[trigger]
        kit.makes_core(
            sim.world.seed,
            HostId(sim.world.hosts.len() as u32),
            sim.world.config_for(options),
            options,
            sim.world.now,
            machine,
            &kit_after,
        ) && sim.joined(
            options,
            KindView::Overlay(Seq::empty()),
            Machine::Overlay(machine),
            after,
        )
}

/// A host with a bare transport of the kit joins the world.
pub open spec fn transport_joined<K: ScenarioKit>(
    kit: K,
    sim: Sim<K::Core, K::Transport>,
    options: OptionsView,
    kit_after: K,
    after: Sim<K::Core, K::Transport>,
) -> bool {
    exists|machine: K::Transport| #[trigger]
        kit.makes_transport(
            sim.world.seed,
            HostId(sim.world.hosts.len() as u32),
            options,
            machine,
            &kit_after,
        ) && sim.joined(
            options,
            KindView::Transport(Seq::empty()),
            Machine::Transport(machine),
            after,
        )
}

/// 20 to 80 milliseconds of delay; one datagram in twenty is dropped, and one
/// in fifty comes twice.
pub open spec fn lossy_link() -> LinkParams {
    LinkParams {
        delay_min: Duration { nanos: 20_000_000 },
        delay_max: Duration { nanos: 80_000_000 },
        drop_probability: Probability { numerator: 1, denominator: 20 },
        duplicate_probability: Probability { numerator: 1, denominator: 50 },
        ..LinkParams::clean()
    }
}

/// How an exchange goes: the kit and the world after each of its steps, and
/// the shreds of both sides.
pub struct ExchangeRun<K, C, T> {
    pub with_source: K,
    pub with_sink: K,
    pub with_shreds: K,
    pub kit_end: K,
    pub one: Sim<C, T>,
    pub two: Sim<C, T>,
    pub met: Sim<C, T>,
    pub fed: Sim<C, T>,
    pub end: Sim<C, T>,
    pub source: Seq<Seq<u8>>,
    pub sink: Seq<Seq<u8>>,
}

/// Two nodes join, of which the second knows the first. They have 15
/// seconds on a lossy link to meet, are fed their shreds in five rounds,
/// and have ten more seconds.
#[verifier::opaque]
pub open spec fn exchange_goes<K: ScenarioKit>(
    run: ExchangeRun<K, K::Core, K::Transport>,
    kit: K,
    seed: u64,
    sink_nats: Seq<NatConfig>,
    ipv6: bool,
) -> bool {
    let options = OptionsView { mode: OverlayMode::Source, ipv6, ..OptionsView::plain() };
    let peer = run.one.world.hosts[0].sockets[0];
    let lossy = Sim {
        world: WorldView { default_link: lossy_link(), ..run.two.world },
        ..run.two
    };
    &&& node_joined(kit, Sim::empty(seed), options, run.with_source, run.one)
    &&& node_joined(
        run.with_source,
        run.one,
        OptionsView { nats: sink_nats, static_peers: seq![peer], ..options },
        run.with_sink,
        run.two,
    )
    &&& waited(lossy, 15_000_000_000, run.met)
    &&& run.with_sink.makes_shreds(seed, 42, run.source, &run.with_shreds)
    &&& run.with_shreds.makes_shreds(seed, 43, run.sink, &run.kit_end)
    &&& rounds_done(run.met, 5, run.source, run.sink, run.fed)
    &&& waited(run.fed, 10_000_000_000, run.end)
}

/// `r` is what an exchange comes to that takes the kit from `kit` to
/// `kit_after`.
pub open spec fn exchanged<K: ScenarioKit>(
    kit: K,
    kit_after: K,
    seed: u64,
    sink_nats: Seq<NatConfig>,
    ipv6: bool,
    r: Exchange<K::Core, K::Transport>,
) -> bool {
    exists|run: ExchangeRun<K, K::Core, K::Transport>| #[trigger]
        exchange_goes(run, kit, seed, sink_nats, ipv6) && run.kit_end == kit_after && run.end
            == r.world.sim() && run.source == bytes_views(r.from_source@) && run.sink == bytes_views(
            r.from_sink@,
        )
}

/// Two nodes exchange shreds over a link that delays, drops and duplicates.
/// Feeding them in repeats for five rounds, so that redundancy makes up for
/// lost datagrams.
pub fn two_node_exchange<K: ScenarioKit>(
    kit: &mut K,
    seed: u64,
    verbose: bool,
    sink_nats: Vec<NatConfig>,
    ipv6: bool,
) -> (r: Exchange<K::Core, K::Transport>)
    requires
        nats_wf(sink_nats@),
    ensures
        r.world.wf(),
        r.world.printing() == (Printing { verbose, taken: 0 }),
        r.world@.seed == seed,
        r.world@.hosts.len() == 2,
        exchanged(*old(kit), *final(kit), seed, sink_nats@, ipv6, r),
        tallied(bytes_views(r.from_source@), delivered_by(r.world@, 1), r.tally.sink),
        tallied(bytes_views(r.from_sink@), delivered_by(r.world@, 0), r.tally.source),
{
    let ghost nats = sink_nats@;
    let ghost plain = OptionsView { mode: OverlayMode::Source, ipv6, ..OptionsView::plain() };
    let mut world: SimWorld<K::Core, K::Transport> = SimWorld::with_trace(seed, verbose);
    let mut options = NodeOptions::default();
    options.mode = OverlayMode::Source;
    options.ipv6 = ipv6;
    assert(options@ =~= plain);
    let config = world.node_config(&options);
    let machine = kit.core_for(seed, world.next_host(), config, &options, world.now_nanos());
    let ghost with_source = *kit;
    let source = world.add_node(&options, machine);
    let ghost one = world.sim();
    assert(node_joined(*old(kit), Sim::empty(seed), plain, with_source, one));
    let source_addr = world.public_addr(source);

    let mut options = NodeOptions::default();
    options.mode = OverlayMode::Source;
    options.ipv6 = ipv6;
    options.nats = sink_nats;
    let mut peers: Vec<SocketAddr> = Vec::new();
    peers.push(source_addr);
    options.static_peers = peers;
    let ghost hidden = OptionsView { nats, static_peers: seq![source_addr], ..plain };
    assert(options@ =~= hidden);
    let config = world.node_config(&options);
    let machine = kit.core_for(seed, world.next_host(), config, &options, world.now_nanos());
    let ghost with_sink = *kit;
    let sink = world.add_node(&options, machine);
    let ghost two = world.sim();
    assert(node_joined(with_source, one, hidden, with_sink, two));

    world.set_default_link(
        LinkParams::default().delay(Duration::from_millis(20), Duration::from_millis(80)).drop_probability(
            Probability::ratio(1, 20),
        ).duplicate_probability(Probability::ratio(1, 50)),
    );
    assert(world@.default_link == lossy_link());
    world.run_for(Duration::from_secs(15));
    let ghost met = world.sim();

    let from_source = kit.shreds_for(seed, 42);
    let ghost with_shreds = *kit;
    let from_sink = kit.shreds_for(seed, 43);
    let mut round: u64 = 0;
    while round < 5
        invariant
            world.wf(),
            world.printing() == (Printing { verbose, taken: 0 }),
            world@.hosts.len() == 2,
            world@.seed == seed,
            world@.hosts[0].kind is Overlay,
            world@.hosts[1].kind is Overlay,
            source.0 == 0,
            sink.0 == 1,
            round <= 5,
            rounds_done(
                met,
                round as nat,
                bytes_views(from_source@),
                bytes_views(from_sink@),
                world.sim(),
            ),
        decreases 5 - round,
    {
        let ghost before = world.sim();
        inject_all(&mut world, source, &from_source);
        let ghost first = world.sim();
        assert(before.world.hosts[1].kept(first.world.hosts[1]));
        inject_all(&mut world, sink, &from_sink);
        let ghost second = world.sim();
        world.run_for(Duration::from_millis(500));
        proof {
            lemma_kept(before.world, first.world, second.world);
            assert(before.world.hosts[0].kept(second.world.hosts[0]));
            assert(before.world.hosts[1].kept(second.world.hosts[1]));
            assert(second.world.hosts[0].kept(world@.hosts[0]));
            assert(second.world.hosts[1].kept(world@.hosts[1]));
            assert(round_by(
                before,
                bytes_views(from_source@),
                bytes_views(from_sink@),
                first,
                second,
                world.sim(),
            ));
            assert(round_done(before, bytes_views(from_source@), bytes_views(from_sink@), world.sim()));
        }
        round += 1;
    }
    let ghost fed = world.sim();
    world.run_for(Duration::from_secs(10));

    let at_sink = tally(&from_source, world.delivered_shreds(sink));
    let at_source = tally(&from_sink, world.delivered_shreds(source));
    let ghost run = ExchangeRun {
        with_source,
        with_sink,
        with_shreds,
        kit_end: *kit,
        one,
        two,
        met,
        fed,
        end: world.sim(),
        source: bytes_views(from_source@),
        sink: bytes_views(from_sink@),
    };
    assert(exchange_goes(run, *old(kit), seed, nats, ipv6)) by {
        reveal(exchange_goes);
    }
    Exchange {
        world,
        from_source,
        from_sink,
        tally: ExchangeTally { sink: at_sink, source: at_source },
    }
}

/// `outcome` is that of an exchange that came to `t`: it is well when both
/// sides have everything.
pub open spec fn exchange_judged(outcome: ScenarioOutcome, t: ExchangeTally) -> bool {
    outcome.ok == (t.sink.converged && t.source.converged) && outcome.summary@ == exchange_text(t)
}

/// `outcome` belongs to a run under `name` and `seed`.
pub open spec fn outcome_of(outcome: ScenarioOutcome, name: Seq<char>, seed: u64) -> bool {
    outcome.name@ == name && outcome.seed == seed
}

/// The outcome of an exchange.
pub fn exchange_outcome<C: OverlayCore, T: OverlayTransport>(
    name: &'static str,
    result: Exchange<C, T>,
) -> (outcome: ScenarioOutcome)
    requires
        result.world.wf(),
    ensures
        outcome_of(outcome, name@, result.world@.seed),
        traced(outcome, result.world@),
        result.world.printing().taken == 0 ==> prints(outcome, result.world.printing().verbose),
        exchange_judged(outcome, result.tally),
{
    let ok = result.tally.sink.converged && result.tally.source.converged;
    let summary = exchange_summary(&result.tally);
    conclude(name, result.world, ok, summary)
}

/// `outcome` is what the exchange `r` came to: its trace, and how much of each
/// side's shreds the other has delivered.
pub open spec fn exchange_seen<C: OverlayCore, T: OverlayTransport>(
    outcome: ScenarioOutcome,
    r: Exchange<C, T>,
) -> bool {
    &&& traced(outcome, r.world@)
    &&& tallied(bytes_views(r.from_source@), delivered_by(r.world@, 1), r.tally.sink)
    &&& tallied(bytes_views(r.from_sink@), delivered_by(r.world@, 0), r.tally.source)
    &&& exchange_judged(outcome, r.tally)
}

/// `outcome` is what an exchange came to that took the kit from `kit` to
/// `kit_after`.
pub open spec fn exchange_ran<K: ScenarioKit>(
    kit: K,
    kit_after: K,
    sink_nats: Seq<NatConfig>,
    ipv6: bool,
    outcome: ScenarioOutcome,
) -> bool {
    exists|r: Exchange<K::Core, K::Transport>| #[trigger]
        exchange_seen(outcome, r) && exchanged(
            kit,
            kit_after,
            outcome.seed,
            sink_nats,
            ipv6,
            r,
        )
}

/// Two public nodes exchange shreds over a lossy link, and both end up with
/// everything.
pub fn two_node_lossy<K: ScenarioKit>(kit: &mut K, seed: u64, verbose: bool) -> (outcome:
    ScenarioOutcome)
    ensures
        outcome_of(outcome, "two-node-lossy"@, seed),
        exchange_ran(*old(kit), *final(kit), Seq::empty(), false, outcome),
        prints(outcome, verbose),
{
    let result = two_node_exchange(kit, seed, verbose, Vec::new(), false);
    let ghost seen = result;
    assert(exchanged(*old(kit), *kit, seed, Seq::<NatConfig>::empty(), false, seen));
    let outcome = exchange_outcome("two-node-lossy", result);
    assert(exchange_seen(outcome, seen));
    outcome
}

/// [`two_node_lossy`] with every datagram on IPv6.
pub fn two_node_lossy_v6<K: ScenarioKit>(kit: &mut K, seed: u64, verbose: bool) -> (outcome:
    ScenarioOutcome)
    ensures
        outcome_of(outcome, "two-node-lossy-v6"@, seed),
        exchange_ran(*old(kit), *final(kit), Seq::empty(), true, outcome),
        prints(outcome, verbose),
{
    let result = two_node_exchange(kit, seed, verbose, Vec::new(), true);
    let ghost seen = result;
    assert(exchanged(*old(kit), *kit, seed, Seq::<NatConfig>::empty(), true, seen));
    let outcome = exchange_outcome("two-node-lossy-v6", result);
    assert(exchange_seen(outcome, seen));
    outcome
}

/// The NAT in front of the second node of `two-node-nat-sink`.
pub open spec fn sink_nat() -> NatConfig {
    base_config(
        MappingKey::EndpointIndependent,
        Allocator::Preserving,
        Filtering::PortRestricted,
    )
}

/// A node behind a NAT takes part like any other over the one connection that
/// it opens: both sides end up with everything.
pub fn two_node_nat_sink<K: ScenarioKit>(kit: &mut K, seed: u64, verbose: bool) -> (outcome:
    ScenarioOutcome)
    ensures
        outcome_of(outcome, "two-node-nat-sink"@, seed),
        exchange_ran(*old(kit), *final(kit), seq![sink_nat()], false, outcome),
        prints(outcome, verbose),
{
    let mut nats: Vec<NatConfig> = Vec::new();
    nats.push(NatConfig::port_restricted_cone());
    assert(nats@ =~= seq![sink_nat()]);
    let result = two_node_exchange(kit, seed, verbose, nats, false);
    let ghost seen = result;
    assert(exchanged(*old(kit), *kit, seed, seq![sink_nat()], false, seen));
    let outcome = exchange_outcome("two-node-nat-sink", result);
    assert(exchange_seen(outcome, seen));
    outcome
}

/// What a NAT mapping that is kept alive, or not, is expected to do.
pub open spec fn keepalive_expected(
    keepalive: bool,
    delivered: bool,
    expired_drops: u64,
    no_mapping_drops: u64,
) -> bool {
    if keepalive {
        delivered
    } else {
        !delivered && (expired_drops > 0 || no_mapping_drops > 0)
    }
}

pub open spec fn flag_text(flag: bool) -> Seq<char> {
    if flag {
        "true"@
    } else {
        "false"@
    }
}

/// `delivered_after_idle={} expired_drops={} no_mapping_drops={}`.
pub open spec fn keepalive_text(delivered: bool, expired: u64, no_mapping: u64) -> Seq<char> {
    "delivered_after_idle="@ + flag_text(delivered) + " expired_drops="@ + number_text(
        expired as nat,
    ) + " no_mapping_drops="@ + number_text(no_mapping as nat)
}

fn flag(b: bool) -> (s: &'static str)
    ensures
        s@ == flag_text(b),
{
    if b {
        "true"
    } else {
        "false"
    }
}

/// Whether a NAT did what it was expected to, and the counts in words.
pub fn keepalive_verdict(keepalive: bool, delivered: bool, stats: &NatStats) -> (r: (bool, String))
    ensures
        r.0 == keepalive_expected(
            keepalive,
            delivered,
            stats.expired_drops,
            stats.no_mapping_drops,
        ),
        r.1@ == keepalive_text(delivered, stats.expired_drops, stats.no_mapping_drops),
{
    let ok = if keepalive {
        delivered
    } else {
        !delivered && (stats.expired_drops > 0 || stats.no_mapping_drops > 0)
    };
    let mut s = String::new();
    s.append("delivered_after_idle=");
    s.append(flag(delivered));
    s.append(" expired_drops=");
    s.append(decimal(stats.expired_drops).as_str());
    s.append(" no_mapping_drops=");
    s.append(decimal(stats.no_mapping_drops).as_str());
    assert(s@ =~= keepalive_text(delivered, stats.expired_drops, stats.no_mapping_drops));
    (ok, s)
}

/// `delivered_after_idle={} filtered_drops={}`.
pub open spec fn firewall_text(delivered: bool, drops: u64) -> Seq<char> {
    "delivered_after_idle="@ + flag_text(delivered) + " filtered_drops="@ + number_text(
        drops as nat,
    )
}

/// Whether a firewall did what it was expected to: a flow that is kept alive
/// stays open, and one that is not is filtered. The counts come in words.
pub fn firewall_verdict(keepalive: bool, delivered: bool, drops: u64) -> (r: (bool, String))
    ensures
        r.0 == (if keepalive {
            delivered
        } else {
            !delivered && drops > 0
        }),
        r.1@ == firewall_text(delivered, drops),
{
    let ok = if keepalive {
        delivered
    } else {
        !delivered && drops > 0
    };
    let mut s = String::new();
    s.append("delivered_after_idle=");
    s.append(flag(delivered));
    s.append(" filtered_drops=");
    s.append(decimal(drops).as_str());
    assert(s@ =~= firewall_text(delivered, drops));
    (ok, s)
}

/// What was received from whom.
pub open spec fn received_by(w: WorldView, host: int) -> Seq<(SocketAddr, Seq<u8>)> {
    match w.hosts[host].kind {
        KindView::Transport(received) => received,
        _ => Seq::empty(),
    }
}

/// `payload` is among what was received.
pub open spec fn was_received(received: Seq<(SocketAddr, Seq<u8>)>, payload: Seq<u8>) -> bool {
    exists|i: int| 0 <= i < received.len() && (#[trigger] received[i]).1 == payload
}

/// Whether `payload` is among what was received.
pub fn has_received(received: &[(SocketAddr, Vec<u8>)], payload: &[u8]) -> (r: bool)
    ensures
        r == was_received(addressed(received@), payload@),
{
    let mut i: usize = 0;
    while i < received.len()
        invariant
            i <= received@.len(),
            forall|k: int| 0 <= k < i ==> (#[trigger] received@[k]).1@ != payload@,
        decreases received@.len() - i,
    {
        if bytes_eq(&received[i].1, payload) {
            proof {
                assert(addressed(received@)[i as int].1 == payload@);
            }
            return true;
        }
        i += 1;
    }
    proof {
        if was_received(addressed(received@), payload@) {
            let k = choose|k: int|
                0 <= k < addressed(received@).len() && (#[trigger] addressed(received@)[k]).1
                    == payload@;
            assert(received@[k].1@ == payload@);
        }
    }
    false
}

/// How a connection idles: the kit and the world after each of the steps.
pub struct IdleRun<K, C, T> {
    pub with_public: K,
    pub kit_end: K,
    pub one: Sim<C, T>,
    pub two: Sim<C, T>,
    pub dialed: Sim<C, T>,
    pub met: Sim<C, T>,
    pub silent: Sim<C, T>,
    pub returned: Sim<C, T>,
    pub end: Sim<C, T>,
}

/// The options of a host that idles.
pub open spec fn idle_options(keepalive: bool, ipv6: bool) -> OptionsView {
    OptionsView {
        keep_alive_interval: if keepalive {
            Some(Duration { nanos: 10_000_000_000 })
        } else {
            None
        },
        max_idle_timeout: if keepalive {
            Some(Duration { nanos: 30_000_000_000 })
        } else {
            None
        },
        ipv6,
        ..OptionsView::plain()
    }
}

/// A public host joins, and one that is hidden behind a NAT or a firewall,
/// which sends to it. Where that arrives within five seconds, both fall
/// silent for five minutes; then the public host sends to where it saw the
/// other, and five more seconds pass.
#[verifier::opaque]
pub open spec fn idle_goes<K: ScenarioKit>(
    run: IdleRun<K, K::Core, K::Transport>,
    kit: K,
    seed: u64,
    keepalive: bool,
    nats: Seq<NatConfig>,
    firewall: Option<FirewallConfig>,
) -> bool {
    let options = idle_options(keepalive, firewall is Some);
    let public_addr = run.one.world.hosts[0].sockets[0];
    let received = received_by(run.met.world, 0);
    &&& transport_joined(kit, Sim::empty(seed), options, run.with_public, run.one)
    &&& transport_joined(
        run.with_public,
        run.one,
        OptionsView { nats, firewall, ..options },
        run.kit_end,
        run.two,
    )
    &&& run.two.reacted(
        1,
        CallView::Send { to: public_addr, payload: lit("hello-from-behind-nat"@) },
        run.dialed,
    )
    &&& waited(run.dialed, 5_000_000_000, run.met)
    &&& if received.len() == 0 {
        run.end == run.met
    } else {
        &&& waited(run.met, 300_000_000_000, run.silent)
        &&& run.silent.reacted(
            0,
            CallView::Send { to: received[0].0, payload: lit("after-idle"@) },
            run.returned,
        )
        &&& waited(run.returned, 5_000_000_000, run.end)
    }
}

impl<K: ScenarioKit> IdleRun<K, K::Core, K::Transport> {
    /// The hidden host reached the public one.
    pub open spec fn reached(self) -> bool {
        received_by(self.met.world, 0).len() > 0
    }
}

/// A connection that has idled. `mapping` is where the dialer was seen.
struct IdlePair<C, T> {
    world: SimWorld<C, T>,
    public: HostId,
    hidden: HostId,
    mapping: Option<SocketAddr>,
}

/// `r` is what an idle connection comes to.
spec fn idled<K: ScenarioKit>(
    run: IdleRun<K, K::Core, K::Transport>,
    r: IdlePair<K::Core, K::Transport>,
) -> bool {
    run.end == r.world.sim() && run.reached() == (r.mapping is Some)
}

/// A host that is hidden behind a NAT or a firewall dials a public one, and
/// both fall silent for five minutes. Only keepalives, if there are any, go
/// between them then. Afterwards the public host sends `after-idle` to where it
/// saw the other.
fn idle_and_return<K: ScenarioKit>(
    kit: &mut K,
    seed: u64,
    verbose: bool,
    keepalive: bool,
    nats: Vec<NatConfig>,
    firewall: Option<FirewallConfig>,
) -> (r: IdlePair<K::Core, K::Transport>)
    requires
        nats_wf(nats@),
    ensures
        r.world.wf(),
        r.world.printing() == (Printing { verbose, taken: 0 }),
        r.world@.seed == seed,
        r.world@.hosts.len() == 2,
        r.public.0 == 0,
        r.hidden.0 == 1,
        r.world@.hosts[1].chain.len() == nats@.len(),
        exists|run: IdleRun<K, K::Core, K::Transport>| #[trigger]
            idle_goes(run, *old(kit), seed, keepalive, nats@, firewall) && run.kit_end == *final(kit)
                && idled(run, r),
{
    let ghost chain = nats@;
    let ghost plain = idle_options(keepalive, firewall is Some);
    let interval = if keepalive {
        Some(Duration::from_secs(10))
    } else {
        None
    };
    let idle = if keepalive {
        Some(Duration::from_secs(30))
    } else {
        None
    };
    let mut world: SimWorld<K::Core, K::Transport> = SimWorld::with_trace(seed, verbose);
    let mut options = NodeOptions::default();
    options.keep_alive_interval = interval;
    options.max_idle_timeout = idle;
    options.ipv6 = firewall.is_some();
    assert(options@ =~= plain);
    let machine = kit.transport_for(seed, world.next_host(), &options);
    let ghost with_public = *kit;
    let public = world.add_transport_node(&options, machine);
    let ghost one = world.sim();
    assert(transport_joined(*old(kit), Sim::empty(seed), plain, with_public, one));
    let public_addr = world.public_addr(public);

    let mut options = NodeOptions::default();
    options.keep_alive_interval = interval;
    options.max_idle_timeout = idle;
    options.ipv6 = firewall.is_some();
    options.nats = nats;
    options.firewall = firewall;
    assert(options@ =~= OptionsView { nats: chain, firewall, ..plain });
    let machine = kit.transport_for(seed, world.next_host(), &options);
    let hidden = world.add_transport_node(&options, machine);
    let ghost two = world.sim();
    assert(transport_joined(
        with_public,
        one,
        OptionsView { nats: chain, firewall, ..plain },
        *kit,
        two,
    ));

    let hello = lit_bytes("hello-from-behind-nat");
    world.transport_send(hidden, public_addr, &hello);
    let ghost dialed = world.sim();
    world.run_for(Duration::from_secs(5));
    let ghost met = world.sim();
    let received = world.transport_received(public);
    if received.len() == 0 {
        proof {
            assert(addressed(received@).len() == 0);
            let run = IdleRun {
                with_public,
                kit_end: *kit,
                one,
                two,
                dialed,
                met,
                silent: met,
                returned: met,
                end: met,
            };
            assert(idle_goes(run, *old(kit), seed, keepalive, chain, firewall)) by {
                reveal(idle_goes);
            }
        }
        return IdlePair { world, public, hidden, mapping: None };
    }
    let mapping: SocketAddr = received[0].0;
    assert(received_by(met.world, 0)[0].0 == mapping);

    world.run_for(Duration::from_secs(300));
    let ghost silent = world.sim();

    let back = lit_bytes("after-idle");
    world.transport_send(public, mapping, &back);
    let ghost returned = world.sim();
    world.run_for(Duration::from_secs(5));
    proof {
        let run = IdleRun {
            with_public,
            kit_end: *kit,
            one,
            two,
            dialed,
            met,
            silent,
            returned,
            end: world.sim(),
        };
        assert(idle_goes(run, *old(kit), seed, keepalive, chain, firewall)) by {
            reveal(idle_goes);
        }
    }
    IdlePair { world, public, hidden, mapping: Some(mapping) }
}

/// The bytes of a text.
fn lit_bytes(text: &str) -> (bytes: Vec<u8>)
    ensures
        bytes@ == lit(text@),
{
    let mut bytes: Vec<u8> = Vec::new();
    put_text(&mut bytes, text);
    assert(bytes@ =~= lit(text@));
    bytes
}

/// `outcome` belongs to a run that ended in `w`.
pub open spec fn traced(outcome: ScenarioOutcome, w: WorldView) -> bool {
    &&& w.seed == outcome.seed
    &&& outcome.trace_hash@ == hex_of(w.trace.state)
    &&& outcome.events == w.trace.events
}

/// A verbose run hands out all of its records: replayed, they give the hash
/// and the count of its trace. Any other run hands out none.
pub open spec fn prints(outcome: ScenarioOutcome, verbose: bool) -> bool {
    let replayed = crate::overlay::sim::trace::traced(TraceView::empty(), outcome.printed@);
    if verbose {
        outcome.trace_hash@ == hex_of(replayed.state) && outcome.events == replayed.events
    } else {
        outcome.printed@.len() == 0
    }
}

/// The outcome of a run in which the public host was never reached.
pub open spec fn never_reached(outcome: ScenarioOutcome) -> bool {
    &&& !outcome.ok
    &&& outcome.summary@ == "handshake/datagram never reached the public node"@
}

/// `outcome` is what a run over a NAT came to. Where the public host was
/// reached, it says whether what was sent back after the silence went as
/// expected.
pub open spec fn keepalive_seen<K: ScenarioKit>(
    outcome: ScenarioOutcome,
    keepalive: bool,
    run: IdleRun<K, K::Core, K::Transport>,
) -> bool {
    let w = run.end.world;
    let stats = w.hosts[1].chain[0].stats;
    let delivered = was_received(received_by(w, 1), lit("after-idle"@));
    traced(outcome, w) && if run.reached() {
        outcome.ok == keepalive_expected(
            keepalive,
            delivered,
            stats.expired_drops,
            stats.no_mapping_drops,
        ) && outcome.summary@ == keepalive_text(
            delivered,
            stats.expired_drops,
            stats.no_mapping_drops,
        )
    } else {
        never_reached(outcome)
    }
}

/// The NAT of the keepalive scenario: it forgets idle mappings after a minute.
pub open spec fn forgetful_nat() -> NatConfig {
    NatConfig {
        idle_timeout: Duration { nanos: 60_000_000_000 },
        ..base_config(
            MappingKey::EndpointIndependent,
            Allocator::Preserving,
            Filtering::PortRestricted,
        )
    }
}

/// `outcome` is what a run over a NAT came to that took the kit from `kit` to
/// `kit_after`.
pub open spec fn keepalive_ran<K: ScenarioKit>(
    kit: K,
    kit_after: K,
    keepalive: bool,
    outcome: ScenarioOutcome,
) -> bool {
    exists|run: IdleRun<K, K::Core, K::Transport>| #[trigger]
        idle_goes(run, kit, outcome.seed, keepalive, seq![forgetful_nat()], None) && run.kit_end
            == kit_after && keepalive_seen(outcome, keepalive, run)
}

/// [`keepalive_seen`] for a firewall.
pub open spec fn firewall_seen<K: ScenarioKit>(
    outcome: ScenarioOutcome,
    keepalive: bool,
    run: IdleRun<K, K::Core, K::Transport>,
) -> bool {
    let w = run.end.world;
    let drops = match w.hosts[1].firewall {
        Some(f) => f.stats.filtered_drops,
        None => 0,
    };
    let delivered = was_received(received_by(w, 1), lit("after-idle"@));
    traced(outcome, w) && if run.reached() {
        outcome.ok == (if keepalive {
            delivered
        } else {
            !delivered && drops > 0
        }) && outcome.summary@ == firewall_text(delivered, drops)
    } else {
        never_reached(outcome)
    }
}

/// The firewall of the keepalive scenario: it forgets idle flows after a
/// minute.
pub open spec fn forgetful_firewall() -> FirewallConfig {
    FirewallConfig { idle_timeout: Duration { nanos: 60_000_000_000 } }
}

/// [`keepalive_ran`] for a firewall.
pub open spec fn firewall_ran<K: ScenarioKit>(
    kit: K,
    kit_after: K,
    keepalive: bool,
    outcome: ScenarioOutcome,
) -> bool {
    exists|run: IdleRun<K, K::Core, K::Transport>| #[trigger]
        idle_goes(
            run,
            kit,
            outcome.seed,
            keepalive,
            Seq::empty(),
            Some(forgetful_firewall()),
        ) && run.kit_end == kit_after && firewall_seen(outcome, keepalive, run)
}

/// The outcome of a run that ended in `world`.
fn conclude<C: OverlayCore, T: OverlayTransport>(
    name: &'static str,
    world: SimWorld<C, T>,
    ok: bool,
    summary: String,
) -> (outcome: ScenarioOutcome)
    requires
        world.wf(),
    ensures
        outcome_of(outcome, name@, world@.seed),
        traced(outcome, world@),
        outcome.printed@ == world.printing().waiting(world@.trace.records),
        world.printing().taken == 0 ==> prints(outcome, world.printing().verbose),
        outcome.ok == ok,
        outcome.summary == summary,
{
    proof {
        world.lemma_traced();
        assert(world@.trace.records.skip(0) =~= world@.trace.records);
    }
    let mut world = world;
    ScenarioOutcome {
        name,
        seed: world.seed(),
        trace_hash: world.trace_hash(),
        events: world.trace_events(),
        ok,
        summary,
        printed: world.take_printed(),
    }
}

/// A host behind a NAT that expires idle mappings after 60 seconds holds a
/// connection over a long silence. With keepalives every ten seconds the
/// mapping lives on, and the public side still reaches the host; without them
/// the mapping dies, and what is sent then dies at the NAT.
pub fn keepalive_nat<K: ScenarioKit>(kit: &mut K, seed: u64, verbose: bool, keepalive: bool) -> (outcome:
    ScenarioOutcome)
    ensures
        outcome_of(
            outcome,
            if keepalive {
                "keepalive-nat"@
            } else {
                "keepalive-nat-control"@
            },
            seed,
        ),
        keepalive_ran(*old(kit), *final(kit), keepalive, outcome),
        prints(outcome, verbose),
{
    let name: &'static str = if keepalive {
        "keepalive-nat"
    } else {
        "keepalive-nat-control"
    };
    let mut nats: Vec<NatConfig> = Vec::new();
    nats.push(NatConfig::port_restricted_cone().idle_timeout(Duration::from_secs(60)));
    assert(nats@ =~= seq![forgetful_nat()]);
    let pair = idle_and_return(kit, seed, verbose, keepalive, nats, None);
    let ghost run = choose|run: IdleRun<K, K::Core, K::Transport>| #[trigger]
        idle_goes(run, *old(kit), seed, keepalive, seq![forgetful_nat()], None) && run.kit_end
            == *kit && idled(run, pair);
    if pair.mapping.is_none() {
        let summary = "handshake/datagram never reached the public node".to_string();
        let outcome = conclude(name, pair.world, false, summary);
        assert(keepalive_seen(outcome, keepalive, run));
        return outcome;
    }
    let back = lit_bytes("after-idle");
    let delivered = has_received(pair.world.transport_received(pair.hidden), &back);
    let stats = pair.world.nat_stats(pair.hidden);
    assert(stats@.len() == 1);
    let (ok, summary) = keepalive_verdict(keepalive, delivered, &stats[0]);
    let outcome = conclude(name, pair.world, ok, summary);
    assert(keepalive_seen(outcome, keepalive, run));
    outcome
}

/// [`keepalive_nat`] over IPv6: there is no NAT there, but a firewall whose
/// flows expire like mappings do.
pub fn keepalive_firewall_v6<K: ScenarioKit>(
    kit: &mut K,
    seed: u64,
    verbose: bool,
    keepalive: bool,
) -> (outcome: ScenarioOutcome)
    ensures
        outcome_of(
            outcome,
            if keepalive {
                "keepalive-firewall-v6"@
            } else {
                "keepalive-firewall-v6-control"@
            },
            seed,
        ),
        firewall_ran(*old(kit), *final(kit), keepalive, outcome),
        prints(outcome, verbose),
{
    let name: &'static str = if keepalive {
        "keepalive-firewall-v6"
    } else {
        "keepalive-firewall-v6-control"
    };
    let firewall = FirewallConfig { idle_timeout: Duration::from_secs(60) };
    assert(firewall == forgetful_firewall());
    let none: Vec<NatConfig> = Vec::new();
    assert(none@ =~= Seq::empty());
    let pair = idle_and_return(kit, seed, verbose, keepalive, none, Some(firewall));
    let ghost run = choose|run: IdleRun<K, K::Core, K::Transport>| #[trigger]
        idle_goes(
            run,
            *old(kit),
            seed,
            keepalive,
            Seq::empty(),
            Some(forgetful_firewall()),
        ) && run.kit_end == *kit && idled(run, pair);
    if pair.mapping.is_none() {
        let summary = "handshake/datagram never reached the public node".to_string();
        let outcome = conclude(name, pair.world, false, summary);
        assert(firewall_seen(outcome, keepalive, run));
        return outcome;
    }
    let back = lit_bytes("after-idle");
    let delivered = has_received(pair.world.transport_received(pair.hidden), &back);
    let drops = pair.world.firewall_drops(pair.hidden);
    let (ok, summary) = firewall_verdict(keepalive, delivered, drops);
    let outcome = conclude(name, pair.world, ok, summary);
    assert(firewall_seen(outcome, keepalive, run));
    outcome
}

/// A NAT, or none, and the class that its observers are to find.
pub struct ClassifyCase {
    pub name: &'static str,
    pub preset: Option<NatConfig>,
    pub expected: NatClass,
}

/// A case as the contracts speak of it.
pub struct CaseView {
    pub name: Seq<char>,
    pub preset: Option<NatConfig>,
    pub expected: NatClass,
}

pub open spec fn case_views(cases: Seq<ClassifyCase>) -> Seq<CaseView> {
    Seq::new(
        cases.len(),
        |i: int|
            CaseView {
                name: cases[i].name@,
                preset: cases[i].preset,
                expected: cases[i].expected,
            },
    )
}

/// Each kind of NAT, and what it is to be found as.
#[verifier::opaque]
pub open spec fn case_list() -> Seq<CaseView> {
    seq![
        CaseView { name: "public"@, preset: None, expected: NatClass::Public },
        CaseView {
            name: "full-cone"@,
            preset: Some(
                base_config(
                    MappingKey::EndpointIndependent,
                    Allocator::Preserving,
                    Filtering::EndpointIndependent,
                ),
            ),
            expected: NatClass::EndpointIndependent,
        },
        CaseView {
            name: "port-restricted-cone"@,
            preset: Some(
                base_config(
                    MappingKey::EndpointIndependent,
                    Allocator::Preserving,
                    Filtering::PortRestricted,
                ),
            ),
            expected: NatClass::EndpointIndependent,
        },
        CaseView {
            name: "field-note-fiber"@,
            preset: Some(
                base_config(
                    MappingKey::DstPort,
                    Allocator::Sequential { stride: 1 },
                    Filtering::PortRestricted,
                ),
            ),
            expected: NatClass::PortDependent,
        },
        CaseView {
            name: "symmetric-sequential"@,
            preset: Some(
                base_config(
                    MappingKey::DstAddrPort,
                    Allocator::Sequential { stride: 1 },
                    Filtering::PortRestricted,
                ),
            ),
            expected: NatClass::Symmetric,
        },
        CaseView {
            name: "symmetric-random"@,
            preset: Some(
                base_config(
                    MappingKey::DstAddrPort,
                    Allocator::Random,
                    Filtering::PortRestricted,
                ),
            ),
            expected: NatClass::Symmetric,
        },
        CaseView {
            name: "symmetric-preserving"@,
            preset: Some(
                base_config(
                    MappingKey::DstAddrPort,
                    Allocator::Preserving,
                    Filtering::PortRestricted,
                ),
            ),
            expected: NatClass::EndpointIndependent,
        },
    ]
}

/// What each kind of NAT is to be found as. A symmetric NAT that preserves
/// ports shows the internal port everywhere, and cannot be told from one with
/// a single mapping before two sockets want one port.
pub fn classify_cases() -> (cases: Vec<ClassifyCase>)
    ensures
        case_views(cases@) == case_list(),
        cases_wf(cases@),
{
    let mut cases: Vec<ClassifyCase> = Vec::new();
    cases.push(ClassifyCase { name: "public", preset: None, expected: NatClass::Public });
    cases.push(
        ClassifyCase {
            name: "full-cone",
            preset: Some(NatConfig::full_cone()),
            expected: NatClass::EndpointIndependent,
        },
    );
    cases.push(
        ClassifyCase {
            name: "port-restricted-cone",
            preset: Some(NatConfig::port_restricted_cone()),
            expected: NatClass::EndpointIndependent,
        },
    );
    cases.push(
        ClassifyCase {
            name: "field-note-fiber",
            preset: Some(NatConfig::field_note_fiber()),
            expected: NatClass::PortDependent,
        },
    );
    cases.push(
        ClassifyCase {
            name: "symmetric-sequential",
            preset: Some(NatConfig::symmetric_sequential(1)),
            expected: NatClass::Symmetric,
        },
    );
    cases.push(
        ClassifyCase {
            name: "symmetric-random",
            preset: Some(NatConfig::symmetric_random()),
            expected: NatClass::Symmetric,
        },
    );
    cases.push(
        ClassifyCase {
            name: "symmetric-preserving",
            preset: Some(NatConfig::symmetric_preserving()),
            expected: NatClass::EndpointIndependent,
        },
    );
    proof {
        reveal(case_list);
        assert(case_views(cases@) =~= case_list());
    }
    cases
}

pub open spec fn cases_wf(cases: Seq<ClassifyCase>) -> bool {
    forall|i: int|
        0 <= i < cases.len() ==> ((#[trigger] cases[i]).preset matches Some(c) ==> c.wf())
}

/// The NAT chain of a preset.
pub open spec fn chain_of(preset: Option<NatConfig>) -> Seq<NatConfig> {
    match preset {
        Some(config) => seq![config],
        None => Seq::empty(),
    }
}

/// A world with one more probe, bound to `port`.
pub open spec fn with_probe(w: WorldView, nats: Seq<NatConfig>, port: u16) -> WorldView {
    let added = w.with_host(nats, false, None, None, None, None, KindView::Probe(Seq::empty()));
    let id = w.hosts.len() as int;
    let host = added.hosts[id];
    WorldView {
        hosts: added.hosts.update(
            id,
            HostView {
                sockets: host.sockets.push(SocketAddr { ip: host.lan_ip, port }),
                ..host
            },
        ),
        ..added
    }
}

/// A world with public probes on `ports`.
pub open spec fn with_helpers(w: WorldView, ports: Seq<u16>) -> WorldView
    decreases ports.len(),
{
    if ports.len() == 0 {
        w
    } else {
        with_probe(with_helpers(w, ports.drop_last()), Seq::empty(), ports.last())
    }
}

/// The ports of the helpers: three share one, and two have others.
pub open spec fn helper_ports() -> Seq<u16> {
    seq![3478u16, 3478, 3478, 5321, 7443]
}

/// A world once host `client` has sent `observe-me` to the first socket of each
/// of the `n` hosts after it.
pub open spec fn observed(w: WorldView, client: int, n: nat) -> WorldView
    decreases n,
{
    if n == 0 {
        w
    } else {
        let before = observed(w, client, (n - 1) as nat);
        before.routed(
            client as u32,
            before.hosts[client].sockets[0],
            before.hosts[client + n].sockets[0],
            lit("observe-me"@),
        )
    }
}

/// Where the `n` hosts after `client` saw datagrams come from.
pub open spec fn observations(w: WorldView, client: int, n: nat) -> Seq<TaggedObservation>
    decreases n,
{
    if n == 0 {
        Seq::empty()
    } else {
        let host = w.hosts[client + n];
        let received = match host.kind {
            KindView::Probe(received) => received,
            _ => Seq::empty(),
        };
        observations(w, client, (n - 1) as nat) + Seq::new(
            received.len(),
            |i: int| TaggedObservation { observer: host.sockets[0], mapping: received[i].src },
        )
    }
}

/// A world with a probe behind a preset and helpers, once the probe has sent to
/// each of them.
pub open spec fn classify_setup(w: WorldView, preset: Option<NatConfig>) -> WorldView {
    let client = w.hosts.len() as int;
    observed(
        with_helpers(with_probe(w, chain_of(preset), 51_000), helper_ports()),
        client,
        5,
    )
}

/// A world leads to `after` by `target`, whatever runs in it.
pub open spec fn passes<C: OverlayCore, T: OverlayTransport>(
    w: WorldView,
    target: u64,
    after: WorldView,
) -> bool {
    exists|start: Sim<C, T>, end: Sim<C, T>| #[trigger]
        start.ran_to(target, end) && start.world == w && end.world == after
}

/// `after` is the world one second after a probe behind a preset has sent to
/// the helpers, and `class` is what their observations speak for.
#[verifier::opaque]
pub open spec fn classified<C: OverlayCore, T: OverlayTransport>(
    w: WorldView,
    preset: Option<NatConfig>,
    class: Option<NatClass>,
    after: WorldView,
) -> bool {
    let client = w.hosts.len() as int;
    &&& passes::<C, T>(classify_setup(w, preset), sat_u64(w.now + 1_000_000_000), after)
    &&& class == class_of(after.hosts[client].sockets[0], observations(after, client, 5))
}

/// Puts in a probe and binds its first socket.
fn add_bound_probe<C: OverlayCore, T: OverlayTransport>(
    world: &mut SimWorld<C, T>,
    nats: &Vec<NatConfig>,
    port: u16,
) -> (host: HostId)
    requires
        old(world).wf(),
        old(world)@.hosts.len() < MAX_HOSTS,
        nats_wf(nats@),
    ensures
        final(world).wf(),
        final(world).printing() == old(world).printing(),
        host.0 == old(world)@.hosts.len(),
        final(world)@ == with_probe(old(world)@, nats@, port),
{
    let host = world.add_probe(nats);
    let _ = world.probe_bind(host, port);
    assert(world@ =~= with_probe(old(world)@, nats@, port));
    host
}

/// What the helpers can tell of the NAT in front of a probe. They share one
/// port at three addresses, so that differences between addresses show, and
/// have two other ports, so that differences between ports show.
pub fn classify_one<C: OverlayCore, T: OverlayTransport>(
    world: &mut SimWorld<C, T>,
    preset: Option<NatConfig>,
) -> (class: Option<NatClass>)
    requires
        old(world).wf(),
        old(world)@.hosts.len() + 6 <= MAX_HOSTS,
        preset matches Some(config) ==> config.wf(),
    ensures
        final(world).wf(),
        final(world).printing() == old(world).printing(),
        final(world)@.hosts.len() == old(world)@.hosts.len() + 6,
        final(world)@.seed == old(world)@.seed,
        classified::<C, T>(old(world)@, preset, class, final(world)@),
{
    let ghost start = world@;
    let mut nats: Vec<NatConfig> = Vec::new();
    if let Some(config) = preset {
        nats.push(config);
    }
    assert(nats@ =~= chain_of(preset));
    let client = add_bound_probe(world, &nats, 51_000);
    let ghost base = world@;
    let ports: [u16; 5] = [3478, 3478, 3478, 5321, 7443];
    assert(ports@ =~= helper_ports());
    assert(ports@.take(0) =~= Seq::empty());
    let none: Vec<NatConfig> = Vec::new();
    let mut i: usize = 0;
    while i < 5
        invariant
            i <= 5,
            world.wf(),
            world.printing() == old(world).printing(),
            none@.len() == 0,
            start.hosts.len() + 6 <= MAX_HOSTS,
            base == with_probe(start, chain_of(preset), 51_000),
            world@ == with_helpers(base, ports@.take(i as int)),
            world@.hosts.len() == start.hosts.len() + 1 + i,
            world@.seed == start.seed,
            world@.now == start.now,
            forall|k: int|
                start.hosts.len() <= k < world@.hosts.len() ==> (
                #[trigger] world@.hosts[k]).sockets.len() == 1 && world@.hosts[k].kind is Probe,
        decreases 5 - i,
    {
        let ghost before = world@;
        let _ = add_bound_probe(world, &none, ports[i]);
        proof {
            let next = ports@.take(i + 1);
            assert(next.drop_last() =~= ports@.take(i as int));
            assert(next.last() == ports@[i as int]);
            assert(none@ =~= Seq::empty());
            assert forall|k: int| start.hosts.len() <= k < world@.hosts.len() implies (
            #[trigger] world@.hosts[k]).sockets.len() == 1 && world@.hosts[k].kind is Probe by {
                if k < before.hosts.len() {
                    assert(world@.hosts[k] == before.hosts[k]);
                }
            }
        }
        i += 1;
    }
    assert(ports@.take(5) =~= helper_ports());
    let ghost ready = world@;
    let text = lit_bytes("observe-me");
    let mut j: u32 = 0;
    while j < 5
        invariant
            j <= 5,
            world.wf(),
            world.printing() == old(world).printing(),
            client.0 == start.hosts.len(),
            start.hosts.len() + 6 <= MAX_HOSTS,
            text@ == lit("observe-me"@),
            ready.hosts.len() == start.hosts.len() + 6,
            world@ == observed(ready, client.0 as int, j as nat),
            world@.hosts.len() == ready.hosts.len(),
            world@.seed == start.seed,
            world@.now == start.now,
            forall|k: int|
                start.hosts.len() <= k < world@.hosts.len() ==> (
                #[trigger] world@.hosts[k]).sockets.len() == 1 && world@.hosts[k].kind is Probe,
        decreases 5 - j,
    {
        let ghost before = world@;
        let to = world.local_addr(HostId(client.0 + 1 + j));
        world.probe_send(client, SocketId::primary(), to, &text);
        proof {
            assert(world@ == observed(ready, client.0 as int, (j + 1) as nat));
            assert forall|k: int| start.hosts.len() <= k < world@.hosts.len() implies (
            #[trigger] world@.hosts[k]).sockets.len() == 1 && world@.hosts[k].kind is Probe by {
                assert(before.hosts[k].kept(world@.hosts[k]));
            }
        }
        j += 1;
    }
    let ghost sent = world@;
    let ghost before = world.sim();
    world.run_for(Duration::from_secs(1));
    let ghost after = world@;
    proof {
        assert(before.ran_to(after.now, world.sim()));
        assert(passes::<C, T>(sent, after.now, after));
        assert(sent == classify_setup(start, preset));
        assert forall|k: int| start.hosts.len() <= k < after.hosts.len() implies (
        #[trigger] after.hosts[k]).sockets.len() == 1 && after.hosts[k].kind is Probe by {
            assert(sent.hosts[k].kept(after.hosts[k]));
        }
    }
    let mut obs: Vec<TaggedObservation> = Vec::new();
    let mut j: u32 = 0;
    while j < 5
        invariant
            j <= 5,
            world.wf(),
            world.printing() == old(world).printing(),
            world@ == after,
            client.0 == start.hosts.len(),
            after.hosts.len() == start.hosts.len() + 6,
            after.hosts.len() <= MAX_HOSTS,
            obs@ == observations(after, client.0 as int, j as nat),
            forall|k: int|
                start.hosts.len() <= k < after.hosts.len() ==> (
                #[trigger] after.hosts[k]).sockets.len() == 1 && after.hosts[k].kind is Probe,
        decreases 5 - j,
    {
        let helper = HostId(client.0 + 1 + j);
        let observer = world.local_addr(helper);
        let received = world.probe_received(helper);
        let ghost had = obs@;
        let mut k: usize = 0;
        while k < received.len()
            invariant
                k <= received@.len(),
                obs@ == had + Seq::new(
                    k as nat,
                    |x: int| TaggedObservation { observer, mapping: received@[x].src },
                ),
            decreases received@.len() - k,
        {
            obs.push(TaggedObservation { observer, mapping: received[k].src });
            k += 1;
            assert(obs@ =~= had + Seq::new(
                k as nat,
                |x: int| TaggedObservation { observer, mapping: received@[x].src },
            ));
        }
        proof {
            let next = (j + 1) as nat;
            assert(client.0 + next == helper.0);
            assert(obs@ =~= observations(after, client.0 as int, next));
        }
        j += 1;
    }
    let client_addr = world.local_addr(client);
    let class = classify_observations(client_addr, &obs);
    proof {
        reveal(classified);
        assert(classified::<C, T>(start, preset, class, after));
    }
    class
}

/// `after` is the world once every preset of `cases` was classified in turn,
/// as `classes`.
pub open spec fn all_classified<C: OverlayCore, T: OverlayTransport>(
    w: WorldView,
    cases: Seq<CaseView>,
    classes: Seq<Option<NatClass>>,
    after: WorldView,
) -> bool
    decreases cases.len(),
{
    classes.len() == cases.len() && if cases.len() == 0 {
        after == w
    } else {
        exists|mid: WorldView|
            all_classified::<C, T>(w, cases.drop_last(), classes.drop_last(), mid)
                && #[trigger] classified::<C, T>(mid, cases.last().preset, classes.last(), after)
    }
}

pub open spec fn class_text(class: NatClass) -> Seq<char> {
    match class {
        NatClass::Public => "Public"@,
        NatClass::EndpointIndependent => "EndpointIndependent"@,
        NatClass::PortDependent => "PortDependent"@,
        NatClass::Symmetric => "Symmetric"@,
    }
}

/// `{name}: got {got}, want {want}`.
pub open spec fn failure_text(case: CaseView, got: Option<NatClass>) -> Seq<char> {
    case.name + ": got "@ + (match got {
        Some(class) => "Some("@ + class_text(class) + ")"@,
        None => "None"@,
    }) + ", want "@ + class_text(case.expected)
}

/// The cases that were classified otherwise than expected, in words.
pub open spec fn failures_text(cases: Seq<CaseView>, classes: Seq<Option<NatClass>>) -> Seq<char>
    decreases cases.len(),
{
    if cases.len() == 0 {
        Seq::empty()
    } else {
        let rest = failures_text(cases.drop_last(), classes.drop_last());
        if classes.last() == Some(cases.last().expected) {
            rest
        } else if rest.len() == 0 {
            failure_text(cases.last(), classes.last())
        } else {
            rest + "; "@ + failure_text(cases.last(), classes.last())
        }
    }
}

/// Every preset was classified as expected.
pub open spec fn all_as_expected(cases: Seq<CaseView>, classes: Seq<Option<NatClass>>) -> bool {
    forall|i: int| 0 <= i < cases.len() ==> (#[trigger] classes[i]) == Some(cases[i].expected)
}

/// `outcome` is what classifying every preset as `classes` came to in `w`.
pub open spec fn classify_seen<C: OverlayCore, T: OverlayTransport>(
    outcome: ScenarioOutcome,
    classes: Seq<Option<NatClass>>,
    w: WorldView,
) -> bool {
    &&& traced(outcome, w)
    &&& all_classified::<C, T>(WorldView::empty(outcome.seed), case_list(), classes, w)
    &&& outcome.ok == all_as_expected(case_list(), classes)
    &&& outcome.summary@ == (if outcome.ok {
        "7 presets classified as predicted"@
    } else {
        failures_text(case_list(), classes)
    })
}

pub open spec fn classify_ran<C: OverlayCore, T: OverlayTransport>(
    outcome: ScenarioOutcome,
) -> bool {
    exists|classes: Seq<Option<NatClass>>, w: WorldView| #[trigger]
        classify_seen::<C, T>(outcome, classes, w)
}

fn class_name(class: NatClass) -> (s: &'static str)
    ensures
        s@ == class_text(class),
{
    match class {
        NatClass::Public => "Public",
        NatClass::EndpointIndependent => "EndpointIndependent",
        NatClass::PortDependent => "PortDependent",
        NatClass::Symmetric => "Symmetric",
    }
}

/// Appends the words for a case that was classified otherwise than expected.
fn append_failure(s: &mut String, case: &ClassifyCase, got: Option<NatClass>)
    ensures
        final(s)@ == old(s)@ + failure_text(
            CaseView { name: case.name@, preset: case.preset, expected: case.expected },
            got,
        ),
{
    let ghost before = s@;
    s.append(case.name);
    s.append(": got ");
    match got {
        Some(class) => {
            s.append("Some(");
            s.append(class_name(class));
            s.append(")");
        },
        None => {
            s.append("None");
        },
    }
    s.append(", want ");
    s.append(class_name(case.expected));
    assert(s@ =~= before + failure_text(
        CaseView { name: case.name@, preset: case.preset, expected: case.expected },
        got,
    ));
}

/// A failure has words.
proof fn lemma_failure_text(case: CaseView, got: Option<NatClass>)
    ensures
        failure_text(case, got).len() > 0,
{
    reveal_strlit(": got ");
}

/// Each NAT preset, seen by helpers that tag what they saw with their ports, is
/// classified as expected.
pub fn nat_classify<K: ScenarioKit>(kit: &mut K, seed: u64, verbose: bool) -> (outcome:
    ScenarioOutcome)
    ensures
        outcome_of(outcome, "nat-classify"@, seed),
        classify_ran::<K::Core, K::Transport>(outcome),
        prints(outcome, verbose),
        *final(kit) == *old(kit),
{
    let mut world: SimWorld<K::Core, K::Transport> = SimWorld::with_trace(seed, verbose);
    let cases = classify_cases();
    let ghost all = case_list();
    let ghost start = world@;
    let ghost mut classes: Seq<Option<NatClass>> = Seq::empty();
    let mut failed: bool = false;
    let mut words = String::new();
    let mut i: usize = 0;
    proof {
        reveal(case_list);
        assert(cases@.len() == case_views(cases@).len());
        assert(all.take(0) =~= Seq::empty());
        assert(all_classified::<K::Core, K::Transport>(start, all.take(0), classes, start));
        assert(words@ =~= failures_text(all.take(0), classes));
    }
    while i < cases.len()
        invariant
            world.wf(),
            world.printing() == (Printing { verbose, taken: 0 }),
            cases@.len() == 7,
            all == case_views(cases@),
            cases_wf(cases@),
            i <= cases@.len(),
            world@.seed == seed,
            world@.hosts.len() == 6 * i,
            classes.len() == i,
            all_classified::<K::Core, K::Transport>(
                start,
                all.take(i as int),
                classes,
                world@,
            ),
            failed == !all_as_expected(all.take(i as int), classes),
            failed == (words@.len() > 0),
            words@ == failures_text(all.take(i as int), classes),
        decreases cases@.len() - i,
    {
        let ghost before = world@;
        let ghost had = words@;
        let ghost so_far = all.take(i as int);
        let case = &cases[i];
        let got = classify_one(&mut world, case.preset);
        let as_expected = match got {
            Some(class) => class == case.expected,
            None => false,
        };
        proof {
            let next = all.take(i + 1);
            let found = classes.push(got);
            assert(next.drop_last() =~= so_far);
            assert(found.drop_last() =~= classes);
            assert(next.last() == all[i as int]);
            assert(classified::<K::Core, K::Transport>(
                before,
                next.last().preset,
                found.last(),
                world@,
            ));
            assert(all_classified::<K::Core, K::Transport>(start, next, found, world@));
            lemma_failure_text(next.last(), got);
            if all_as_expected(next, found) {
                assert forall|k: int| 0 <= k < so_far.len() implies (#[trigger] classes[k]) == Some(
                    so_far[k].expected,
                ) by {
                    assert(found[k] == classes[k]);
                }
                assert(found[i as int] == Some(next[i as int].expected));
            } else if as_expected && !failed {
                assert forall|k: int| 0 <= k < next.len() implies (#[trigger] found[k]) == Some(
                    next[k].expected,
                ) by {
                    if k < i {
                        assert(classes[k] == Some(so_far[k].expected));
                    }
                }
            }
            classes = found;
        }
        if !as_expected {
            if failed {
                words.append("; ");
            }
            append_failure(&mut words, case, got);
            failed = true;
        }
        proof {
            let next = all.take(i + 1);
            if !as_expected {
                if had.len() == 0 {
                    assert(words@ =~= failure_text(next.last(), got));
                } else {
                    assert(words@ =~= had + "; "@ + failure_text(next.last(), got));
                }
                assert(words@ == failures_text(next, classes));
                assert(classes[i as int] != Some(next[i as int].expected));
            }
        }
        i += 1;
    }
    assert(all.take(i as int) =~= all);
    let ghost w = world@;
    let summary = if failed {
        words
    } else {
        "7 presets classified as predicted".to_string()
    };
    let outcome = conclude("nat-classify", world, !failed, summary);
    assert(classify_seen::<K::Core, K::Transport>(outcome, classes, w));
    outcome
}

/// The names of the scenarios.
pub open spec fn scenario_names() -> Seq<Seq<char>> {
    seq![
        "two-node-lossy"@,
        "two-node-nat-sink"@,
        "keepalive-nat"@,
        "keepalive-nat-control"@,
        "nat-classify"@,
        "two-node-lossy-v6"@,
        "keepalive-firewall-v6"@,
        "keepalive-firewall-v6-control"@,
    ]
}

/// The names of the scenarios.
pub fn scenarios() -> (names: Vec<&'static str>)
    ensures
        names@.len() == scenario_names().len(),
        forall|i: int| 0 <= i < names@.len() ==> (#[trigger] names@[i])@ == scenario_names()[i],
{
    let mut names: Vec<&'static str> = Vec::new();
    names.push("two-node-lossy");
    names.push("two-node-nat-sink");
    names.push("keepalive-nat");
    names.push("keepalive-nat-control");
    names.push("nat-classify");
    names.push("two-node-lossy-v6");
    names.push("keepalive-firewall-v6");
    names.push("keepalive-firewall-v6-control");
    names
}

/// `outcome` is what a run of the scenario of its name came to, which took the
/// kit from `kit` to `kit_after`.
pub open spec fn ran_as<K: ScenarioKit>(kit: K, kit_after: K, outcome: ScenarioOutcome) -> bool {
    let name = outcome.name@;
    if name == "two-node-lossy"@ {
        exchange_ran(kit, kit_after, Seq::empty(), false, outcome)
    } else if name == "two-node-nat-sink"@ {
        exchange_ran(kit, kit_after, seq![sink_nat()], false, outcome)
    } else if name == "keepalive-nat"@ {
        keepalive_ran(kit, kit_after, true, outcome)
    } else if name == "keepalive-nat-control"@ {
        keepalive_ran(kit, kit_after, false, outcome)
    } else if name == "nat-classify"@ {
        classify_ran::<K::Core, K::Transport>(outcome) && kit_after == kit
    } else if name == "two-node-lossy-v6"@ {
        exchange_ran(kit, kit_after, Seq::empty(), true, outcome)
    } else if name == "keepalive-firewall-v6"@ {
        firewall_ran(kit, kit_after, true, outcome)
    } else if name == "keepalive-firewall-v6-control"@ {
        firewall_ran(kit, kit_after, false, outcome)
    } else {
        false
    }
}

/// Runs the scenario of that name, if there is one.
pub fn run<K: ScenarioKit>(kit: &mut K, name: &str, seed: u64, verbose: bool) -> (r: Option<
    ScenarioOutcome,
>)
    ensures
        r is Some <==> scenario_names().contains(name@),
        r is None ==> *final(kit) == *old(kit),
        r matches Some(outcome) ==> outcome_of(outcome, name@, seed) && ran_as(
            *old(kit),
            *final(kit),
            outcome,
        ) && prints(outcome, verbose),
{
    proof {
        let names = scenario_names();
        assert(names[0] == "two-node-lossy"@ && names[1] == "two-node-nat-sink"@ && names[2]
            == "keepalive-nat"@ && names[3] == "keepalive-nat-control"@ && names[4]
            == "nat-classify"@ && names[5] == "two-node-lossy-v6"@ && names[6]
            == "keepalive-firewall-v6"@ && names[7] == "keepalive-firewall-v6-control"@);
    }
    if same_text(name, "two-node-lossy") {
        Some(two_node_lossy(kit, seed, verbose))
    } else if same_text(name, "two-node-nat-sink") {
        Some(two_node_nat_sink(kit, seed, verbose))
    } else if same_text(name, "keepalive-nat") {
        Some(keepalive_nat(kit, seed, verbose, true))
    } else if same_text(name, "keepalive-nat-control") {
        Some(keepalive_nat(kit, seed, verbose, false))
    } else if same_text(name, "nat-classify") {
        Some(nat_classify(kit, seed, verbose))
    } else if same_text(name, "two-node-lossy-v6") {
        Some(two_node_lossy_v6(kit, seed, verbose))
    } else if same_text(name, "keepalive-firewall-v6") {
        Some(keepalive_firewall_v6(kit, seed, verbose, true))
    } else if same_text(name, "keepalive-firewall-v6-control") {
        Some(keepalive_firewall_v6(kit, seed, verbose, false))
    } else {
        None
    }
}

proof fn lemma_probe_bound(w: WorldView, nats: Seq<NatConfig>, port: u16)
    requires
        w.wf(),
        w.probes_only(),
        w.hosts.len() < MAX_HOSTS,
    ensures
        with_probe(w, nats, port).wf(),
        with_probe(w, nats, port).probes_only(),
        with_probe(w, nats, port).hosts.len() == w.hosts.len() + 1,
{
    lemma_with_probe(w, nats);
    let added = w.with_host(nats, false, None, None, None, None, KindView::Probe(Seq::empty()));
    let after = with_probe(w, nats, port);
    assert forall|i: int| 0 <= i < after.queue.len() implies (#[trigger] after.queue[i]).seq
        <= after.seq && after.names_host(after.queue[i].event) by {
        assert(added.names_host(added.queue[i].event));
    }
    assert forall|i: int| 0 <= i < after.hosts.len() implies (#[trigger] after.hosts[i]).kind is Probe by {
        assert(added.hosts[i].kind is Probe);
    }
}

proof fn lemma_helpers(w: WorldView, ports: Seq<u16>)
    requires
        w.wf(),
        w.probes_only(),
        w.hosts.len() + ports.len() <= MAX_HOSTS,
    ensures
        with_helpers(w, ports).wf(),
        with_helpers(w, ports).probes_only(),
        with_helpers(w, ports).hosts.len() == w.hosts.len() + ports.len(),
    decreases ports.len(),
{
    if ports.len() > 0 {
        lemma_helpers(w, ports.drop_last());
        lemma_probe_bound(with_helpers(w, ports.drop_last()), Seq::empty(), ports.last());
    }
}

proof fn lemma_observed(w: WorldView, client: int, n: nat)
    requires
        w.wf(),
        w.probes_only(),
        0 <= client,
        client + n < w.hosts.len(),
    ensures
        observed(w, client, n).wf(),
        observed(w, client, n).probes_only(),
        observed(w, client, n).hosts.len() == w.hosts.len(),
    decreases n,
{
    if n > 0 {
        lemma_observed(w, client, (n - 1) as nat);
        let before = observed(w, client, (n - 1) as nat);
        lemma_routed(
            before,
            client as u32,
            before.hosts[client].sockets[0],
            before.hosts[client + n].sockets[0],
            lit("observe-me"@),
        );
    }
}

proof fn lemma_setup(w: WorldView, preset: Option<NatConfig>)
    requires
        w.wf(),
        w.probes_only(),
        w.hosts.len() + 6 <= MAX_HOSTS,
    ensures
        classify_setup(w, preset).wf(),
        classify_setup(w, preset).probes_only(),
        classify_setup(w, preset).hosts.len() == w.hosts.len() + 6,
{
    let client = w.hosts.len() as int;
    lemma_probe_bound(w, chain_of(preset), 51_000);
    let base = with_probe(w, chain_of(preset), 51_000);
    lemma_helpers(base, helper_ports());
    lemma_observed(with_helpers(base, helper_ports()), client, 5);
}

proof fn lemma_case_count()
    ensures
        case_list().len() == 7,
{
    reveal(case_list);
}

/// Classifying a preset in a world of probes goes one way only.
proof fn lemma_classified_once<C: OverlayCore, T: OverlayTransport>(
    w: WorldView,
    preset: Option<NatConfig>,
    one: (Option<NatClass>, WorldView),
    other: (Option<NatClass>, WorldView),
)
    requires
        w.wf(),
        w.probes_only(),
        w.hosts.len() + 6 <= MAX_HOSTS,
        classified::<C, T>(w, preset, one.0, one.1),
        classified::<C, T>(w, preset, other.0, other.1),
    ensures
        one == other,
        one.1.wf(),
        one.1.probes_only(),
        one.1.hosts.len() == w.hosts.len() + 6,
{
    reveal(classified);
    lemma_setup(w, preset);
    let ready = classify_setup(w, preset);
    let target = sat_u64(w.now + 1_000_000_000);
    let (a, a_end) = choose|start: Sim<C, T>, end: Sim<C, T>| #[trigger]
        start.ran_to(target, end) && start.world == ready && end.world == one.1;
    let (b, b_end) = choose|start: Sim<C, T>, end: Sim<C, T>| #[trigger]
        start.ran_to(target, end) && start.world == ready && end.world == other.1;
    law_probe_run_deterministic(a, b, target, a_end, b_end);
}

proof fn lemma_all_classified_once<C: OverlayCore, T: OverlayTransport>(
    w: WorldView,
    cases: Seq<CaseView>,
    one: (Seq<Option<NatClass>>, WorldView),
    other: (Seq<Option<NatClass>>, WorldView),
)
    requires
        w.wf(),
        w.probes_only(),
        w.hosts.len() + 6 * cases.len() <= MAX_HOSTS,
        all_classified::<C, T>(w, cases, one.0, one.1),
        all_classified::<C, T>(w, cases, other.0, other.1),
    ensures
        one == other,
        one.1.wf(),
        one.1.probes_only(),
        one.1.hosts.len() == w.hosts.len() + 6 * cases.len(),
    decreases cases.len(),
{
    if cases.len() == 0 {
        assert(one.0 =~= other.0);
    } else {
        let rest = cases.drop_last();
        let m1 = choose|mid: WorldView|
            all_classified::<C, T>(w, rest, one.0.drop_last(), mid) && #[trigger] classified::<C, T>(
                mid,
                cases.last().preset,
                one.0.last(),
                one.1,
            );
        let m2 = choose|mid: WorldView|
            all_classified::<C, T>(w, rest, other.0.drop_last(), mid)
                && #[trigger] classified::<C, T>(
                mid,
                cases.last().preset,
                other.0.last(),
                other.1,
            );
        lemma_all_classified_once::<C, T>(
            w,
            rest,
            (one.0.drop_last(), m1),
            (other.0.drop_last(), m2),
        );
        lemma_classified_once::<C, T>(
            m1,
            cases.last().preset,
            (one.0.last(), one.1),
            (other.0.last(), other.1),
        );
        assert(one.0 =~= one.0.drop_last().push(one.0.last()));
        assert(other.0 =~= other.0.drop_last().push(other.0.last()));
    }
}

/// One seed gives one run of `nat-classify`: the same trace, the same number
/// of events and the same verdict.
pub proof fn law_classify_reproducible<C: OverlayCore, T: OverlayTransport>(
    one: ScenarioOutcome,
    other: ScenarioOutcome,
)
    requires
        classify_ran::<C, T>(one),
        classify_ran::<C, T>(other),
        one.seed == other.seed,
    ensures
        one.trace_hash@ == other.trace_hash@,
        one.events == other.events,
        one.ok == other.ok,
        one.summary@ == other.summary@,
{
    let (c1, w1) = choose|classes: Seq<Option<NatClass>>, w: WorldView| #[trigger]
        classify_seen::<C, T>(one, classes, w);
    let (c2, w2) = choose|classes: Seq<Option<NatClass>>, w: WorldView| #[trigger]
        classify_seen::<C, T>(other, classes, w);
    lemma_case_count();
    lemma_all_classified_once::<C, T>(
        WorldView::empty(one.seed),
        case_list(),
        (c1, w1),
        (c2, w2),
    );
}

/// The transports that a kit gives are determined by its state and by what it is
/// asked for, up to a likeness.
pub open spec fn kit_transports_keep_to<K: ScenarioKit>(
    l: Likeness<K::Core, K::Transport>,
) -> bool {
    forall|
        kit: K,
        seed: u64,
        host: HostId,
        options: OptionsView,
        t1: K::Transport,
        t2: K::Transport,
        k1: K,
        k2: K,
    |
        #![trigger kit.makes_transport(seed, host, options, t1, &k1), kit.makes_transport(seed, host, options, t2, &k2)]
        kit.makes_transport(seed, host, options, t1, &k1) && kit.makes_transport(
            seed,
            host,
            options,
            t2,
            &k2,
        ) ==> (l.transports)(t1, t2) && k1 == k2
}

/// What a kit gives is determined by its state and by what it is asked for, up
/// to a likeness of the machines.
pub open spec fn kit_keeps_to<K: ScenarioKit>(l: Likeness<K::Core, K::Transport>) -> bool {
    &&& forall|
        kit: K,
        seed: u64,
        host: HostId,
        config: ConfigView,
        options: OptionsView,
        now: u64,
        c1: K::Core,
        c2: K::Core,
        k1: K,
        k2: K,
    |
        #![trigger kit.makes_core(seed, host, config, options, now, c1, &k1), kit.makes_core(seed, host, config, options, now, c2, &k2)]
        kit.makes_core(seed, host, config, options, now, c1, &k1) && kit.makes_core(
            seed,
            host,
            config,
            options,
            now,
            c2,
            &k2,
        ) ==> (l.cores)(c1, c2) && k1 == k2
    &&& kit_transports_keep_to::<K>(l)
    &&& forall|
        kit: K,
        seed: u64,
        slot: u64,
        s1: Seq<Seq<u8>>,
        s2: Seq<Seq<u8>>,
        k1: K,
        k2: K,
    |
        #![trigger kit.makes_shreds(seed, slot, s1, &k1), kit.makes_shreds(seed, slot, s2, &k2)]
        kit.makes_shreds(seed, slot, s1, &k1) && kit.makes_shreds(seed, slot, s2, &k2) ==> s1 == s2
            && k1 == k2
}

/// The kit and the machines that it gives keep to a likeness.
pub open spec fn keeps_to<K: ScenarioKit>(l: Likeness<K::Core, K::Transport>) -> bool {
    kit_keeps_to::<K>(l) && l.is_kept()
}

proof fn lemma_node_joined_once<K: ScenarioKit>(
    l: Likeness<K::Core, K::Transport>,
    kit: K,
    a: Sim<K::Core, K::Transport>,
    b: Sim<K::Core, K::Transport>,
    options: OptionsView,
    k1: K,
    one: Sim<K::Core, K::Transport>,
    k2: K,
    other: Sim<K::Core, K::Transport>,
)
    requires
        keeps_to::<K>(l),
        l.sims(a, b),
        a.world.hosts.len() < MAX_HOSTS,
        node_joined(kit, a, options, k1, one),
        node_joined(kit, b, options, k2, other),
    ensures
        k1 == k2,
        l.sims(one, other),
        one.nodes.len() == a.nodes.len() + 1,
{
    let seed = a.world.seed;
    let host = HostId(a.world.hosts.len() as u32);
    let config = a.world.config_for(options);
    let kind = KindView::Overlay(Seq::empty());
    let m1 = choose|machine: K::Core| #[trigger]
        kit.makes_core(seed, host, config, options, a.world.now, machine, &k1) && a.joined(
            options,
            kind,
            Machine::Overlay(machine),
            one,
        );
    let m2 = choose|machine: K::Core| #[trigger]
        kit.makes_core(seed, host, config, options, a.world.now, machine, &k2) && b.joined(
            options,
            kind,
            Machine::Overlay(machine),
            other,
        );
    assert(kit.makes_core(seed, host, config, options, a.world.now, m1, &k1));
    assert(kit.makes_core(seed, host, config, options, a.world.now, m2, &k2));
    lemma_joined_alike(
        l,
        a,
        b,
        options,
        kind,
        Machine::Overlay(m1),
        Machine::Overlay(m2),
        one,
        other,
    );
}

proof fn lemma_transport_joined_once<K: ScenarioKit>(
    l: Likeness<K::Core, K::Transport>,
    kit: K,
    a: Sim<K::Core, K::Transport>,
    b: Sim<K::Core, K::Transport>,
    options: OptionsView,
    k1: K,
    one: Sim<K::Core, K::Transport>,
    k2: K,
    other: Sim<K::Core, K::Transport>,
)
    requires
        kit_transports_keep_to::<K>(l),
        l.is_kept(),
        l.sims(a, b),
        a.world.hosts.len() < MAX_HOSTS,
        transport_joined(kit, a, options, k1, one),
        transport_joined(kit, b, options, k2, other),
    ensures
        k1 == k2,
        l.sims(one, other),
        one.nodes.len() == a.nodes.len() + 1,
{
    let seed = a.world.seed;
    let host = HostId(a.world.hosts.len() as u32);
    let kind = KindView::Transport(Seq::empty());
    let m1 = choose|machine: K::Transport| #[trigger]
        kit.makes_transport(seed, host, options, machine, &k1) && a.joined(
            options,
            kind,
            Machine::Transport(machine),
            one,
        );
    let m2 = choose|machine: K::Transport| #[trigger]
        kit.makes_transport(seed, host, options, machine, &k2) && b.joined(
            options,
            kind,
            Machine::Transport(machine),
            other,
        );
    assert(kit.makes_transport(seed, host, options, m1, &k1));
    assert(kit.makes_transport(seed, host, options, m2, &k2));
    lemma_joined_alike(
        l,
        a,
        b,
        options,
        kind,
        Machine::Transport(m1),
        Machine::Transport(m2),
        one,
        other,
    );
}

proof fn lemma_waited_once<C: OverlayCore, T: OverlayTransport>(
    l: Likeness<C, T>,
    a: Sim<C, T>,
    b: Sim<C, T>,
    nanos: int,
    one: Sim<C, T>,
    other: Sim<C, T>,
)
    requires
        l.is_kept(),
        l.sims(a, b),
        waited(a, nanos, one),
        waited(b, nanos, other),
    ensures
        l.sims(one, other),
        one.nodes.len() == a.nodes.len(),
{
    let target = sat_u64(a.world.now + nanos);
    law_run_deterministic(l, a, b, target, one, other);
    lemma_ran_len(a, target, one);
}

proof fn lemma_fed_once<C: OverlayCore, T: OverlayTransport>(
    l: Likeness<C, T>,
    a: Sim<C, T>,
    b: Sim<C, T>,
    host: u32,
    shreds: Seq<Seq<u8>>,
    one: Sim<C, T>,
    other: Sim<C, T>,
)
    requires
        l.is_kept(),
        l.sims(a, b),
        host < a.nodes.len(),
        fed(a, host, shreds, one),
        fed(b, host, shreds, other),
    ensures
        l.sims(one, other),
        one.nodes.len() == a.nodes.len(),
    decreases shreds.len(),
{
    if shreds.len() > 0 {
        let m1 = choose|mid: Sim<C, T>|
            fed(a, host, shreds.drop_last(), mid) && #[trigger] fed_one(
                mid,
                host,
                shreds.last(),
                one,
            );
        let m2 = choose|mid: Sim<C, T>|
            fed(b, host, shreds.drop_last(), mid) && #[trigger] fed_one(
                mid,
                host,
                shreds.last(),
                other,
            );
        lemma_fed_once(l, a, b, host, shreds.drop_last(), m1, m2);
        if shreds.last().len() <= PACKET_DATA_SIZE {
            let call = CallView::SourcePacket { payload: shreds.last() };
            lemma_reacted_alike(l, m1, m2, host, call, call, one, other);
        }
    }
}

proof fn lemma_rounds_once<C: OverlayCore, T: OverlayTransport>(
    l: Likeness<C, T>,
    a: Sim<C, T>,
    b: Sim<C, T>,
    n: nat,
    source: Seq<Seq<u8>>,
    sink: Seq<Seq<u8>>,
    one: Sim<C, T>,
    other: Sim<C, T>,
)
    requires
        l.is_kept(),
        l.sims(a, b),
        a.nodes.len() == 2,
        rounds_done(a, n, source, sink, one),
        rounds_done(b, n, source, sink, other),
    ensures
        l.sims(one, other),
        one.nodes.len() == 2,
    decreases n,
{
    if n > 0 {
        let m1 = choose|mid: Sim<C, T>|
            rounds_done(a, (n - 1) as nat, source, sink, mid) && #[trigger] round_done(
                mid,
                source,
                sink,
                one,
            );
        let m2 = choose|mid: Sim<C, T>|
            rounds_done(b, (n - 1) as nat, source, sink, mid) && #[trigger] round_done(
                mid,
                source,
                sink,
                other,
            );
        lemma_rounds_once(l, a, b, (n - 1) as nat, source, sink, m1, m2);
        let (x1, y1) = choose|first: Sim<C, T>, second: Sim<C, T>| #[trigger]
            round_by(m1, source, sink, first, second, one);
        let (x2, y2) = choose|first: Sim<C, T>, second: Sim<C, T>| #[trigger]
            round_by(m2, source, sink, first, second, other);
        lemma_fed_once(l, m1, m2, 0, source, x1, x2);
        lemma_fed_once(l, x1, x2, 1, sink, y1, y2);
        lemma_waited_once(l, y1, y2, 500_000_000, one, other);
    }
}

proof fn lemma_exchange_once<K: ScenarioKit>(
    l: Likeness<K::Core, K::Transport>,
    kit: K,
    seed: u64,
    nats: Seq<NatConfig>,
    ipv6: bool,
    one: ExchangeRun<K, K::Core, K::Transport>,
    other: ExchangeRun<K, K::Core, K::Transport>,
)
    requires
        keeps_to::<K>(l),
        exchange_goes(one, kit, seed, nats, ipv6),
        exchange_goes(other, kit, seed, nats, ipv6),
    ensures
        l.sims(one.end, other.end),
        one.source == other.source,
        one.sink == other.sink,
        one.kit_end == other.kit_end,
{
    reveal(exchange_goes);
    let empty = Sim::<K::Core, K::Transport>::empty(seed);
    let options = OptionsView { mode: OverlayMode::Source, ipv6, ..OptionsView::plain() };
    assert(l.sims(empty, empty));
    lemma_node_joined_once(
        l,
        kit,
        empty,
        empty,
        options,
        one.with_source,
        one.one,
        other.with_source,
        other.one,
    );
    let peer = one.one.world.hosts[0].sockets[0];
    lemma_node_joined_once(
        l,
        one.with_source,
        one.one,
        other.one,
        OptionsView { nats, static_peers: seq![peer], ..options },
        one.with_sink,
        one.two,
        other.with_sink,
        other.two,
    );
    let x = Sim { world: WorldView { default_link: lossy_link(), ..one.two.world }, ..one.two };
    let y = Sim {
        world: WorldView { default_link: lossy_link(), ..other.two.world },
        ..other.two
    };
    lemma_world_changed(l, one.two, other.two, x.world, y.world);
    lemma_waited_once(l, x, y, 15_000_000_000, one.met, other.met);
    lemma_rounds_once(l, one.met, other.met, 5, one.source, one.sink, one.fed, other.fed);
    lemma_waited_once(l, one.fed, other.fed, 10_000_000_000, one.end, other.end);
}

proof fn lemma_idle_once<K: ScenarioKit>(
    l: Likeness<K::Core, K::Transport>,
    kit: K,
    seed: u64,
    keepalive: bool,
    nats: Seq<NatConfig>,
    firewall: Option<FirewallConfig>,
    one: IdleRun<K, K::Core, K::Transport>,
    other: IdleRun<K, K::Core, K::Transport>,
)
    requires
        kit_transports_keep_to::<K>(l),
        l.is_kept(),
        idle_goes(one, kit, seed, keepalive, nats, firewall),
        idle_goes(other, kit, seed, keepalive, nats, firewall),
    ensures
        l.sims(one.end, other.end),
        one.reached() == other.reached(),
        one.kit_end == other.kit_end,
{
    reveal(idle_goes);
    let empty = Sim::<K::Core, K::Transport>::empty(seed);
    let options = idle_options(keepalive, firewall is Some);
    assert(l.sims(empty, empty));
    lemma_transport_joined_once(
        l,
        kit,
        empty,
        empty,
        options,
        one.with_public,
        one.one,
        other.with_public,
        other.one,
    );
    lemma_transport_joined_once(
        l,
        one.with_public,
        one.one,
        other.one,
        OptionsView { nats, firewall, ..options },
        one.kit_end,
        one.two,
        other.kit_end,
        other.two,
    );
    let public_addr = one.one.world.hosts[0].sockets[0];
    let hello = CallView::Send { to: public_addr, payload: lit("hello-from-behind-nat"@) };
    lemma_reacted_alike(l, one.two, other.two, 1, hello, hello, one.dialed, other.dialed);
    lemma_waited_once(l, one.dialed, other.dialed, 5_000_000_000, one.met, other.met);
    let received = received_by(one.met.world, 0);
    if received.len() > 0 {
        lemma_waited_once(l, one.met, other.met, 300_000_000_000, one.silent, other.silent);
        let back = CallView::Send { to: received[0].0, payload: lit("after-idle"@) };
        lemma_reacted_alike(l, one.silent, other.silent, 0, back, back, one.returned, other.returned);
        lemma_waited_once(l, one.returned, other.returned, 5_000_000_000, one.end, other.end);
    }
}

/// Two outcomes tell the same of the same run.
pub open spec fn same_outcome(one: ScenarioOutcome, other: ScenarioOutcome) -> bool {
    &&& one.trace_hash@ == other.trace_hash@
    &&& one.events == other.events
    &&& one.ok == other.ok
    &&& one.summary@ == other.summary@
}

proof fn lemma_exchange_outcome_once<K: ScenarioKit>(
    l: Likeness<K::Core, K::Transport>,
    kit: K,
    k1: K,
    k2: K,
    nats: Seq<NatConfig>,
    ipv6: bool,
    one: ScenarioOutcome,
    other: ScenarioOutcome,
)
    requires
        keeps_to::<K>(l),
        one.seed == other.seed,
        exchange_ran(kit, k1, nats, ipv6, one),
        exchange_ran(kit, k2, nats, ipv6, other),
    ensures
        same_outcome(one, other),
        k1 == k2,
{
    let seed = one.seed;
    let r1 = choose|r: Exchange<K::Core, K::Transport>| #[trigger]
        exchange_seen(one, r) && exchanged(kit, k1, seed, nats, ipv6, r);
    let r2 = choose|r: Exchange<K::Core, K::Transport>| #[trigger]
        exchange_seen(other, r) && exchanged(kit, k2, seed, nats, ipv6, r);
    let x = choose|run: ExchangeRun<K, K::Core, K::Transport>| #[trigger]
        exchange_goes(run, kit, seed, nats, ipv6) && run.kit_end == k1 && run.end
            == r1.world.sim() && run.source == bytes_views(r1.from_source@) && run.sink == bytes_views(
            r1.from_sink@,
        );
    let y = choose|run: ExchangeRun<K, K::Core, K::Transport>| #[trigger]
        exchange_goes(run, kit, seed, nats, ipv6) && run.kit_end == k2 && run.end
            == r2.world.sim() && run.source == bytes_views(r2.from_source@) && run.sink == bytes_views(
            r2.from_sink@,
        );
    lemma_exchange_once(l, kit, seed, nats, ipv6, x, y);
    assert(r1.world@.trace == r2.world@.trace);
    assert(r1.world@.hosts == r2.world@.hosts);
    assert(r1.tally.sink == r2.tally.sink);
    assert(r1.tally.source == r2.tally.source);
}

/// One seed and one scenario give one execution: two runs of a scenario with
/// deterministic machines have the same trace and come to the same.
pub proof fn law_scenario_reproducible<K: ScenarioKit>(
    l: Likeness<K::Core, K::Transport>,
    kit: K,
    k1: K,
    k2: K,
    one: ScenarioOutcome,
    other: ScenarioOutcome,
)
    requires
        keeps_to::<K>(l),
        one.name@ == other.name@,
        one.seed == other.seed,
        ran_as(kit, k1, one),
        ran_as(kit, k2, other),
    ensures
        same_outcome(one, other),
        k1 == k2,
{
    let seed = one.seed;
    let name = one.name@;
    if name == "two-node-lossy"@ {
        lemma_exchange_outcome_once(l, kit, k1, k2, Seq::empty(), false, one, other);
    } else if name == "two-node-nat-sink"@ {
        lemma_exchange_outcome_once(l, kit, k1, k2, seq![sink_nat()], false, one, other);
    } else if name == "keepalive-nat"@ {
        lemma_keepalive_outcome_once(l, kit, k1, k2, true, one, other);
    } else if name == "keepalive-nat-control"@ {
        lemma_keepalive_outcome_once(l, kit, k1, k2, false, one, other);
    } else if name == "nat-classify"@ {
        law_classify_reproducible::<K::Core, K::Transport>(one, other);
    } else if name == "two-node-lossy-v6"@ {
        lemma_exchange_outcome_once(l, kit, k1, k2, Seq::empty(), true, one, other);
    } else if name == "keepalive-firewall-v6"@ {
        lemma_firewall_outcome_once(l, kit, k1, k2, true, one, other);
    } else if name == "keepalive-firewall-v6-control"@ {
        lemma_firewall_outcome_once(l, kit, k1, k2, false, one, other);
    }
}

/// The scenarios with bare transports are reproducible over QUIC wherever the
/// endpoints and connections of QUIC keep to a likeness, and the kit gives
/// transports that are alike.
pub proof fn law_keepalive_reproducible<K: ScenarioKit<Transport = OverlayQuicTransport>>(
    q: QuicLikeness,
    kit: K,
    k1: K,
    k2: K,
    one: ScenarioOutcome,
    other: ScenarioOutcome,
)
    requires
        q.is_kept(),
        kit_transports_keep_to::<K>(quic_likeness(|a: K::Core, b: K::Core| false, q)),
        one.name@ == other.name@,
        one.seed == other.seed,
        one.name@ == "keepalive-nat"@ || one.name@ == "keepalive-nat-control"@ || one.name@
            == "keepalive-firewall-v6"@ || one.name@ == "keepalive-firewall-v6-control"@,
        ran_as(kit, k1, one),
        ran_as(kit, k2, other),
    ensures
        same_outcome(one, other),
        k1 == k2,
{
    let none = |a: K::Core, b: K::Core| false;
    let l = quic_likeness(none, q);
    law_quic_transport_deterministic::<K::Core>(none, q);
    assert(l.kept_by_cores()) by {
        reveal(Likeness::kept_by_cores);
    }
    lemma_names_differ();
    if one.name@ == "keepalive-nat"@ {
        lemma_keepalive_outcome_once(l, kit, k1, k2, true, one, other);
    } else if one.name@ == "keepalive-nat-control"@ {
        lemma_keepalive_outcome_once(l, kit, k1, k2, false, one, other);
    } else if one.name@ == "keepalive-firewall-v6"@ {
        lemma_firewall_outcome_once(l, kit, k1, k2, true, one, other);
    } else {
        lemma_firewall_outcome_once(l, kit, k1, k2, false, one, other);
    }
}

/// The names of the scenarios with bare transports are those of no others.
proof fn lemma_names_differ()
    ensures
        "keepalive-nat"@ != "two-node-lossy"@,
        "keepalive-nat"@ != "two-node-nat-sink"@,
        "keepalive-nat-control"@ != "two-node-lossy"@,
        "keepalive-nat-control"@ != "two-node-nat-sink"@,
        "keepalive-nat-control"@ != "keepalive-nat"@,
        "keepalive-firewall-v6"@ != "two-node-lossy"@,
        "keepalive-firewall-v6"@ != "two-node-nat-sink"@,
        "keepalive-firewall-v6"@ != "keepalive-nat"@,
        "keepalive-firewall-v6"@ != "keepalive-nat-control"@,
        "keepalive-firewall-v6"@ != "nat-classify"@,
        "keepalive-firewall-v6"@ != "two-node-lossy-v6"@,
        "keepalive-firewall-v6-control"@ != "two-node-lossy"@,
        "keepalive-firewall-v6-control"@ != "two-node-nat-sink"@,
        "keepalive-firewall-v6-control"@ != "keepalive-nat"@,
        "keepalive-firewall-v6-control"@ != "keepalive-nat-control"@,
        "keepalive-firewall-v6-control"@ != "nat-classify"@,
        "keepalive-firewall-v6-control"@ != "two-node-lossy-v6"@,
        "keepalive-firewall-v6-control"@ != "keepalive-firewall-v6"@,
{
    reveal_strlit("keepalive-nat");
    reveal_strlit("keepalive-nat-control");
    reveal_strlit("keepalive-firewall-v6");
    reveal_strlit("keepalive-firewall-v6-control");
    reveal_strlit("two-node-lossy");
    reveal_strlit("two-node-nat-sink");
    reveal_strlit("nat-classify");
    reveal_strlit("two-node-lossy-v6");
    assert("keepalive-nat"@.len() == 13 && "two-node-lossy"@.len() == 14);
    assert("two-node-nat-sink"@.len() == 17 && "nat-classify"@.len() == 12);
    assert("keepalive-nat-control"@[0] == 'k' && "two-node-lossy-v6"@[0] == 't');
    assert("keepalive-nat-control"@[10] == 'n' && "keepalive-firewall-v6"@[10] == 'f');
    assert("keepalive-firewall-v6"@.len() == 21);
    assert("keepalive-firewall-v6-control"@.len() == 29);
}

proof fn lemma_keepalive_outcome_once<K: ScenarioKit>(
    l: Likeness<K::Core, K::Transport>,
    kit: K,
    k1: K,
    k2: K,
    keepalive: bool,
    one: ScenarioOutcome,
    other: ScenarioOutcome,
)
    requires
        kit_transports_keep_to::<K>(l),
        l.is_kept(),
        one.seed == other.seed,
        keepalive_ran(kit, k1, keepalive, one),
        keepalive_ran(kit, k2, keepalive, other),
    ensures
        same_outcome(one, other),
        k1 == k2,
{
    let nats = seq![forgetful_nat()];
    let x = choose|run: IdleRun<K, K::Core, K::Transport>| #[trigger]
        idle_goes(run, kit, one.seed, keepalive, nats, None) && run.kit_end == k1
            && keepalive_seen(one, keepalive, run);
    let y = choose|run: IdleRun<K, K::Core, K::Transport>| #[trigger]
        idle_goes(run, kit, one.seed, keepalive, nats, None) && run.kit_end == k2
            && keepalive_seen(other, keepalive, run);
    lemma_idle_once(l, kit, one.seed, keepalive, nats, None, x, y);
}

proof fn lemma_firewall_outcome_once<K: ScenarioKit>(
    l: Likeness<K::Core, K::Transport>,
    kit: K,
    k1: K,
    k2: K,
    keepalive: bool,
    one: ScenarioOutcome,
    other: ScenarioOutcome,
)
    requires
        kit_transports_keep_to::<K>(l),
        l.is_kept(),
        one.seed == other.seed,
        firewall_ran(kit, k1, keepalive, one),
        firewall_ran(kit, k2, keepalive, other),
    ensures
        same_outcome(one, other),
        k1 == k2,
{
    let firewall = Some(forgetful_firewall());
    let x = choose|run: IdleRun<K, K::Core, K::Transport>| #[trigger]
        idle_goes(run, kit, one.seed, keepalive, Seq::empty(), firewall) && run.kit_end == k1
            && firewall_seen(one, keepalive, run);
    let y = choose|run: IdleRun<K, K::Core, K::Transport>| #[trigger]
        idle_goes(run, kit, one.seed, keepalive, Seq::empty(), firewall) && run.kit_end == k2
            && firewall_seen(other, keepalive, run);
    lemma_idle_once(l, kit, one.seed, keepalive, Seq::empty(), firewall, x, y);
}

/// One with the hash of the shred is there.
pub open spec fn has_arrived(shred: Seq<u8>, got: Seq<Seq<u8>>) -> bool {
    exists|j: int| 0 <= j < got.len() && hash_of(#[trigger] got[j]) == hash_of(shred)
}

/// A side has converged exactly if of every shred that it is owed one with the
/// same hash has arrived, and then as many are counted as are owed.
pub proof fn law_converged_is_all(
    want: Seq<Seq<u8>>,
    got: Seq<Seq<u8>>,
    tally: Tally,
)
    requires
        tallied(want, got, tally),
    ensures
        tally.converged <==> forall|i: int|
            0 <= i < want.len() ==> has_arrived(#[trigger] want[i], got),
        tally.converged <==> tally.got == tally.want,
        tally.got <= tally.want,
        tally.want <= want.len(),
{
    let wanted = hashes_of(want);
    let arrived = hashes_of(got);
    let both = wanted.intersect(arrived);
    vstd::set_lib::lemma_len_subset(both, wanted);
    if tally.converged {
        assert(both =~= wanted);
        assert forall|i: int| 0 <= i < want.len() implies has_arrived(#[trigger] want[i], got) by {
            assert(wanted.contains(hash_of(want[i])));
            assert(arrived.contains(hash_of(want[i])));
        }
    }
    if forall|i: int| 0 <= i < want.len() ==> has_arrived(#[trigger] want[i], got) {
        assert forall|h: u64| #[trigger] wanted.contains(h) implies arrived.contains(h) by {
            let i = choose|i: int| 0 <= i < want.len() && h == hash_of(#[trigger] want[i]);
            assert(has_arrived(want[i], got));
            let j = choose|j: int|
                0 <= j < got.len() && hash_of(#[trigger] got[j]) == hash_of(want[i]);
            assert(h == hash_of(got[j]));
        }
        assert(wanted.subset_of(arrived));
    }
    if tally.got == tally.want {
        vstd::set_lib::lemma_subset_equality(both, wanted);
        assert(wanted.subset_of(arrived));
    }
    lemma_no_more_hashes(want);
}

proof fn lemma_no_more_hashes(shreds: Seq<Seq<u8>>)
    ensures
        hashes_of(shreds).finite(),
        hashes_of(shreds).len() <= shreds.len(),
    decreases shreds.len(),
{
    let all = hashes_of(shreds);
    if shreds.len() == 0 {
        assert(all =~= Set::empty());
    } else {
        let rest = shreds.drop_last();
        lemma_no_more_hashes(rest);
        let h = hash_of(shreds.last());
        assert forall|x: u64| all.contains(x) <==> hashes_of(rest).insert(h).contains(x) by {
            if all.contains(x) {
                let i = choose|i: int| 0 <= i < shreds.len() && x == hash_of(#[trigger] shreds[i]);
                if i < rest.len() {
                    assert(x == hash_of(rest[i]));
                }
            }
            if hashes_of(rest).contains(x) {
                let i = choose|i: int| 0 <= i < rest.len() && x == hash_of(#[trigger] rest[i]);
                assert(x == hash_of(shreds[i]));
            }
            assert(shreds[shreds.len() - 1] == shreds.last());
        }
        assert(all =~= hashes_of(rest).insert(h));
    }
}

/// A helper received a datagram that tells this.
pub open spec fn saw(host: HostView, seen: TaggedObservation) -> bool {
    host.kind matches KindView::Probe(got) && seen.observer == host.sockets[0] && exists|i: int|
        0 <= i < got.len() && seen.mapping == (#[trigger] got[i]).src
}

/// What is observed of a client is what the helpers received: each datagram tells
/// the address that it came from, as the helper at its own address sees it.
pub proof fn law_helpers_tell_what_they_saw(
    w: WorldView,
    client: int,
    n: nat,
    seen: TaggedObservation,
)
    ensures
        observations(w, client, n).contains(seen) <==> exists|k: int|
            1 <= k <= n && #[trigger] saw(w.hosts[client + k], seen),
    decreases n,
{
    if n > 0 {
        let host = w.hosts[client + n];
        let received = match host.kind {
            KindView::Probe(received) => received,
            _ => Seq::empty(),
        };
        let rest = observations(w, client, (n - 1) as nat);
        let new = Seq::new(
            received.len(),
            |i: int| TaggedObservation { observer: host.sockets[0], mapping: received[i].src },
        );
        let all = observations(w, client, n);
        assert(all == rest + new);
        law_helpers_tell_what_they_saw(w, client, (n - 1) as nat, seen);
        if all.contains(seen) {
            let x = all.index_of(seen);
            if x < rest.len() {
                assert(rest[x] == seen);
                assert(rest.contains(seen));
            } else {
                assert(new[x - rest.len()] == seen);
                let i = x - rest.len();
                assert(w.hosts[client + n].kind is Probe);
                assert(received[i].src == seen.mapping);
                assert(saw(w.hosts[client + n], seen));
            }
        }
        if rest.contains(seen) {
            let x = rest.index_of(seen);
            assert(all[x] == seen);
        }
        if saw(host, seen) {
            let i = choose|i: int|
                0 <= i < received.len() && seen.mapping == (#[trigger] received[i]).src;
            assert(all[rest.len() + i] == seen);
        }
        if exists|k: int| 1 <= k <= n && #[trigger] saw(w.hosts[client + k], seen) {
            let k = choose|k: int| 1 <= k <= n && #[trigger] saw(w.hosts[client + k], seen);
            if k < n {
                assert(rest.contains(seen));
            }
        }
    }
}

/// An exchange succeeds exactly if everything arrived: at the sink, which is the
/// second host, all that the source was fed, and at the source, which is the first,
/// all that the sink was.
pub proof fn law_exchange_succeeds_if_all_arrives<C: OverlayCore, T: OverlayTransport>(
    outcome: ScenarioOutcome,
    r: Exchange<C, T>,
)
    requires
        exchange_seen(outcome, r),
    ensures
        outcome.ok <==> {
            &&& forall|i: int|
                0 <= i < r.from_source@.len() ==> has_arrived(
                    (#[trigger] r.from_source@[i])@,
                    delivered_by(r.world@, 1),
                )
            &&& forall|i: int|
                0 <= i < r.from_sink@.len() ==> has_arrived(
                    (#[trigger] r.from_sink@[i])@,
                    delivered_by(r.world@, 0),
                )
        },
{
    let source = bytes_views(r.from_source@);
    let sink = bytes_views(r.from_sink@);
    law_converged_is_all(source, delivered_by(r.world@, 1), r.tally.sink);
    law_converged_is_all(sink, delivered_by(r.world@, 0), r.tally.source);
    assert(forall|i: int| 0 <= i < source.len() ==> #[trigger] source[i] == r.from_source@[i]@);
    assert(forall|i: int| 0 <= i < sink.len() ==> #[trigger] sink[i] == r.from_sink@[i]@);
    if outcome.ok {
        assert forall|i: int| 0 <= i < r.from_source@.len() implies has_arrived(
            (#[trigger] r.from_source@[i])@,
            delivered_by(r.world@, 1),
        ) by {
            assert(has_arrived(source[i], delivered_by(r.world@, 1)));
        }
        assert forall|i: int| 0 <= i < r.from_sink@.len() implies has_arrived(
            (#[trigger] r.from_sink@[i])@,
            delivered_by(r.world@, 0),
        ) by {
            assert(has_arrived(sink[i], delivered_by(r.world@, 0)));
        }
    }
}

/// Whether a silent connection behind a box is still open is what a run with a
/// keepalive and its control tell apart: the first succeeds exactly if what is sent
/// after the silence arrives, the other exactly if it does not and the box had
/// forgotten the mapping.
pub proof fn law_keepalive_keeps_it_open<K: ScenarioKit>(
    outcome: ScenarioOutcome,
    keepalive: bool,
    run: IdleRun<K, K::Core, K::Transport>,
)
    requires
        keepalive_seen(outcome, keepalive, run),
    ensures
        ({
            let got = received_by(run.end.world, 1);
            let stats = run.end.world.hosts[1].chain[0].stats;
            let there = exists|i: int|
                0 <= i < got.len() && (#[trigger] got[i]).1 == lit("after-idle"@);
            let first = received_by(run.met.world, 0).len() > 0;
            &&& !first ==> !outcome.ok
            &&& first && keepalive ==> outcome.ok == there
            &&& first && !keepalive ==> outcome.ok == (!there && stats.expired_drops
                + stats.no_mapping_drops > 0)
        }),
{
}

/// The same of a firewall, which drops what it did not expect.
pub proof fn law_keepalive_keeps_flows_open<K: ScenarioKit>(
    outcome: ScenarioOutcome,
    keepalive: bool,
    run: IdleRun<K, K::Core, K::Transport>,
)
    requires
        firewall_seen(outcome, keepalive, run),
        run.end.world.hosts[1].firewall is Some,
    ensures
        ({
            let got = received_by(run.end.world, 1);
            let there = exists|i: int|
                0 <= i < got.len() && (#[trigger] got[i]).1 == lit("after-idle"@);
            let first = received_by(run.met.world, 0).len() > 0;
            &&& !first ==> !outcome.ok
            &&& first && keepalive ==> outcome.ok == there
            &&& first && !keepalive ==> outcome.ok == (!there && (
            run.end.world.hosts[1].firewall->0).stats.filtered_drops > 0)
        }),
{
}

/// Shreds are fed one after the other, each that fits a packet.
pub proof fn law_shreds_are_fed_in_order<C: OverlayCore, T: OverlayTransport>(
    sim: Sim<C, T>,
    host: u32,
    first: Seq<Seq<u8>>,
    next: Seq<u8>,
    after: Sim<C, T>,
)
    requires
        fed(sim, host, first.push(next), after),
    ensures
        exists|mid: Sim<C, T>|
            {
                &&& #[trigger] fed(sim, host, first, mid)
                &&& next.len() <= 1232 ==> mid.reacted(
                    host,
                    CallView::SourcePacket { payload: next },
                    after,
                )
                &&& next.len() > 1232 ==> after == mid
            },
{
    assert(first.push(next).drop_last() =~= first);
    let mid = choose|mid: Sim<C, T>|
        fed(sim, host, first, mid) && #[trigger] fed_one(mid, host, next, after);
    assert(fed(sim, host, first, mid));
}

/// In every round of an exchange both sides are fed all their shreds, and then half
/// a second passes.
pub proof fn law_rounds_feed_both<C: OverlayCore, T: OverlayTransport>(
    sim: Sim<C, T>,
    n: nat,
    source: Seq<Seq<u8>>,
    sink: Seq<Seq<u8>>,
    after: Sim<C, T>,
)
    requires
        rounds_done(sim, n + 1, source, sink, after),
    ensures
        exists|mid: Sim<C, T>, first: Sim<C, T>, second: Sim<C, T>|
            {
                &&& #[trigger] rounds_done(sim, n, source, sink, mid)
                &&& #[trigger] fed(mid, 0, source, first)
                &&& #[trigger] fed(first, 1, sink, second)
                &&& second.world.now + 500_000_000 <= u64::MAX ==> second.ran_to(
                    (second.world.now + 500_000_000) as u64,
                    after,
                )
            },
{
    let mid = choose|mid: Sim<C, T>|
        rounds_done(sim, n, source, sink, mid) && #[trigger] round_done(mid, source, sink, after);
    let (first, second) = choose|first: Sim<C, T>, second: Sim<C, T>| #[trigger]
        round_by(mid, source, sink, first, second, after);
    assert(round_by(mid, source, sink, first, second, after));
    assert(rounds_done(sim, n, source, sink, mid));
    assert(fed(mid, 0, source, first));
    assert(fed(first, 1, sink, second));
}

/// The lossy link takes 20 to 80 milliseconds, loses one datagram of twenty and
/// doubles one of fifty, and keeps their order.
pub proof fn law_lossy_link_loses()
    ensures
        lossy_link().wf(),
        lossy_link().up,
        lossy_link().mtu is None,
        lossy_link().delay_min.nanos == 20_000_000,
        lossy_link().delay_max.nanos == 80_000_000,
        20 * lossy_link().drop_probability.numerator
            == lossy_link().drop_probability.denominator,
        50 * lossy_link().duplicate_probability.numerator
            == lossy_link().duplicate_probability.denominator,
        lossy_link().reorder_probability.numerator == 0,
{
}

/// An exchange goes over lossy links: the two nodes meet, and then feed each other
/// in five rounds. The sink knows the source by its address.
pub proof fn law_exchange_goes_over_lossy_links<K: ScenarioKit>(
    run: ExchangeRun<K, K::Core, K::Transport>,
    kit: K,
    seed: u64,
    sink_nats: Seq<NatConfig>,
    ipv6: bool,
)
    requires
        exchange_goes(run, kit, seed, sink_nats, ipv6),
    ensures
        exists|lossy: Sim<K::Core, K::Transport>|
            {
                &&& lossy.world.default_link == lossy_link()
                &&& lossy.nodes == run.two.nodes
                &&& lossy.world.now + 15_000_000_000 <= u64::MAX ==> #[trigger] lossy.ran_to(
                    (lossy.world.now + 15_000_000_000) as u64,
                    run.met,
                )
            },
        rounds_done(run.met, 5, run.source, run.sink, run.fed),
        run.fed.world.now + 10_000_000_000 <= u64::MAX ==> run.fed.ran_to(
            (run.fed.world.now + 10_000_000_000) as u64,
            run.end,
        ),
{
    reveal(exchange_goes);
    let lossy = Sim {
        world: WorldView { default_link: lossy_link(), ..run.two.world },
        ..run.two
    };
    assert(waited(lossy, 15_000_000_000, run.met));
    assert(lossy.world.now + 15_000_000_000 <= u64::MAX ==> lossy.ran_to(
        (lossy.world.now + 15_000_000_000) as u64,
        run.met,
    ));
}

/// The silence of a run is five minutes, which is longer than the box and the
/// firewall of the runs remember; then something is sent back to where the first
/// datagram came from.
pub proof fn law_silence_is_long<K: ScenarioKit>(
    run: IdleRun<K, K::Core, K::Transport>,
    kit: K,
    seed: u64,
    keepalive: bool,
    nats: Seq<NatConfig>,
    firewall: Option<FirewallConfig>,
)
    requires
        idle_goes(run, kit, seed, keepalive, nats, firewall),
        received_by(run.met.world, 0).len() > 0,
        run.met.world.now + 300_000_000_000 <= u64::MAX,
    ensures
        run.met.ran_to((run.met.world.now + 300_000_000_000) as u64, run.silent),
        run.silent.reacted(
            0,
            CallView::Send {
                to: received_by(run.met.world, 0)[0].0,
                payload: lit("after-idle"@),
            },
            run.returned,
        ),
        forgetful_nat().idle_timeout.nanos < 300_000_000_000,
        forgetful_firewall().idle_timeout.nanos < 300_000_000_000,
        keepalive ==> (idle_options(keepalive, true).keep_alive_interval matches Some(every)
            && every.nanos < forgetful_nat().idle_timeout.nanos && every.nanos
            < forgetful_firewall().idle_timeout.nanos),
        !keepalive ==> idle_options(keepalive, true).keep_alive_interval is None,
{
    reveal(idle_goes);
}

/// The client asks each helper once, from its socket.
pub proof fn law_helpers_are_asked_once(w: WorldView, client: int, n: nat)
    ensures
        observed(w, client, 0) == w,
        observed(w, client, n + 1) == observed(w, client, n).routed(
            client as u32,
            observed(w, client, n).hosts[client].sockets[0],
            observed(w, client, n).hosts[client + n + 1].sockets[0],
            lit("observe-me"@),
        ),
{
}

} // verus!
