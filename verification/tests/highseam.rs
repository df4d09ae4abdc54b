//! The tick-driven net over the in-memory transport, with a small core that
//! floods adverts and answers repair requests.

use std::collections::BTreeMap;

use lightbringer::addr::{IpAddr, SocketAddr};
use lightbringer::overlay::env::OverlayEnv;
use lightbringer::overlay::service::{OverlayConfig, OverlayMode, OverlayRepairReq};
use lightbringer::overlay::sim::crypto::derive_pubkey;
use lightbringer::overlay::sim::highseam::{
    lookup_repair, record_node, AdvertSummary, HighSeamCore, HighSeamEvent, HighSeamNet,
    HighSeamNodeOptions, SimRepairEvent, SimShredStore, StoreKey,
};
use lightbringer::overlay::sim::mem_transport::{
    MemStreamOp, MemStreamOpKind, MemTransport, OverlayStreamId, StreamEvent,
};
use lightbringer::overlay::sim::net::Probability;
use lightbringer::overlay::transport::OverlayTransport;
use lightbringer::overlay::turbine::TurbineTree;
use lightbringer::pubkey::Pubkey;
use lightbringer::time::Duration;

const ADVERT_INTERVAL: u64 = 10_000_000_000;
const ADVERT: u8 = 1;
const SHRED: u8 = 2;

struct TestCore {
    config: OverlayConfig,
    key: Pubkey,
    tree: TurbineTree,
    next_advert: u64,
    seq: u64,
    known: BTreeMap<Vec<u8>, (Pubkey, u64)>,
    seen: Vec<Vec<u8>>,
    asked: BTreeMap<u64, Vec<u8>>,
    serving: BTreeMap<u64, Vec<u8>>,
    peer_of: BTreeMap<u64, Pubkey>,
    dropped: u64,
    events: Vec<HighSeamEvent>,
}

impl TestCore {
    fn new(config: OverlayConfig, key: Pubkey) -> Self {
        let tree = TurbineTree::new(key, config.fanout);
        TestCore {
            config,
            key,
            tree,
            next_advert: ADVERT_INTERVAL,
            seq: 0,
            known: BTreeMap::new(),
            seen: Vec::new(),
            asked: BTreeMap::new(),
            serving: BTreeMap::new(),
            peer_of: BTreeMap::new(),
            dropped: 0,
            events: Vec::new(),
        }
    }

    fn flood<E: OverlayEnv>(
        &self,
        env: &mut E,
        transport: &mut MemTransport,
        frame: &[u8],
        except: Option<SocketAddr>,
    ) {
        for (_, addr) in transport.connections() {
            if Some(addr) != except {
                let _ = transport.queue_datagram(env, addr, frame.to_vec());
            }
        }
    }

    fn pass<E: OverlayEnv>(
        &self,
        env: &mut E,
        transport: &mut MemTransport,
        shred: &[u8],
        to: Vec<Pubkey>,
    ) {
        let mut frame = vec![SHRED];
        frame.extend_from_slice(shred);
        for key in to {
            transport.queue_datagram_to_peer(env, &key, frame.clone());
        }
    }

    fn pump<E: OverlayEnv>(&mut self, env: &mut E, transport: &mut MemTransport) {
        for (from, frame) in transport.take_inbound() {
            if frame.len() == 41 && frame[0] == ADVERT {
                let key = frame[1..33].to_vec();
                let seq = u64::from_le_bytes(frame[33..41].try_into().unwrap());
                let id = Pubkey::from_bytes(&key);
                let newer = self.known.get(&key).map(|k| k.1 < seq).unwrap_or(true);
                if id != self.key && newer {
                    self.known.insert(key, (id, seq));
                    self.flood(env, transport, &frame, Some(from));
                }
            } else if !frame.is_empty() && frame[0] == SHRED {
                let shred = frame[1..].to_vec();
                if !self.seen.contains(&shred) {
                    self.seen.push(shred.clone());
                    let peers = transport.connected_peers();
                    let to = self.tree.retransmit_peers(None, &shred, &peers);
                    self.pass(env, transport, &shred, to);
                    self.events.push(HighSeamEvent::ShredForFilter(shred));
                }
            }
        }
        while let Some(event) = transport.poll_stream_event() {
            match event {
                StreamEvent::Opened { stream, peer } => {
                    self.serving.insert(stream.0, Vec::new());
                    self.peer_of.insert(stream.0, peer);
                }
                StreamEvent::Data { stream, bytes } => {
                    if let Some(buf) = self.serving.get_mut(&stream.0) {
                        buf.extend_from_slice(&bytes);
                    } else if let Some(buf) = self.asked.get_mut(&stream.0) {
                        buf.extend_from_slice(&bytes);
                    }
                }
                StreamEvent::Finished { stream } => {
                    if let Some(buf) = self.serving.remove(&stream.0) {
                        if buf.len() == 13 {
                            let slot = u64::from_le_bytes(buf[1..9].try_into().unwrap());
                            let shred_index = u32::from_le_bytes(buf[9..13].try_into().unwrap());
                            let request = if buf[0] == 1 {
                                OverlayRepairReq::HighestWindowIndex { slot, shred_index }
                            } else {
                                OverlayRepairReq::WindowIndex { slot, shred_index }
                            };
                            self.events.push(HighSeamEvent::RepairRequest { stream, request });
                        } else {
                            transport.reset_stream(env, stream);
                        }
                    } else if let Some(buf) = self.asked.remove(&stream.0) {
                        let peer = self.peer_of[&stream.0];
                        let shred = if buf.first() == Some(&1) { Some(buf[1..].to_vec()) } else { None };
                        self.events.push(HighSeamEvent::RepairResponse { stream, peer, shred });
                    }
                }
                StreamEvent::Failed { stream } => {
                    self.serving.remove(&stream.0);
                    if self.asked.remove(&stream.0).is_some() {
                        let peer = self.peer_of[&stream.0];
                        self.events.push(HighSeamEvent::RepairFailed { stream, peer });
                    }
                }
            }
        }
    }
}

impl HighSeamCore for TestCore {
    fn on_datagram<E: OverlayEnv>(
        &mut self,
        env: &mut E,
        transport: &mut MemTransport,
        from: SocketAddr,
        datagram: &[u8],
    ) {
        transport.on_datagram(env, lightbringer::overlay::env::SocketId(0), from, datagram);
        self.pump(env, transport);
    }

    fn on_timer<E: OverlayEnv>(&mut self, env: &mut E, transport: &mut MemTransport) {
        if env.now() >= self.next_advert {
            self.next_advert += ADVERT_INTERVAL;
            self.seq += 1;
            let mut frame = vec![ADVERT];
            frame.extend_from_slice(&self.key.to_bytes());
            frame.extend_from_slice(&self.seq.to_le_bytes());
            for &peer in &self.config.static_peers {
                let _ = transport.queue_datagram(env, peer, frame.clone());
            }
            self.flood(env, transport, &frame, None);
        }
        self.pump(env, transport);
    }

    fn on_source_packet<E: OverlayEnv>(
        &mut self,
        env: &mut E,
        transport: &mut MemTransport,
        packet: &[u8],
    ) {
        self.seen.push(packet.to_vec());
        let peers = transport.connected_peers();
        let to = self.tree.origin_peers(None, packet, &peers);
        self.pass(env, transport, packet, to);
    }

    fn on_transport_activity<E: OverlayEnv>(&mut self, env: &mut E, transport: &mut MemTransport) {
        self.pump(env, transport);
    }

    fn request_repair<E: OverlayEnv>(
        &mut self,
        env: &mut E,
        transport: &mut MemTransport,
        peer: Pubkey,
        request: OverlayRepairReq,
    ) -> Option<OverlayStreamId> {
        let Some(stream) = transport.open_stream(&peer) else {
            self.dropped += 1;
            return None;
        };
        let (highest, slot, index) = match request {
            OverlayRepairReq::WindowIndex { slot, shred_index } => (0u8, slot, shred_index),
            OverlayRepairReq::HighestWindowIndex { slot, shred_index } => (1u8, slot, shred_index),
        };
        let mut bytes = vec![highest];
        bytes.extend_from_slice(&slot.to_le_bytes());
        bytes.extend_from_slice(&index.to_le_bytes());
        assert!(transport.write_stream(env, stream, &bytes));
        transport.finish_stream(env, stream);
        self.asked.insert(stream.0, Vec::new());
        self.peer_of.insert(stream.0, peer);
        Some(stream)
    }

    fn on_repair_response<E: OverlayEnv>(
        &mut self,
        env: &mut E,
        transport: &mut MemTransport,
        stream: OverlayStreamId,
        shred: Option<Vec<u8>>,
    ) {
        let mut bytes = vec![shred.is_some() as u8];
        bytes.extend_from_slice(&shred.unwrap_or_default());
        transport.write_stream(env, stream, &bytes);
        transport.finish_stream(env, stream);
    }

    fn take_events(&mut self) -> Vec<HighSeamEvent> {
        std::mem::take(&mut self.events)
    }

    fn gossip_snapshot(&self, _now: u64) -> Vec<AdvertSummary> {
        self.known
            .values()
            .map(|&(pubkey, seq)| AdvertSummary { pubkey, seq, direct_addrs: 1 })
            .collect()
    }

    fn dropped_unreachable(&self) -> u64 {
        self.dropped
    }

    fn invalid_adverts(&self) -> u64 {
        0
    }
}

type Net = HighSeamNet<TestCore>;

fn add_node(net: &mut Net, seed: u64, index: usize, options: &HighSeamNodeOptions) -> usize {
    let config = Net::node_config(index, options);
    let core = TestCore::new(config, derive_pubkey(seed, index as u32));
    net.add_node(core)
}

fn fake_shred(tag: u8) -> Vec<u8> {
    vec![tag; 1203]
}

/// A line topology of nodes floods adverts along established connections until
/// every node knows every identity, at a scale the low seam could not touch
/// cheaply.
#[test]
fn smoke_highseam_advert_flood_reaches_everyone() {
    const NODES: usize = 50;
    let mut net = Net::new(21);
    for i in 0..NODES {
        let static_peers = if i == 0 { Vec::new() } else { vec![Net::addr_for(i - 1)] };
        add_node(
            &mut net,
            21,
            i,
            &HighSeamNodeOptions { static_peers, ..HighSeamNodeOptions::default() },
        );
    }
    // Adverts fire every 10 ticks; give the line topology time to flood
    // end to end.
    net.run_ticks(120);

    let now = net.now_nanos();
    assert_eq!(now, 120_000_000_000);
    for i in 0..NODES {
        let known = net.node_core(i).gossip_snapshot(now).len();
        // Everyone should have learned every other identity via the flood.
        assert!(
            known >= NODES - 1,
            "node {i} knows only {known} of {} peers",
            NODES - 1
        );
    }
}

fn build_mesh(seed: u64, nodes: usize, mode: OverlayMode) -> Net {
    let mut net = Net::new(seed);
    for i in 0..nodes {
        let static_peers = (0..i).map(Net::addr_for).collect();
        add_node(
            &mut net,
            seed,
            i,
            &HighSeamNodeOptions { mode, static_peers, ..HighSeamNodeOptions::default() },
        );
    }
    net
}

/// The high seam is a pure function of its seed. Same seed, identical
/// `state_digest`; distinct seeds and distinct fault budgets, distinct digests.
/// Holds with and without seeded drop.
#[test]
fn high_seam_run_is_deterministic() {
    fn digest(seed: u64, drop: Probability) -> String {
        let mut net = build_mesh(seed, 10, OverlayMode::Sink);
        net.set_drop_probability(drop);
        net.run_ticks(31);
        net.state_digest()
    }

    let none = Probability::never();
    let tenth = Probability::ratio(1, 10);
    assert_eq!(digest(7, none), digest(7, none), "same seed diverged");
    assert_ne!(digest(7, none), digest(9, none), "distinct seeds collided");

    assert_eq!(digest(7, tenth), digest(7, tenth), "seeded drop is not reproducible");
    assert_ne!(
        digest(7, Probability::ratio(9, 10)),
        digest(7, none),
        "drop probability had no observable effect",
    );
}

/// The turbine tree over identities floods a shred across a converged mesh and
/// the origin does not re-deliver its own shred.
#[test]
fn source_shred_floods_over_identity_tree() {
    const NODES: usize = 64;
    const ORIGIN: usize = 10;

    let mut net = build_mesh(0x67, NODES, OverlayMode::Source);
    net.run_ticks(24);

    let shred = fake_shred(0x67);
    net.inject_shred(ORIGIN, &shred);
    net.run_ticks(8);

    let reached = (0..NODES)
        .filter(|&i| i != ORIGIN)
        .filter(|&i| net.delivered_shreds(i).iter().any(|d| d == &shred))
        .count();
    let others = NODES - 1;
    assert!(
        reached * 10 >= others * 9,
        "shred reached only {reached}/{others} nodes",
    );
    assert!(
        !net.delivered_shreds(ORIGIN).iter().any(|d| d == &shred),
        "origin re-delivered its own shred (dedup failed)",
    );
}

/// The repair exchange through the in-memory transport, both directions of the
/// serve relationship (each node repairs from the other).
#[test]
fn high_seam_core_repair_exchange() {
    let mut net = Net::new(31);
    let a = add_node(&mut net, 31, 0, &HighSeamNodeOptions::default());
    let b = add_node(&mut net, 31, 1, &HighSeamNodeOptions::default());
    net.connect(a, b);
    let (a_pk, b_pk) = (net.node_pubkey(a), net.node_pubkey(b));

    net.store_insert(a, 5, 1, fake_shred(1));
    net.store_insert(b, 6, 2, fake_shred(2));

    let s_ab = net
        .request_repair(a, b_pk, OverlayRepairReq::WindowIndex { slot: 6, shred_index: 2 })
        .expect("connected");
    let s_ba = net
        .request_repair(b, a_pk, OverlayRepairReq::WindowIndex { slot: 5, shred_index: 1 })
        .expect("connected");
    let s_miss = net
        .request_repair(a, b_pk, OverlayRepairReq::WindowIndex { slot: 6, shred_index: 3 })
        .expect("connected");
    net.run_ticks(6);

    let outcomes = |events: &[SimRepairEvent], stream: u64| -> Option<Option<Vec<u8>>> {
        events.iter().find_map(|event| match event {
            SimRepairEvent::Response { stream: s, shred, .. } if *s == stream => {
                Some(shred.clone())
            }
            _ => None,
        })
    };
    assert_eq!(
        outcomes(net.repair_events(a), s_ab).expect("concluded"),
        Some(fake_shred(2))
    );
    assert_eq!(
        outcomes(net.repair_events(b), s_ba).expect("concluded"),
        Some(fake_shred(1))
    );
    assert_eq!(outcomes(net.repair_events(a), s_miss).expect("concluded"), None);
}

/// Disconnecting mid-exchange fails the outstanding repair instead of
/// stranding it.
#[test]
fn high_seam_repair_fails_on_disconnect() {
    let mut net = Net::new(37);
    let a = add_node(&mut net, 37, 0, &HighSeamNodeOptions::default());
    let b = add_node(&mut net, 37, 1, &HighSeamNodeOptions::default());
    net.connect(a, b);
    let b_pk = net.node_pubkey(b);

    let stream = net
        .request_repair(a, b_pk, OverlayRepairReq::WindowIndex { slot: 1, shred_index: 1 })
        .expect("connected");
    // Kill the connection before the ops ever deliver.
    net.disconnect(a, &b_pk);
    net.run_ticks(4);

    assert!(
        net.repair_events(a).iter().any(|event| matches!(
            event,
            SimRepairEvent::Failed { stream: s, .. } if *s == stream
        )),
        "disconnect must surface as RepairFailed: {:?}",
        net.repair_events(a)
    );
}

/// Targeting an identity without a connection opens no stream, and leaves no
/// outcome.
#[test]
fn a_stranger_cannot_be_asked() {
    let mut net = Net::new(41);
    let a = add_node(&mut net, 41, 0, &HighSeamNodeOptions::default());
    let stranger = Pubkey::from_bytes(&[9; 32]);
    let request = OverlayRepairReq::WindowIndex { slot: 1, shred_index: 0 };
    assert!(net.request_repair(a, stranger, request).is_none());
    assert_eq!(net.node_core(a).dropped_unreachable(), 1);
    net.run_ticks(5);
    assert!(net.repair_events(a).is_empty());
}

/// A datagram that is sent in one tick arrives in the next, and sets up the
/// connection that it needs.
#[test]
fn datagrams_take_one_tick() {
    let mut net = Net::new(3);
    let a = add_node(&mut net, 3, 0, &HighSeamNodeOptions::default());
    let b = add_node(
        &mut net,
        3,
        1,
        &HighSeamNodeOptions { static_peers: vec![Net::addr_for(0)], ..HighSeamNodeOptions::default() },
    );
    // The advert goes out in the tenth tick.
    net.run_ticks(10);
    assert!(!net.transport(a).is_connected_to(&net.node_pubkey(b)));
    net.tick();
    assert!(net.transport(a).is_connected_to(&net.node_pubkey(b)));
    assert_eq!(net.node_core(a).gossip_snapshot(0).len(), 1);
}

/// A node that is down neither acts nor hears.
#[test]
fn a_node_that_is_down_hears_nothing() {
    let mut net = Net::new(4);
    let a = add_node(&mut net, 4, 0, &HighSeamNodeOptions::default());
    let b = add_node(&mut net, 4, 1, &HighSeamNodeOptions::default());
    net.connect(a, b);
    net.set_node_up(b, false);
    net.inject_shred(a, &fake_shred(1));
    net.run_ticks(3);
    assert!(net.delivered_shreds(b).is_empty());
    net.set_node_up(b, true);
    net.inject_shred(a, &fake_shred(2));
    net.run_ticks(3);
    assert_eq!(net.delivered_shreds(b), &vec![fake_shred(2)]);
}

/// Streams are reliable whatever the drop probability, while datagrams are not.
#[test]
fn loss_touches_datagrams_only() {
    let mut net = Net::new(5);
    let a = add_node(&mut net, 5, 0, &HighSeamNodeOptions::default());
    let b = add_node(&mut net, 5, 1, &HighSeamNodeOptions::default());
    net.connect(a, b);
    net.set_drop_probability(Probability::ratio(1, 1));
    net.store_insert(b, 1, 0, fake_shred(8));
    net.inject_shred(a, &fake_shred(1));
    let b_pk = net.node_pubkey(b);
    let request = OverlayRepairReq::WindowIndex { slot: 1, shred_index: 0 };
    let stream = net.request_repair(a, b_pk, request).expect("connected");
    net.run_ticks(4);
    assert!(net.delivered_shreds(b).is_empty());
    assert!(net.repair_events(a).iter().any(|event| matches!(
        event,
        SimRepairEvent::Response { stream: s, shred: Some(_), .. } if *s == stream
    )));
}

/// Garbage on a stream is refused, and a valid request is still served.
#[test]
fn garbage_streams_are_inert() {
    let mut net = Net::new(6);
    let server = add_node(&mut net, 6, 0, &HighSeamNodeOptions::default());
    let peer = add_node(&mut net, 6, 1, &HighSeamNodeOptions::default());
    net.connect(server, peer);
    net.store_insert(server, 5, 0, fake_shred(5));
    let (server_pk, peer_pk) = (net.node_pubkey(server), net.node_pubkey(peer));
    let op = |kind| MemStreamOp { initiator_is_sender: true, seq: 900, kind };
    net.inject_stream_op(server, peer_pk, op(MemStreamOpKind::Open));
    net.inject_stream_op(server, peer_pk, op(MemStreamOpKind::Data(vec![0xff; 5])));
    net.inject_stream_op(server, peer_pk, op(MemStreamOpKind::Fin));
    net.run_ticks(3);
    let request = OverlayRepairReq::WindowIndex { slot: 5, shred_index: 0 };
    let stream = net.request_repair(peer, server_pk, request).expect("connected");
    net.run_ticks(4);
    assert!(net.repair_events(peer).iter().any(|event| matches!(
        event,
        SimRepairEvent::Response { stream: s, shred: Some(_), .. } if *s == stream
    )));
}

#[test]
fn addresses_and_options_follow_the_index() {
    assert_eq!(Net::addr_for(0), SocketAddr::new(IpAddr::v4(10, 83, 0, 1), 65_410));
    assert_eq!(Net::addr_for(249), SocketAddr::new(IpAddr::v4(10, 83, 0, 250), 65_410));
    assert_eq!(Net::addr_for(250), SocketAddr::new(IpAddr::v4(10, 83, 1, 1), 65_410));
    let options = HighSeamNodeOptions::default();
    let config = Net::node_config(3, &options);
    assert_eq!(config.bind_addr, Net::addr_for(3));
    assert_eq!(config.advertised_addr, Some(Net::addr_for(3)));
    assert_eq!(config.fanout, 8);
    assert_eq!(config.peer_ttl_ms, 30_000);
    let hidden = HighSeamNodeOptions {
        direct: false,
        peer_ttl: Duration::from_secs(5),
        ..HighSeamNodeOptions::default()
    };
    let config = Net::node_config(3, &hidden);
    assert_eq!(config.advertised_addr, None);
    assert_eq!(config.peer_ttl_ms, 5_000);
}

#[test]
fn a_store_answers_with_the_topmost_shred() {
    let mut store = SimShredStore::new();
    for index in [3u32, 7, 5] {
        store.insert(StoreKey { slot: 42, index }, vec![index as u8]);
    }
    store.insert(StoreKey { slot: 43, index: 9 }, vec![99]);
    let exact = |shred_index| OverlayRepairReq::WindowIndex { slot: 42, shred_index };
    let highest = |slot, shred_index| OverlayRepairReq::HighestWindowIndex { slot, shred_index };
    assert_eq!(lookup_repair(&store, &exact(5)), Some(vec![5]));
    assert_eq!(lookup_repair(&store, &exact(4)), None);
    assert_eq!(lookup_repair(&store, &highest(42, 0)), Some(vec![7]));
    assert_eq!(lookup_repair(&store, &highest(42, 7)), Some(vec![7]));
    assert_eq!(lookup_repair(&store, &highest(42, 8)), None);
    assert_eq!(lookup_repair(&store, &highest(41, 0)), None);
    assert_eq!(lookup_repair(&store, &highest(43, 0)), Some(vec![99]));
}

#[test]
fn a_node_is_recorded_field_by_field() {
    let key = Pubkey::from_bytes(&[1; 32]);
    let other = Pubkey::from_bytes(&[2; 32]);
    let adverts = vec![AdvertSummary { pubkey: other, seq: 5, direct_addrs: 3 }];
    let record = record_node(key, &adverts, &vec![other], 7, 8, 9);
    let mut want = vec![1u8; 32];
    want.extend_from_slice(&[2; 32]);
    want.extend_from_slice(&[5, 0, 0, 0, 0, 0, 0, 0, 3]);
    want.extend_from_slice(&[2; 32]);
    want.extend_from_slice(&[7, 0, 0, 0, 0, 0, 0, 0]);
    want.extend_from_slice(&[8, 0, 0, 0, 0, 0, 0, 0]);
    want.extend_from_slice(&[9, 0, 0, 0, 0, 0, 0, 0]);
    assert_eq!(record, want);
}

#[test]
fn an_empty_net_digests_to_zeros() {
    let net = Net::new(1);
    assert_eq!(net.state_digest(), "00".repeat(32));
}
