//! Worlds of real machines: QUIC transports under virtual time, and a small
//! flooding core on top of them.

use std::collections::BTreeSet;
use std::sync::{Arc, Mutex};
use std::time::Instant;

use lightbringer::addr::SocketAddr;
use lightbringer::overlay::env::{OverlayEnv, SocketId};
use lightbringer::overlay::quic::{pubkey_from_certificate, OverlayQuicTransport};
use lightbringer::overlay::service::{CoreEvent, OverlayConfig, OverlayCore, OverlayMode};
use lightbringer::overlay::sim::crypto::{derive_bytes, derive_u64, SeededResetKey};
use lightbringer::overlay::sim::nat_box::NatConfig;
use lightbringer::overlay::sim::net::{LinkParams, Probability};
use lightbringer::overlay::sim::scenario::{self, ScenarioKit, SHRED_CAPABLE_MTU};
use lightbringer::overlay::sim::trace::{Trace, TraceEvent};
use lightbringer::overlay::sim::{HostId, NodeOptions, SimWorld};
use lightbringer::overlay::transport::{OverlayTransport, TransportEvent};
use lightbringer::overlay::turbine::TurbineTree;
use lightbringer::pubkey::Pubkey;
use lightbringer::time::Duration;

use quinn_proto::crypto::{CryptoError, HmacKey};
use quinn_proto::{
    ClientConfig, ConnectionId, ConnectionIdGenerator, Endpoint, EndpointConfig, IdleTimeout,
    ServerConfig, TransportConfig,
};
use rand::rngs::StdRng;
use rand::{RngCore, SeedableRng};
use rustls::client::danger::{HandshakeSignatureValid, ServerCertVerified, ServerCertVerifier};
use rustls::crypto::{CryptoProvider, WebPkiSupportedAlgorithms};
use rustls::pki_types::{
    CertificateDer, PrivateKeyDer, PrivatePkcs8KeyDer, ServerName, UnixTime,
};
use rustls::server::danger::{ClientCertVerified, ClientCertVerifier};
use rustls::{DigitallySignedStruct, DistinguishedName, SignatureScheme};
use solana_sdk::signer::keypair::keypair_from_seed;
use solana_sdk::signer::Signer;

// ---- certificates ----

fn der(tag: u8, content: &[u8]) -> Vec<u8> {
    let mut out = vec![tag];
    if content.len() < 128 {
        out.push(content.len() as u8);
    } else if content.len() < 256 {
        out.extend_from_slice(&[0x81, content.len() as u8]);
    } else {
        out.extend_from_slice(&[0x82, (content.len() >> 8) as u8, content.len() as u8]);
    }
    out.extend_from_slice(content);
    out
}

fn join(parts: &[Vec<u8>]) -> Vec<u8> {
    parts.concat()
}

/// A certificate for an Ed25519 key. Only the key in it matters: peers check
/// that the handshake is signed with it, and nothing else.
fn certificate(key: &[u8; 32]) -> Vec<u8> {
    let ed25519 = || der(0x30, &[0x06, 0x03, 0x2b, 0x65, 0x70]);
    let name = der(
        0x30,
        &der(0x31, &der(0x30, &join(&[
            vec![0x06, 0x03, 0x55, 0x04, 0x03],
            der(0x0c, b"node"),
        ]))),
    );
    let validity = der(0x30, &join(&[
        der(0x17, b"700101000000Z"),
        der(0x18, b"40960101000000Z"),
    ]));
    let mut key_bits = vec![0u8];
    key_bits.extend_from_slice(key);
    let spki = der(0x30, &join(&[ed25519(), der(0x03, &key_bits)]));
    let alt_names = der(0x30, &der(0x82, b"localhost"));
    let san = der(0x30, &join(&[
        vec![0x06, 0x03, 0x55, 0x1d, 0x11],
        vec![0x01, 0x01, 0xff],
        der(0x04, &alt_names),
    ]));
    let constraints = der(0x30, &join(&[
        vec![0x06, 0x03, 0x55, 0x1d, 0x13],
        vec![0x01, 0x01, 0xff],
        der(0x04, &der(0x30, &[])),
    ]));
    let extensions = der(0xa3, &der(0x30, &join(&[san, constraints])));
    let tbs = der(0x30, &join(&[
        der(0xa0, &[0x02, 0x01, 0x02]),
        der(0x02, &[1; 8]),
        ed25519(),
        name,
        validity,
        der(0x30, &[]),
        spki,
        extensions,
    ]));
    let mut signature = vec![0u8];
    signature.extend_from_slice(&[0xff; 64]);
    der(0x30, &join(&[tbs, ed25519(), der(0x03, &signature)]))
}

fn private_key(secret: &[u8; 32]) -> Vec<u8> {
    der(0x30, &join(&[
        vec![0x02, 0x01, 0x00],
        der(0x30, &[0x06, 0x03, 0x2b, 0x65, 0x70]),
        der(0x04, &der(0x04, secret)),
    ]))
}

// ---- TLS ----

#[derive(Debug)]
struct KeyOnly {
    supported: WebPkiSupportedAlgorithms,
}

fn holds_a_key(cert: &CertificateDer<'_>) -> Result<(), rustls::Error> {
    match pubkey_from_certificate(cert) {
        Some(_) => Ok(()),
        None => Err(rustls::Error::General("no key in the certificate".into())),
    }
}

impl ServerCertVerifier for KeyOnly {
    fn verify_server_cert(
        &self,
        end_entity: &CertificateDer<'_>,
        _intermediates: &[CertificateDer<'_>],
        _server_name: &ServerName<'_>,
        _ocsp_response: &[u8],
        _now: UnixTime,
    ) -> Result<ServerCertVerified, rustls::Error> {
        holds_a_key(end_entity)?;
        Ok(ServerCertVerified::assertion())
    }

    fn verify_tls12_signature(
        &self,
        message: &[u8],
        cert: &CertificateDer<'_>,
        dss: &DigitallySignedStruct,
    ) -> Result<HandshakeSignatureValid, rustls::Error> {
        rustls::crypto::verify_tls12_signature(message, cert, dss, &self.supported)
    }

    fn verify_tls13_signature(
        &self,
        message: &[u8],
        cert: &CertificateDer<'_>,
        dss: &DigitallySignedStruct,
    ) -> Result<HandshakeSignatureValid, rustls::Error> {
        rustls::crypto::verify_tls13_signature(message, cert, dss, &self.supported)
    }

    fn supported_verify_schemes(&self) -> Vec<SignatureScheme> {
        self.supported.supported_schemes()
    }
}

impl ClientCertVerifier for KeyOnly {
    fn root_hint_subjects(&self) -> &[DistinguishedName] {
        &[]
    }

    fn verify_client_cert(
        &self,
        end_entity: &CertificateDer<'_>,
        _intermediates: &[CertificateDer<'_>],
        _now: UnixTime,
    ) -> Result<ClientCertVerified, rustls::Error> {
        holds_a_key(end_entity)?;
        Ok(ClientCertVerified::assertion())
    }

    fn verify_tls12_signature(
        &self,
        message: &[u8],
        cert: &CertificateDer<'_>,
        dss: &DigitallySignedStruct,
    ) -> Result<HandshakeSignatureValid, rustls::Error> {
        rustls::crypto::verify_tls12_signature(message, cert, dss, &self.supported)
    }

    fn verify_tls13_signature(
        &self,
        message: &[u8],
        cert: &CertificateDer<'_>,
        dss: &DigitallySignedStruct,
    ) -> Result<HandshakeSignatureValid, rustls::Error> {
        rustls::crypto::verify_tls13_signature(message, cert, dss, &self.supported)
    }

    fn supported_verify_schemes(&self) -> Vec<SignatureScheme> {
        self.supported.supported_schemes()
    }
}

// ---- QUIC ----

struct ResetKey(SeededResetKey);

impl HmacKey for ResetKey {
    fn sign(&self, data: &[u8], signature_out: &mut [u8]) {
        signature_out.copy_from_slice(&self.0.digest(data));
    }

    fn signature_len(&self) -> usize {
        32
    }

    fn verify(&self, data: &[u8], signature: &[u8]) -> Result<(), CryptoError> {
        if self.0.verify(data, signature) {
            Ok(())
        } else {
            Err(CryptoError)
        }
    }
}

struct SeededCids {
    rng: StdRng,
}

impl ConnectionIdGenerator for SeededCids {
    fn generate_cid(&mut self) -> ConnectionId {
        let mut bytes = [0u8; 8];
        self.rng.fill_bytes(&mut bytes);
        ConnectionId::new(&bytes)
    }

    fn cid_len(&self) -> usize {
        8
    }

    fn cid_lifetime(&self) -> Option<std::time::Duration> {
        None
    }
}

fn std_duration(d: Duration) -> std::time::Duration {
    std::time::Duration::from_nanos(d.as_nanos())
}

fn quic(seed: u64, host: u32, options: &NodeOptions) -> OverlayQuicTransport {
    let secret = derive_bytes(seed, host, "keypair");
    let key = keypair_from_seed(&secret).unwrap().pubkey().to_bytes();
    let cert = CertificateDer::from(certificate(&key));
    let private = || PrivateKeyDer::Pkcs8(PrivatePkcs8KeyDer::from(private_key(&secret)));

    let provider: Arc<CryptoProvider> = Arc::new(rustls::crypto::ring::default_provider());
    let verifier = Arc::new(KeyOnly { supported: provider.signature_verification_algorithms });
    let mut tls = rustls::ServerConfig::builder_with_provider(provider.clone())
        .with_protocol_versions(&[&rustls::version::TLS13])
        .unwrap()
        .with_client_cert_verifier(verifier.clone())
        .with_single_cert(vec![cert.clone()], private())
        .unwrap();
    tls.max_early_data_size = u32::MAX;
    let crypto = quinn_proto::crypto::rustls::QuicServerConfig::try_from(Arc::new(tls)).unwrap();

    let mut transport = TransportConfig::default();
    transport.datagram_receive_buffer_size(Some(8 * 1024 * 1024));
    transport.datagram_send_buffer_size(8 * 1024 * 1024);
    transport.keep_alive_interval(options.keep_alive_interval.map(std_duration));
    transport.max_idle_timeout(
        options.max_idle_timeout.map(|d| IdleTimeout::try_from(std_duration(d)).unwrap()),
    );
    transport.initial_mtu(options.initial_mtu.unwrap_or(1280));
    transport.mtu_discovery_config(None);
    let transport = Arc::new(transport);

    let mut server = ServerConfig::with_crypto(Arc::new(crypto));
    server.transport_config(transport.clone());

    let mut tls = rustls::ClientConfig::builder_with_provider(provider)
        .with_protocol_versions(&[&rustls::version::TLS13])
        .unwrap()
        .dangerous()
        .with_custom_certificate_verifier(verifier)
        .with_client_auth_cert(vec![cert], private())
        .unwrap();
    tls.enable_early_data = true;
    let crypto = quinn_proto::crypto::rustls::QuicClientConfig::try_from(Arc::new(tls)).unwrap();
    let mut client = ClientConfig::new(Arc::new(crypto));
    client.transport_config(transport);
    let dst_cids = Mutex::new(StdRng::from_seed(derive_bytes(seed, host, "dst-cid")));
    client.initial_dst_cid_provider(Arc::new(move || {
        let mut bytes = [0u8; 8];
        dst_cids.lock().unwrap().fill_bytes(&mut bytes);
        ConnectionId::new(&bytes)
    }));

    let mut config = EndpointConfig::new(Arc::new(ResetKey(SeededResetKey::new(seed, host))));
    let cid_seed = derive_u64(seed, host, "cid");
    config.cid_generator(move || Box::new(SeededCids { rng: StdRng::seed_from_u64(cid_seed) }));
    config.rng_seed(Some(derive_bytes(seed, host, "quic-rng")));
    let endpoint = Endpoint::new(Arc::new(config), Some(Arc::new(server)), false, None);
    OverlayQuicTransport::new(SocketId(0), endpoint, client, Instant::now())
}

// ---- a core ----

const ADVERT_INTERVAL: u64 = 10_000_000_000;
const HELLO: u8 = 1;
const SHRED: u8 = 2;

/// Says hello to its static peers every ten seconds, and passes shreds along
/// the retransmission tree of those it is connected to.
struct FloodCore {
    transport: OverlayQuicTransport,
    config: OverlayConfig,
    tree: TurbineTree,
    peers: Vec<(SocketAddr, Pubkey)>,
    seen: BTreeSet<Vec<u8>>,
    next_advert: u64,
    events: Vec<CoreEvent>,
}

impl FloodCore {
    fn new(transport: OverlayQuicTransport, config: OverlayConfig, key: Pubkey) -> Self {
        let tree = TurbineTree::new(key, config.fanout);
        FloodCore {
            transport,
            config,
            tree,
            peers: Vec::new(),
            seen: BTreeSet::new(),
            next_advert: ADVERT_INTERVAL,
            events: Vec::new(),
        }
    }

    fn send_shred<E: OverlayEnv>(&mut self, env: &mut E, shred: &[u8], to: Vec<Pubkey>) {
        let mut frame = vec![1, SHRED];
        frame.extend_from_slice(shred);
        for key in to {
            if let Some((addr, _)) = self.peers.iter().find(|(_, k)| *k == key).copied() {
                let _ = self.transport.queue_datagram(env, addr, frame.clone());
            }
        }
    }

    fn keys(&self) -> Vec<Pubkey> {
        self.peers.iter().map(|(_, key)| *key).collect()
    }

    fn pump<E: OverlayEnv>(&mut self, env: &mut E) {
        for event in self.transport.take_events() {
            match event {
                TransportEvent::Connected { peer, pubkey } => {
                    if let Some(key) = pubkey {
                        self.peers.push((peer, key));
                    }
                    self.events.push(CoreEvent::PeerConnected { peer, pubkey });
                }
                TransportEvent::Disconnected { peer, .. } => {
                    self.peers.retain(|(addr, _)| *addr != peer);
                    self.events.push(CoreEvent::PeerDisconnected { peer });
                }
            }
        }
        for (_, frame) in self.transport.take_inbound() {
            if frame.len() > 2 && frame[1] == SHRED {
                let shred = frame[2..].to_vec();
                if self.seen.insert(shred.clone()) {
                    let to = self.tree.retransmit_peers(None, &shred, &self.keys());
                    self.send_shred(env, &shred, to);
                    self.events.push(CoreEvent::ShredForFilter(shred));
                }
            }
        }
    }
}

impl OverlayCore for FloodCore {
    fn on_datagram<E: OverlayEnv>(
        &mut self,
        env: &mut E,
        socket: SocketId,
        from: SocketAddr,
        datagram: &[u8],
    ) {
        self.transport.on_datagram(env, socket, from, datagram);
        self.pump(env);
    }

    fn on_timer<E: OverlayEnv>(&mut self, env: &mut E) {
        if env.now() >= self.next_advert {
            self.next_advert += ADVERT_INTERVAL;
            for i in 0..self.config.static_peers.len() {
                let to = self.config.static_peers[i];
                let _ = self.transport.queue_datagram(env, to, vec![1, HELLO]);
            }
        }
        self.transport.on_timer(env);
        self.pump(env);
    }

    fn on_source_packet<E: OverlayEnv>(&mut self, env: &mut E, packet: &[u8]) {
        self.seen.insert(packet.to_vec());
        if self.config.mode == OverlayMode::Source {
            let to = self.tree.origin_peers(None, packet, &self.keys());
            self.send_shred(env, packet, to);
        }
        self.pump(env);
    }

    fn poll_timeout(&mut self) -> Option<u64> {
        Some(match self.transport.poll_timeout() {
            Some(at) => at.min(self.next_advert),
            None => self.next_advert,
        })
    }

    fn take_events(&mut self) -> Vec<CoreEvent> {
        std::mem::take(&mut self.events)
    }
}

struct Kit;

impl ScenarioKit for Kit {
    type Core = FloodCore;
    type Transport = OverlayQuicTransport;

    fn core_for(
        &mut self,
        seed: u64,
        host: HostId,
        config: OverlayConfig,
        options: &NodeOptions,
        _now_nanos: u64,
    ) -> FloodCore {
        let key = keypair_from_seed(&derive_bytes(seed, host.0, "keypair")).unwrap().pubkey();
        FloodCore::new(quic(seed, host.0, options), config, Pubkey::from_bytes(&key.to_bytes()))
    }

    fn transport_for(
        &mut self,
        seed: u64,
        host: HostId,
        options: &NodeOptions,
    ) -> OverlayQuicTransport {
        quic(seed, host.0, options)
    }

    fn shreds_for(&mut self, seed: u64, slot: u64) -> Vec<Vec<u8>> {
        shreds(seed, slot)
    }
}

/// Shreds of the size that Merkle data shreds have.
fn shreds(seed: u64, slot: u64) -> Vec<Vec<u8>> {
    let mut rng = StdRng::from_seed(derive_bytes(seed, slot as u32, "shreds"));
    let mut out = Vec::new();
    for _ in 0..32 {
        let mut shred = vec![0u8; 1203];
        rng.fill_bytes(&mut shred);
        out.push(shred);
    }
    out
}

type World = SimWorld<FloodCore, OverlayQuicTransport>;

fn add_node(world: &mut World, options: &NodeOptions) -> HostId {
    let config = world.node_config(options);
    let host = world.next_host();
    let machine = Kit.core_for(world.seed(), host, config, options, world.now_nanos());
    world.add_node(options, machine)
}

fn add_transport_node(world: &mut World, options: &NodeOptions) -> HostId {
    let host = world.next_host();
    let machine = Kit.transport_for(world.seed(), host, options);
    world.add_transport_node(options, machine)
}

fn delivered_set(world: &World, host: HostId) -> BTreeSet<Vec<u8>> {
    world.delivered_shreds(host).iter().cloned().collect()
}

fn shred_set(shreds: &[Vec<u8>]) -> BTreeSet<Vec<u8>> {
    shreds.iter().cloned().collect()
}

// ---- convergence ----

/// The canned lossy-exchange scenario converges under a spread of fixed
/// seeds.
#[test]
fn two_node_lossy_converges_across_seeds() {
    for seed in [1u64, 7, 42, 1234] {
        let outcome = scenario::two_node_lossy(&mut Kit, seed, false);
        assert!(
            outcome.ok,
            "two-node-lossy seed {seed} did not converge: {}",
            outcome.summary,
        );
    }
}

/// Two public source nodes over a harsher link (10% drop, 40 to 160 ms delay,
/// 2% duplication) still fully exchange all 32 shreds in each direction after
/// enough redundant rounds.
#[test]
fn two_public_nodes_converge_under_harsh_link() {
    let seed = 0x00C0_FFEE_u64;
    let mut world = World::new(seed);
    let a = add_node(
        &mut world,
        &NodeOptions {
            mode: OverlayMode::Source,
            initial_mtu: Some(SHRED_CAPABLE_MTU),
            ..NodeOptions::default()
        },
    );
    let a_addr = world.public_addr(a);
    let b = add_node(
        &mut world,
        &NodeOptions {
            mode: OverlayMode::Source,
            static_peers: vec![a_addr],
            initial_mtu: Some(SHRED_CAPABLE_MTU),
            ..NodeOptions::default()
        },
    );
    world.set_default_link(
        LinkParams::default()
            .delay(Duration::from_millis(40), Duration::from_millis(160))
            .drop_probability(Probability::ratio(1, 10))
            .duplicate_probability(Probability::ratio(1, 50)),
    );

    // Nodes only dial on their advert tick (t=10s); let the connection form
    // before any shreds are injected.
    world.run_for(Duration::from_secs(15));

    let from_a = shreds(seed, 42);
    let from_b = shreds(seed, 43);
    // 10% loss needs several spaced rounds so congestion control recovers
    // between bursts and redundancy covers dropped datagrams.
    for _round in 0..8 {
        for shred in &from_a {
            world.inject_shred(a, shred);
        }
        for shred in &from_b {
            world.inject_shred(b, shred);
        }
        world.run_for(Duration::from_secs(1));
    }
    world.run_for(Duration::from_secs(10));

    let want_at_a = shred_set(&from_b);
    let want_at_b = shred_set(&from_a);
    let got_at_a = delivered_set(&world, a);
    let got_at_b = delivered_set(&world, b);
    assert!(
        want_at_a.is_subset(&got_at_a),
        "node a missing {} of {} shreds",
        want_at_a.difference(&got_at_a).count(),
        want_at_a.len(),
    );
    assert!(
        want_at_b.is_subset(&got_at_b),
        "node b missing {} of {} shreds",
        want_at_b.difference(&got_at_b).count(),
        want_at_b.len(),
    );
}

/// A node behind a NAT converges like any other.
#[test]
fn nat_sink_failure_signature_holds() {
    for seed in [1u64, 7] {
        let outcome = scenario::two_node_nat_sink(&mut Kit, seed, false);
        assert!(
            outcome.ok,
            "two-node-nat-sink seed {seed} lost its F1/F3 signature: {}",
            outcome.summary,
        );
    }
}

/// Partition and churn: shreds injected while the link is down never arrive,
/// and once the link is restored fresh injections converge again. The
/// partition is kept under the 30s QUIC idle timeout so the connection
/// survives, and we still wait past an advert interval (>10s) after restore
/// before asserting on the post-reconnect shreds.
#[test]
fn partition_blocks_then_reconnect_delivers() {
    let seed = 0x00AB_CDEF_u64;
    let mut world = World::new(seed);
    let a = add_node(
        &mut world,
        &NodeOptions {
            mode: OverlayMode::Source,
            initial_mtu: Some(SHRED_CAPABLE_MTU),
            ..NodeOptions::default()
        },
    );
    let a_addr = world.public_addr(a);
    let b = add_node(
        &mut world,
        &NodeOptions {
            mode: OverlayMode::Source,
            static_peers: vec![a_addr],
            initial_mtu: Some(SHRED_CAPABLE_MTU),
            ..NodeOptions::default()
        },
    );
    let healthy = LinkParams::default().delay(Duration::from_millis(10), Duration::from_millis(30));
    world.set_default_link(healthy);

    world.run_for(Duration::from_secs(15));

    let baseline = shreds(seed, 10);
    for _round in 0..3 {
        for shred in &baseline {
            world.inject_shred(a, shred);
        }
        world.run_for(Duration::from_secs(1));
    }
    world.run_for(Duration::from_secs(3));
    let baseline_set = shred_set(&baseline);
    assert!(
        baseline_set.is_subset(&delivered_set(&world, b)),
        "baseline shreds never reached b on the healthy link",
    );

    world.set_link_bidir(a, b, LinkParams::default().partitioned());
    let during = shreds(seed, 20);
    for _round in 0..3 {
        for shred in &during {
            world.inject_shred(a, shred);
        }
        world.run_for(Duration::from_secs(1));
    }
    world.run_for(Duration::from_secs(3));
    let during_set = shred_set(&during);
    assert!(
        during_set.is_disjoint(&delivered_set(&world, b)),
        "{} shred(s) crossed a partitioned link",
        during_set.intersection(&delivered_set(&world, b)).count(),
    );

    world.set_link_bidir(a, b, healthy);
    world.run_for(Duration::from_secs(15));
    let after = shreds(seed, 30);
    for _round in 0..5 {
        for shred in &after {
            world.inject_shred(a, shred);
        }
        world.run_for(Duration::from_secs(1));
    }
    world.run_for(Duration::from_secs(5));
    let after_set = shred_set(&after);
    assert!(
        after_set.is_subset(&delivered_set(&world, b)),
        "fresh shreds did not arrive after the link was restored ({} of {} missing)",
        after_set.difference(&delivered_set(&world, b)).count(),
        after_set.len(),
    );
}

// ---- determinism ----

/// Seeds replayed for the per-scenario reproducibility sweep.
const REPLAY_SEEDS: [u64; 2] = [1, 987_654_321];

/// Seeds under which every deliverable scenario reports `ok`.
const OK_SEEDS: [u64; 2] = [1, 7];

/// Every canned scenario is a pure function of its seed: two in-process runs
/// with the same seed produce byte-identical traces (equal hash and equal
/// event count).
#[test]
fn same_seed_reproduces_trace_for_every_scenario() {
    for name in scenario::scenarios() {
        for &seed in &REPLAY_SEEDS {
            let first = scenario::run(&mut Kit, name, seed, false)
                .unwrap_or_else(|| panic!("unknown scenario {name}"));
            let second = scenario::run(&mut Kit, name, seed, false)
                .unwrap_or_else(|| panic!("unknown scenario {name}"));
            assert_eq!(
                first.trace_hash, second.trace_hash,
                "scenario {name} seed {seed}: trace hash diverged between identical runs",
            );
            assert_eq!(
                first.events, second.events,
                "scenario {name} seed {seed}: event count diverged between identical runs",
            );
        }
    }
}

/// Distinct seeds drive distinct executions: the hash actually depends on
/// the seed and is not a constant.
#[test]
fn distinct_seeds_diverge() {
    let a = scenario::run(&mut Kit, "two-node-lossy", 1, false).expect("known scenario");
    let b = scenario::run(&mut Kit, "two-node-lossy", 2, false).expect("known scenario");
    assert_ne!(
        a.trace_hash, b.trace_hash,
        "two different seeds collided on the same trace hash",
    );
}

/// A hand-built world is equally reproducible: a NATed node dialing a public
/// node over a lossy link, a few injected shreds, some virtual time. Same seed
/// twice, same trace hash.
#[test]
fn hand_built_world_is_reproducible() {
    fn run(seed: u64) -> String {
        let mut world = World::new(seed);
        let public = add_node(
            &mut world,
            &NodeOptions {
                mode: OverlayMode::Source,
                initial_mtu: Some(SHRED_CAPABLE_MTU),
                ..NodeOptions::default()
            },
        );
        let public_addr = world.public_addr(public);
        let natted = add_node(
            &mut world,
            &NodeOptions {
                mode: OverlayMode::Source,
                nats: vec![NatConfig::port_restricted_cone()],
                static_peers: vec![public_addr],
                initial_mtu: Some(SHRED_CAPABLE_MTU),
                ..NodeOptions::default()
            },
        );
        world.set_default_link(
            LinkParams::default()
                .delay(Duration::from_millis(10), Duration::from_millis(30))
                .drop_probability(Probability::ratio(1, 20)),
        );

        // The NATed node's first advert (t=10s) dials the public node.
        world.run_for(Duration::from_secs(15));

        let shreds = shreds(seed, 42);
        for _round in 0..3 {
            for shred in &shreds {
                world.inject_shred(public, shred);
                world.inject_shred(natted, shred);
            }
            world.run_for(Duration::from_millis(500));
        }
        world.run_for(Duration::from_secs(5));
        world.trace_hash()
    }

    assert_eq!(run(42), run(42), "hand-built world was not reproducible");
}

/// The deliverable scenarios all pass under fixed seeds. Guards against a
/// scenario silently regressing into always-failing.
#[test]
fn deliverable_scenarios_pass_for_fixed_seeds() {
    for name in scenario::scenarios() {
        for &seed in &OK_SEEDS {
            let outcome = scenario::run(&mut Kit, name, seed, false)
                .unwrap_or_else(|| panic!("unknown scenario {name}"));
            assert!(
                outcome.ok,
                "scenario {name} seed {seed} failed: {}",
                outcome.summary,
            );
        }
    }
}

#[test]
fn unknown_scenarios_are_refused() {
    assert!(scenario::run(&mut Kit, "two-node", 1, false).is_none());
    assert!(scenario::run(&mut Kit, "", 1, false).is_none());
}

#[test]
fn a_verbose_run_hands_out_its_records() {
    let quiet = scenario::nat_classify(&mut Kit, 3, false);
    let verbose = scenario::nat_classify(&mut Kit, 3, true);
    assert!(quiet.printed.is_empty());
    assert_eq!(verbose.printed.len() as u64, verbose.events);
    assert_eq!(quiet.trace_hash, verbose.trace_hash);
    let mut replayed = Trace::new(false);
    for (nanos, event) in &verbose.printed {
        replayed.record(*nanos, event);
    }
    assert_eq!(replayed.hash_hex(), verbose.trace_hash);
    assert_eq!(quiet.summary, "7 presets classified as predicted");
    assert_eq!(quiet.name, "nat-classify");
    assert_eq!(quiet.seed, 3);
    assert_eq!(quiet.trace_hash.len(), 64);
}

/// However long either datagram takes, and however often it is duplicated, what
/// was sent first over a link arrives first.
#[test]
fn links_keep_the_order_of_sending() {
    for seed in 1..6u64 {
        let mut world = World::new(seed);
        let a = world.add_probe(&Vec::new());
        let b = world.add_probe(&Vec::new());
        let from = world.probe_bind(a, 4000);
        world.probe_bind(b, 4000);
        let to = world.public_addr(b);
        world.set_default_link(
            LinkParams::default()
                .delay(Duration::from_millis(1), Duration::from_millis(500))
                .duplicate_probability(Probability::ratio(1, 2)),
        );
        for i in 0..20u8 {
            world.probe_send(a, from, to, &vec![i]);
            world.run_for(Duration::from_millis(7));
        }
        world.run_for(Duration::from_secs(5));
        let got = world.probe_received(b);
        assert!(got.len() > 20);
        for pair in got.windows(2) {
            assert!(pair[0].payload <= pair[1].payload);
            assert!(pair[0].at_nanos <= pair[1].at_nanos);
        }
    }
}

// ---- keepalive ----

/// The public-side address a NATed transport node's dial is observed at,
/// after running the world long enough for the handshake to complete.
fn dial_and_capture_mapping(world: &mut World, natted: HostId, public: HostId) -> SocketAddr {
    let public_addr = world.public_addr(public);
    world.transport_send(natted, public_addr, &b"dial-from-behind-nat".to_vec());
    world.run_for(Duration::from_secs(5));
    world
        .transport_received(public)
        .first()
        .expect("public node received the NATed node's dial")
        .0
}

/// With keepalives, the mapping survives the idle and the public side can
/// reach the NATed node afterwards, across fixed seeds.
#[test]
fn keepalive_scenario_holds_mapping() {
    for seed in [1u64, 7] {
        let outcome = scenario::keepalive_nat(&mut Kit, seed, false, true);
        assert!(outcome.ok, "keepalive seed {seed}: {}", outcome.summary);
    }
}

/// The control: without keepalives the mapping dies during the idle (the
/// scenario's `ok` asserts exactly that).
#[test]
fn keepalive_control_scenario_lets_mapping_die() {
    for seed in [1u64, 7] {
        let outcome = scenario::keepalive_nat(&mut Kit, seed, false, false);
        assert!(outcome.ok, "control seed {seed}: {}", outcome.summary);
    }
}

/// A NATed transport node behind a 60s-idle NAT holds its mapping across 300s
/// of virtual idle time under the default 10s keepalive, so a datagram to the
/// mapping after the idle still arrives.
#[test]
fn keepalive_holds_nat_mapping_direct() {
    let mut world = World::new(1);
    let public = add_transport_node(&mut world, &NodeOptions::default());
    let natted = add_transport_node(
        &mut world,
        &NodeOptions {
            nats: vec![NatConfig::port_restricted_cone().idle_timeout(Duration::from_secs(60))],
            ..NodeOptions::default()
        },
    );

    let mapping = dial_and_capture_mapping(&mut world, natted, public);

    world.run_for(Duration::from_secs(300));

    world.transport_send(public, mapping, &b"after-idle".to_vec());
    world.run_for(Duration::from_secs(5));

    assert!(
        world
            .transport_received(natted)
            .iter()
            .any(|(_, payload)| payload == b"after-idle"),
        "keepalives should have held the NAT mapping open across the idle"
    );
    assert_eq!(
        world.nat_stats(natted)[0].expired_drops,
        0,
        "no mapping should have expired"
    );
    for (_, stats) in world.transport_stats(natted) {
        assert_eq!(stats.lost_packets, 0, "clean link: no QUIC loss");
    }
}

/// Control twin of the direct test: keepalives and the idle timeout disabled
/// on both nodes. The connection sits genuinely silent, the NAT mapping
/// expires, and the post-idle datagram never reaches the NATed node.
#[test]
fn without_keepalive_nat_mapping_dies_direct() {
    let mut world = World::new(1);
    let silent = || NodeOptions {
        keep_alive_interval: None,
        max_idle_timeout: None,
        ..NodeOptions::default()
    };
    let public = add_transport_node(&mut world, &silent());
    let natted = add_transport_node(
        &mut world,
        &NodeOptions {
            nats: vec![NatConfig::port_restricted_cone().idle_timeout(Duration::from_secs(60))],
            ..silent()
        },
    );

    let mapping = dial_and_capture_mapping(&mut world, natted, public);

    world.run_for(Duration::from_secs(300));

    world.transport_send(public, mapping, &b"after-idle".to_vec());
    world.run_for(Duration::from_secs(5));

    assert!(
        !world
            .transport_received(natted)
            .iter()
            .any(|(_, payload)| payload == b"after-idle"),
        "without keepalives the mapping should have expired and dropped the datagram"
    );
    let stats = world.nat_stats(natted)[0];
    assert!(
        stats.expired_drops + stats.no_mapping_drops > 0,
        "the post-idle datagram must have been dropped at the NAT"
    );
}

/// A NAT with an idle timeout of 25s, below the 30s QUIC idle timeout but
/// above the 10s keepalive, still survives, because the keepalive refreshes
/// the mapping well inside its window.
#[test]
fn keepalive_survives_sub_max_idle_nat_timeout() {
    let mut world = World::new(1);
    let public = add_transport_node(&mut world, &NodeOptions::default());
    let natted = add_transport_node(
        &mut world,
        &NodeOptions {
            nats: vec![NatConfig::port_restricted_cone().idle_timeout(Duration::from_secs(25))],
            ..NodeOptions::default()
        },
    );

    let mapping = dial_and_capture_mapping(&mut world, natted, public);

    world.run_for(Duration::from_secs(300));

    world.transport_send(public, mapping, &b"after-idle".to_vec());
    world.run_for(Duration::from_secs(5));

    assert!(
        world
            .transport_received(natted)
            .iter()
            .any(|(_, payload)| payload == b"after-idle"),
        "the 10s keepalive should refresh a 25s NAT mapping in time"
    );
    assert_eq!(world.nat_stats(natted)[0].expired_drops, 0);
}

// ---- IPv6 ----

const SEEDS: [u64; 4] = [1, 7, 42, 987_654_321];
const LOSSY_SEEDS: [u64; 4] = [1, 7, 42, 1234];

/// The two-node convergence contract with every datagram riding the v6 path.
#[test]
fn two_node_lossy_v6_converges_across_seeds() {
    for seed in LOSSY_SEEDS {
        let outcome = scenario::two_node_lossy_v6(&mut Kit, seed, false);
        assert!(outcome.ok, "seed {seed}: {}", outcome.summary);
    }
}

/// With the production 10s QUIC keepalive a firewall's flow survives a long
/// idle and the public side still reaches the firewalled node afterwards.
#[test]
fn keepalive_firewall_v6_holds_flow_open() {
    for seed in SEEDS {
        let outcome = scenario::keepalive_firewall_v6(&mut Kit, seed, false, true);
        assert!(outcome.ok, "keepalive seed {seed}: {}", outcome.summary);
    }
}

/// The control twin: with keepalives disabled the v6 firewall flow goes idle,
/// its state expires, and the post-idle datagram is filtered before it reaches
/// the firewalled node.
#[test]
fn keepalive_firewall_v6_control_lets_flow_expire() {
    for seed in SEEDS {
        let outcome = scenario::keepalive_firewall_v6(&mut Kit, seed, false, false);
        assert!(outcome.ok, "control seed {seed}: {}", outcome.summary);
    }
}

// ---- classification ----

/// The full observation procedure over every preset classifies as the taxonomy
/// predicts, across fixed seeds.
#[test]
fn nat_classify_scenario_ok() {
    for seed in [1u64, 424_242] {
        let outcome = scenario::nat_classify(&mut Kit, seed, false);
        assert!(outcome.ok, "seed {seed}: {}", outcome.summary);
    }
}

/// Each case, run through the observation procedure on a fresh world, yields
/// its expected class, including the port-preserving symmetric NAT that
/// presents as a cone and the field-note NAT that presents as port-dependent.
#[test]
fn classify_cases_match_expected() {
    for case in scenario::classify_cases() {
        let mut world = World::new(99);
        let got = scenario::classify_one(&mut world, case.preset);
        assert_eq!(got, Some(case.expected), "case {}", case.name);
    }
}

// ---- worlds ----

/// A NATed node dials a public node through the world and the QUIC handshake
/// completes on both sides.
#[test]
fn smoke_natted_node_connects_to_public_node() {
    let mut world = World::new(7);
    let public = add_node(
        &mut world,
        &NodeOptions { mode: OverlayMode::Source, ..NodeOptions::default() },
    );
    let public_addr = world.public_addr(public);
    let natted = add_node(
        &mut world,
        &NodeOptions {
            nats: vec![NatConfig::port_restricted_cone()],
            static_peers: vec![public_addr],
            ..NodeOptions::default()
        },
    );
    world.set_default_link(
        LinkParams::default().delay(Duration::from_millis(10), Duration::from_millis(30)),
    );

    // First advert (t=10s) triggers the dial.
    world.run_for(Duration::from_secs(20));

    let natted_pubkey = world.overlay_pubkey(natted);
    let public_pubkey = world.overlay_pubkey(public);
    assert_ne!(natted_pubkey, public_pubkey);
    // Both ends saw a connection: the NATed node created a mapping and the
    // handshake produced traffic in both directions.
    assert!(world.nat_stats(natted)[0].mappings_created >= 1);
    assert!(world.trace_events() > 0);
}

/// Bursts of full-size datagrams over a clean FIFO link arrive completely.
#[test]
fn bare_transport_burst_delivers_everything() {
    let mut world = World::new(3);
    let a = add_transport_node(&mut world, &NodeOptions::default());
    let a_addr = world.public_addr(a);
    let b = add_transport_node(&mut world, &NodeOptions::default());

    for round in 0..5u8 {
        for i in 0..32u8 {
            let mut payload = vec![0u8; 1232];
            payload[0] = round;
            payload[1] = i;
            world.transport_send(b, a_addr, &payload);
        }
        world.run_for(Duration::from_millis(500));
    }
    world.run_for(Duration::from_secs(30));

    assert_eq!(world.transport_received(a).len(), 160);
    assert_eq!(world.transport_pending(b), 0);
    let counted = world.transport_stats(b);
    assert_eq!(counted.len(), 1);
    for (_, stats) in counted {
        assert_eq!(stats.lost_packets, 0);
        assert_eq!(stats.congestion_events, 0);
        assert!(stats.sent_packets >= 160);
    }
}

const DATAGRAM_BUDGET: usize = 1242;
const MAX_SHRED_BYTES: usize = 1228;

/// A payload of exactly the budget traverses a bare-transport pair at the
/// production MTU; one byte more is refused and never arrives.
#[test]
fn datagram_budget_boundary_at_production_mtu() {
    let mut world = World::new(11);
    let receiver = add_transport_node(&mut world, &NodeOptions::default());
    let receiver_addr = world.public_addr(receiver);
    let sender = add_transport_node(&mut world, &NodeOptions::default());

    world.transport_send(sender, receiver_addr, &vec![0xA5; DATAGRAM_BUDGET]);
    world.transport_send(sender, receiver_addr, &vec![0x5A; DATAGRAM_BUDGET + 1]);
    world.run_for(Duration::from_secs(5));

    let received = world.transport_received(receiver);
    assert!(
        received.iter().any(|(_, payload)| payload.len() == DATAGRAM_BUDGET),
        "budget-sized datagram must arrive"
    );
    assert!(
        !received.iter().any(|(_, payload)| payload.len() == DATAGRAM_BUDGET + 1),
        "over-budget datagram must be refused at the sender"
    );
}

/// A max-size shred frame flows end to end between overlay nodes at the
/// production MTU.
#[test]
fn max_size_shred_frame_fits_and_flows() {
    let mut world = World::new(13);
    let source = add_node(
        &mut world,
        &NodeOptions { mode: OverlayMode::Source, ..NodeOptions::default() },
    );
    let source_addr = world.public_addr(source);
    let sink = add_node(
        &mut world,
        &NodeOptions { static_peers: vec![source_addr], ..NodeOptions::default() },
    );

    // The sink's first advert (t=10s) dials the source.
    world.run_for(Duration::from_secs(15));
    let payload = vec![0xC3; MAX_SHRED_BYTES];
    world.inject_shred(source, &payload);
    world.run_for(Duration::from_secs(2));

    assert!(
        world.delivered_shreds(sink).iter().any(|shred| shred == &payload),
        "max-size shred must traverse the overlay at the production MTU"
    );
}

/// A host that is down takes nothing in, and a node that restarts comes back
/// under its identity.
#[test]
fn a_node_restarts_under_its_identity() {
    let mut world = World::new(17);
    let source = add_node(
        &mut world,
        &NodeOptions { mode: OverlayMode::Source, ..NodeOptions::default() },
    );
    let source_addr = world.public_addr(source);
    let options = NodeOptions { static_peers: vec![source_addr], ..NodeOptions::default() };
    let sink = add_node(&mut world, &options);
    let before = world.overlay_pubkey(sink);
    world.run_for(Duration::from_secs(15));
    world.set_host_up(sink, false);
    let payload = vec![7u8; 900];
    world.inject_shred(source, &payload);
    world.run_for(Duration::from_secs(2));
    assert!(world.delivered_shreds(sink).is_empty());
    world.restart_overlay_node(sink, &mut Kit);
    assert_eq!(world.overlay_pubkey(sink), before);
    // The fresh core has the peers that the node was set up with.
    world.run_for(Duration::from_secs(15));
    let payload = vec![8u8; 900];
    world.inject_shred(source, &payload);
    world.run_for(Duration::from_secs(2));
    assert!(world.delivered_shreds(sink).contains(&payload));
    // A probe has no core to restart.
    let probe = world.add_probe(&Vec::new());
    let events = world.trace_events();
    world.restart_overlay_node(probe, &mut Kit);
    assert_eq!(world.trace_events(), events);
}

/// The certificate of a node names its key.
#[test]
fn a_certificate_gives_its_key() {
    let cert = certificate(&[9u8; 32]);
    assert_eq!(pubkey_from_certificate(&cert), Some(Pubkey::from_bytes(&[9u8; 32])));
    assert_eq!(pubkey_from_certificate(&cert[..60]), None);
    assert_eq!(pubkey_from_certificate(b"no certificate"), None);
}

/// A peer is known by the key of its certificate once connected.
#[test]
fn a_connected_peer_has_its_identity() {
    let seed = 5u64;
    let mut world = World::with_trace(seed, true);
    let a = add_transport_node(&mut world, &NodeOptions::default());
    let b = add_transport_node(&mut world, &NodeOptions::default());
    let a_addr = world.public_addr(a);
    let b_addr = world.public_addr(b);
    world.transport_send(b, a_addr, &b"hello".to_vec());
    world.run_for(Duration::from_secs(2));
    let received = world.transport_received(a);
    assert_eq!(received.len(), 1);
    assert_eq!(received[0].1, b"hello".to_vec());
    let key = keypair_from_seed(&derive_bytes(seed, b.0, "keypair")).unwrap().pubkey();
    assert_eq!(world.overlay_pubkey(b), Some(Pubkey::from_bytes(&key.to_bytes())));
    // Each side has learnt who the other is.
    let printed = world.take_printed();
    for (host, peer, pubkey) in
        [(a.0, b_addr, world.overlay_pubkey(b)), (b.0, a_addr, world.overlay_pubkey(a))]
    {
        assert!(pubkey.is_some());
        let known = printed.iter().any(|(_, event)| match event {
            TraceEvent::PeerConnected { host: h, peer: p, pubkey: k } => {
                (*h, *p, *k) == (host, peer, pubkey)
            }
            _ => false,
        });
        assert!(known, "host {host}");
    }
}
