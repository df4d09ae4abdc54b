//! Composable NAT boxes and the residential IPv6 firewall.
//!
//! A [`NatBox`] rewrites datagrams. It is parameterized by mapping key,
//! allocator, filtering, idle timeout and port pool, and boxes compose into
//! chains for double NAT. Its maps are ordered and its only randomness is the
//! generator seeded at construction, so what it does is a function of the
//! seed.

use rand::rngs::StdRng;
use std::collections::BTreeMap;
use vstd::prelude::*;
use crate::addr::{IpAddr, SocketAddr};
use crate::codec::copy_vec;
use crate::ordmap::{lemma_lexicographic, OrdMap, Rank};
use crate::rng::{random_range_u16, range_u16_draw, rng_state, seed_from_u64, seeded_state};
use crate::time::{bump, bumped, sat_u64, Duration};

verus! {

/// Which parts of the destination select the mapping.
#[derive(Clone, Copy, Debug, PartialEq, Eq, Structural)]
pub enum MappingKey {
    /// One mapping per internal socket, whatever the destination.
    EndpointIndependent,
    /// The mapping varies with the destination port and ignores the
    /// destination address.
    DstPort,
    /// The mapping varies with the destination address and ignores the
    /// destination port.
    DstAddr,
    /// Fully symmetric: a mapping per destination address and port.
    DstAddrPort,
}

/// How external ports are chosen.
#[derive(Clone, Copy, Debug, PartialEq, Eq, Structural)]
pub enum Allocator {
    /// Present the internal source port externally when it is free.
    Preserving,
    /// Walk the pool with a fixed stride.
    Sequential { stride: u16 },
    /// Uniform over the pool.
    Random,
}

/// Which sources may come in through a mapping.
#[derive(Clone, Copy, Debug, PartialEq, Eq, Structural)]
pub enum Filtering {
    EndpointIndependent,
    AddressRestricted,
    PortRestricted,
}

#[derive(Clone, Copy, Debug)]
pub struct NatConfig {
    pub mapping: MappingKey,
    pub allocator: Allocator,
    pub filtering: Filtering,
    /// Mappings refresh on outbound traffic only; idle mappings expire.
    pub idle_timeout: Duration,
    /// The lowest and the highest port of the pool.
    pub port_range: (u16, u16),
    pub hairpin: bool,
}

/// The configuration that the presets share: 30 seconds of idle time, the
/// pool 40000 to 59999, no hairpinning.
pub open spec fn base_config(
    mapping: MappingKey,
    allocator: Allocator,
    filtering: Filtering,
) -> NatConfig {
    NatConfig {
        mapping,
        allocator,
        filtering,
        idle_timeout: Duration { nanos: 30_000_000_000 },
        port_range: (40_000, 59_999),
        hairpin: false,
    }
}

impl NatConfig {
    /// The port pool is not empty.
    pub open spec fn wf(&self) -> bool {
        self.port_range.0 <= self.port_range.1
    }

    fn base(mapping: MappingKey, allocator: Allocator, filtering: Filtering) -> (config: Self)
        ensures
            config == base_config(mapping, allocator, filtering),
    {
        NatConfig {
            mapping,
            allocator,
            filtering,
            idle_timeout: Duration::from_secs(30),
            port_range: (40_000, 59_999),
            hairpin: false,
        }
    }

    pub fn full_cone() -> (config: Self)
        ensures
            config == base_config(
                MappingKey::EndpointIndependent,
                Allocator::Preserving,
                Filtering::EndpointIndependent,
            ),
    {
        Self::base(
            MappingKey::EndpointIndependent,
            Allocator::Preserving,
            Filtering::EndpointIndependent,
        )
    }

    pub fn restricted_cone() -> (config: Self)
        ensures
            config == base_config(
                MappingKey::EndpointIndependent,
                Allocator::Preserving,
                Filtering::AddressRestricted,
            ),
    {
        Self::base(
            MappingKey::EndpointIndependent,
            Allocator::Preserving,
            Filtering::AddressRestricted,
        )
    }

    pub fn port_restricted_cone() -> (config: Self)
        ensures
            config == base_config(
                MappingKey::EndpointIndependent,
                Allocator::Preserving,
                Filtering::PortRestricted,
            ),
    {
        Self::base(
            MappingKey::EndpointIndependent,
            Allocator::Preserving,
            Filtering::PortRestricted,
        )
    }

    /// A router measured in the field: the mapping is keyed on the destination
    /// port alone, so that checkers on one fixed port take it for endpoint
    /// independent.
    pub fn field_note_fiber() -> (config: Self)
        ensures
            config == base_config(
                MappingKey::DstPort,
                Allocator::Sequential { stride: 1 },
                Filtering::PortRestricted,
            ),
    {
        Self::base(
            MappingKey::DstPort,
            Allocator::Sequential { stride: 1 },
            Filtering::PortRestricted,
        )
    }

    pub fn symmetric_sequential(stride: u16) -> (config: Self)
        ensures
            config == base_config(
                MappingKey::DstAddrPort,
                Allocator::Sequential { stride },
                Filtering::PortRestricted,
            ),
    {
        Self::base(
            MappingKey::DstAddrPort,
            Allocator::Sequential { stride },
            Filtering::PortRestricted,
        )
    }

    pub fn symmetric_random() -> (config: Self)
        ensures
            config == base_config(
                MappingKey::DstAddrPort,
                Allocator::Random,
                Filtering::PortRestricted,
            ),
    {
        Self::base(MappingKey::DstAddrPort, Allocator::Random, Filtering::PortRestricted)
    }

    /// A port-preserving symmetric NAT: endpoint independent until two
    /// internal sockets want one port.
    pub fn symmetric_preserving() -> (config: Self)
        ensures
            config == base_config(
                MappingKey::DstAddrPort,
                Allocator::Preserving,
                Filtering::PortRestricted,
            ),
    {
        Self::base(MappingKey::DstAddrPort, Allocator::Preserving, Filtering::PortRestricted)
    }

    /// A carrier-grade NAT: random and symmetric, with a pool of `pool_size`
    /// ports, but never fewer than two. The pool must fit above port 40000.
    pub fn cgn_random(pool_size: u16) -> (config: Self)
        requires
            pool_size <= 25_536,
        ensures
            config == (NatConfig {
                port_range: (
                    40_000,
                    if pool_size <= 2 {
                        40_001
                    } else {
                        (40_000 + pool_size - 1) as u16
                    },
                ),
                ..base_config(MappingKey::DstAddrPort, Allocator::Random, Filtering::PortRestricted)
            }),
    {
        let mut config = Self::symmetric_random();
        let above: u16 = pool_size.saturating_sub(1);
        let above: u16 = if above < 1 {
            1
        } else {
            above
        };
        config.port_range = (40_000, 40_000 + above);
        config
    }

    pub fn idle_timeout(self, idle_timeout: Duration) -> (config: Self)
        ensures
            config == (NatConfig { idle_timeout, ..self }),
    {
        let mut config = self;
        config.idle_timeout = idle_timeout;
        config
    }
}

/// The part of a destination that selects a mapping.
#[derive(Clone, Copy, Debug, PartialEq, Eq, Structural)]
pub enum MapKey {
    Any,
    Port(u16),
    Addr(IpAddr),
    AddrPort(SocketAddr),
}

impl Rank for MapKey {
    open spec fn rank(self) -> int {
        match self {
            MapKey::Any => 0,
            MapKey::Port(port) => 1 + port,
            MapKey::Addr(ip) => 0x1_0001 + ip.rank(),
            MapKey::AddrPort(addr) => 0x1_0001 + crate::addr::ip_span() + addr.rank(),
        }
    }

    proof fn rank_injective(a: Self, b: Self) {
        match (a, b) {
            (MapKey::Addr(x), MapKey::Addr(y)) => {
                IpAddr::rank_injective(x, y);
            },
            (MapKey::AddrPort(x), MapKey::AddrPort(y)) => {
                SocketAddr::rank_injective(x, y);
            },
            _ => {},
        }
    }

    fn before(&self, other: &Self) -> (r: bool) {
        match (self, other) {
            (MapKey::Any, MapKey::Any) => false,
            (MapKey::Any, _) => true,
            (_, MapKey::Any) => false,
            (MapKey::Port(a), MapKey::Port(b)) => *a < *b,
            (MapKey::Port(_), _) => true,
            (_, MapKey::Port(_)) => false,
            (MapKey::Addr(a), MapKey::Addr(b)) => a.before(b),
            (MapKey::Addr(_), MapKey::AddrPort(_)) => true,
            (MapKey::AddrPort(_), MapKey::Addr(_)) => false,
            (MapKey::AddrPort(a), MapKey::AddrPort(b)) => a.before(b),
        }
    }
}

/// The key that `dst` has under `mapping`.
pub open spec fn key_of(mapping: MappingKey, dst: SocketAddr) -> MapKey {
    match mapping {
        MappingKey::EndpointIndependent => MapKey::Any,
        MappingKey::DstPort => MapKey::Port(dst.port),
        MappingKey::DstAddr => MapKey::Addr(dst.ip),
        MappingKey::DstAddrPort => MapKey::AddrPort(dst),
    }
}

fn map_key(mapping: MappingKey, dst: SocketAddr) -> (key: MapKey)
    ensures
        key == key_of(mapping, dst),
{
    match mapping {
        MappingKey::EndpointIndependent => MapKey::Any,
        MappingKey::DstPort => MapKey::Port(dst.port()),
        MappingKey::DstAddr => MapKey::Addr(dst.ip()),
        MappingKey::DstAddrPort => MapKey::AddrPort(dst),
    }
}

/// What a mapping belongs to: an internal socket and a key.
#[derive(Clone, Copy, Debug, PartialEq, Eq, Structural)]
pub struct Slot {
    pub src: SocketAddr,
    pub key: MapKey,
}

/// How many places the keys take up in the order.
pub open spec fn key_span() -> int {
    0x1_0001 + crate::addr::ip_span() + crate::addr::ip_span() * 0x1_0000
}

proof fn lemma_key_rank(key: MapKey)
    ensures
        0 <= key.rank() < key_span(),
{
    assert(crate::addr::ip_span() * 0x1_0000 == 0x1_0000_0000_0000_0000_0000_0000_0000_0000int
        * 0x1_0000 + 0x1_0000_0000_0000);
}

impl Rank for Slot {
    open spec fn rank(self) -> int {
        self.src.rank() * key_span() + self.key.rank()
    }

    proof fn rank_injective(a: Self, b: Self) {
        lemma_key_rank(a.key);
        lemma_key_rank(b.key);
        lemma_lexicographic(
            a.src.rank(),
            a.key.rank(),
            b.src.rank(),
            b.key.rank(),
            key_span(),
        );
        SocketAddr::rank_injective(a.src, b.src);
        MapKey::rank_injective(a.key, b.key);
    }

    fn before(&self, other: &Self) -> (r: bool) {
        proof {
            lemma_key_rank(self.key);
            lemma_key_rank(other.key);
            lemma_lexicographic(
                self.src.rank(),
                self.key.rank(),
                other.src.rank(),
                other.key.rank(),
                key_span(),
            );
        }
        if self.src.before(&other.src) {
            true
        } else if other.src.before(&self.src) {
            false
        } else {
            self.key.before(&other.key)
        }
    }
}

/// A mapping as the contracts speak of it.
pub struct MappingView {
    pub port: u16,
    pub last_refresh: u64,
    pub allowed: Set<SocketAddr>,
}

#[derive(Debug)]
struct Mapping {
    internal: SocketAddr,
    external_port: u16,
    last_refresh: u64,
    /// The remote endpoints that this mapping has sent a packet to, against
    /// which the filtering policy holds inbound sources.
    allowed: Vec<SocketAddr>,
}

impl Mapping {
    pub closed spec fn view(&self) -> MappingView {
        MappingView {
            port: self.external_port,
            last_refresh: self.last_refresh,
            allowed: self.allowed@.to_set(),
        }
    }
}

/// A lease that opens `port` to every source until it expires.
#[derive(Clone, Copy, Debug)]
pub struct StaticMapping {
    pub internal: SocketAddr,
    pub expires: u64,
}

#[derive(Clone, Copy, Debug, PartialEq, Eq, Structural)]
pub enum NatDropReason {
    NoMapping,
    MappingExpired,
    Filtered,
    PortPoolExhausted,
}

impl NatDropReason {
    /// The reason's name.
    pub open spec fn label(&self) -> &'static str {
        match self {
            NatDropReason::NoMapping => "no-mapping",
            NatDropReason::MappingExpired => "mapping-expired",
            NatDropReason::Filtered => "filtered",
            NatDropReason::PortPoolExhausted => "port-pool-exhausted",
        }
    }

    pub fn as_str(&self) -> (s: &'static str)
        ensures
            s == self.label(),
    {
        match self {
            NatDropReason::NoMapping => "no-mapping",
            NatDropReason::MappingExpired => "mapping-expired",
            NatDropReason::Filtered => "filtered",
            NatDropReason::PortPoolExhausted => "port-pool-exhausted",
        }
    }
}

#[derive(Clone, Copy, Debug, PartialEq, Eq, Structural)]
pub struct NatStats {
    pub mappings_created: u64,
    pub static_installs: u64,
    pub expired_drops: u64,
    pub filtered_drops: u64,
    pub no_mapping_drops: u64,
    pub pool_exhausted_drops: u64,
}

impl NatStats {
    pub open spec fn zero() -> Self {
        NatStats {
            mappings_created: 0,
            static_installs: 0,
            expired_drops: 0,
            filtered_drops: 0,
            no_mapping_drops: 0,
            pool_exhausted_drops: 0,
        }
    }
}

impl Default for NatStats {
    fn default() -> (stats: Self)
        ensures
            stats == NatStats::zero(),
    {
        NatStats {
            mappings_created: 0,
            static_installs: 0,
            expired_drops: 0,
            filtered_drops: 0,
            no_mapping_drops: 0,
            pool_exhausted_drops: 0,
        }
    }
}

#[derive(Clone, Copy, Debug, PartialEq, Eq, Structural)]
pub struct OutboundPass {
    pub external: SocketAddr,
    /// A fresh mapping was allocated for this datagram.
    pub created: bool,
}

/// A NAT box as the contracts speak of it.
#[verifier::ext_equal]
pub struct NatView {
    pub config: NatConfig,
    pub external_ip: IpAddr,
    pub maps: Map<Slot, MappingView>,
    pub statics: Map<u16, StaticMapping>,
    pub next_port: u16,
    pub rng: Seq<int>,
    pub stats: NatStats,
}

impl NatView {
    /// The state of a box that has seen no traffic.
    pub open spec fn fresh(config: NatConfig, external_ip: IpAddr, rng_seed: u64) -> Self {
        NatView {
            config,
            external_ip,
            maps: Map::empty(),
            statics: Map::empty(),
            next_port: config.port_range.0,
            rng: seeded_state(rng_seed),
            stats: NatStats::zero(),
        }
    }

    /// The pool is not empty, and the walk stands inside it. No two mappings
    /// share an external port, but for those of one internal socket on a box
    /// that preserves ports.
    pub open spec fn wf(self) -> bool {
        &&& self.config.wf()
        &&& self.config.port_range.0 <= self.next_port <= self.config.port_range.1
        &&& forall|a: Slot, b: Slot|
            #![trigger self.maps[a], self.maps[b]]
            self.maps.dom().contains(a) && self.maps.dom().contains(b) && self.maps[a].port
                == self.maps[b].port ==> self.may_share(a, b)
    }

    /// Two mappings may have one external port.
    pub open spec fn may_share(self, a: Slot, b: Slot) -> bool {
        a.src == b.src && (a == b || self.config.allocator is Preserving)
    }

    /// A lease and a mapping that are live at `now` on one port belong to one
    /// internal socket.
    pub open spec fn leases_agree(self, now: u64) -> bool {
        forall|s: Slot| #[trigger]
            self.live(s, now) && self.static_live(now, self.maps[s].port)
                ==> self.statics[self.maps[s].port].internal == s.src
    }

    /// Every mapping has a port of the pool.
    pub open spec fn in_pool(self) -> bool {
        forall|s: Slot| #[trigger]
            self.maps.dom().contains(s) ==> self.config.port_range.0 <= self.maps[s].port
                <= self.config.port_range.1
    }

    /// `slot` has a mapping that has not idled out at `now`.
    pub open spec fn live(self, slot: Slot, now: u64) -> bool {
        &&& self.maps.dom().contains(slot)
        &&& now - self.maps[slot].last_refresh <= self.config.idle_timeout.nanos
    }

    /// `slot` has a mapping on external port `port`.
    pub open spec fn on_port(self, slot: Slot, port: u16) -> bool {
        self.maps.dom().contains(slot) && self.maps[slot].port == port
    }

    /// A lease on `port` has not run out at `now`.
    pub open spec fn static_live(self, now: u64, port: u16) -> bool {
        self.statics.dom().contains(port) && now <= self.statics[port].expires
    }

    /// The state without the mappings on `port` that have idled out.
    pub open spec fn purged(self, now: u64, port: u16) -> Self {
        NatView {
            maps: Map::new(
                |s: Slot|
                    self.maps.dom().contains(s) && (self.maps[s].port == port ==> self.live(s, now)),
                |s: Slot| self.maps[s],
            ),
            ..self
        }
    }

    /// `port` can take a new mapping: nothing live holds it, but for what
    /// belongs to `share`.
    pub open spec fn port_free(self, now: u64, port: u16, share: Option<SocketAddr>) -> bool {
        &&& forall|s: Slot| #[trigger]
            self.on_port(s, port) && self.live(s, now) ==> share == Some(s.src)
        &&& self.static_live(now, port) ==> share == Some(self.statics[port].internal)
    }

    /// The port after `port` on a walk of the pool with `stride`.
    pub open spec fn step_port(self, port: u16, stride: int) -> u16 {
        let lo = self.config.port_range.0;
        let hi = self.config.port_range.1;
        (lo + (port - lo + stride) % (hi - lo + 1)) as u16
    }

    /// Walks the pool for a free port, at most `n` steps.
    pub open spec fn walked(self, now: u64, stride: int, n: nat) -> (Option<u16>, Self)
        decreases n,
    {
        if n == 0 {
            (None, self)
        } else {
            let candidate = self.next_port;
            let next = NatView {
                next_port: self.step_port(candidate, stride),
                ..self.purged(now, candidate)
            };
            if self.port_free(now, candidate, None) {
                (Some(candidate), next)
            } else {
                next.walked(now, stride, (n - 1) as nat)
            }
        }
    }

    /// Draws ports of the pool until one is free, at most `n` draws.
    pub open spec fn drawn(self, now: u64, n: nat) -> (Option<u16>, Self)
        decreases n,
    {
        if n == 0 {
            (None, self)
        } else {
            let (candidate, rng) = range_u16_draw(
                self.rng,
                self.config.port_range.0,
                self.config.port_range.1,
            );
            let next = NatView { rng, ..self.purged(now, candidate) };
            if self.port_free(now, candidate, None) {
                (Some(candidate), next)
            } else {
                next.drawn(now, (n - 1) as nat)
            }
        }
    }

    pub open spec fn pool_size(self) -> nat {
        (self.config.port_range.1 - self.config.port_range.0 + 1) as nat
    }

    /// The allocator would try the internal port first.
    pub open spec fn prefers(self, internal: SocketAddr) -> bool {
        self.config.allocator is Preserving && self.config.port_range.0 <= internal.port
            <= self.config.port_range.1
    }

    /// Chooses an external port for a mapping of `internal`.
    pub open spec fn allocated(self, now: u64, internal: SocketAddr) -> (Option<u16>, Self) {
        if self.prefers(internal) && self.port_free(now, internal.port, Some(internal)) {
            (Some(internal.port), self.purged(now, internal.port))
        } else {
            let st = if self.prefers(internal) {
                self.purged(now, internal.port)
            } else {
                self
            };
            match self.config.allocator {
                Allocator::Preserving => st.walked(now, 1, self.pool_size()),
                Allocator::Sequential { stride } => st.walked(
                    now,
                    if stride == 0 {
                        1
                    } else {
                        stride as int
                    },
                    self.pool_size(),
                ),
                Allocator::Random => st.drawn(
                    now,
                    if self.pool_size() * 2 < 64 {
                        64
                    } else {
                        self.pool_size() * 2
                    },
                ),
            }
        }
    }

    /// What becomes of a datagram from `src` on the inside to `dst` outside.
    pub open spec fn sent_out(self, now: u64, src: SocketAddr, dst: SocketAddr) -> (
        Result<OutboundPass, NatDropReason>,
        Self,
    ) {
        let slot = Slot { src, key: key_of(self.config.mapping, dst) };
        if self.live(slot, now) {
            let mapping = self.maps[slot];
            let refreshed = MappingView {
                last_refresh: now,
                allowed: mapping.allowed.insert(dst),
                ..mapping
            };
            (
                Ok(
                    OutboundPass {
                        external: SocketAddr { ip: self.external_ip, port: mapping.port },
                        created: false,
                    },
                ),
                NatView { maps: self.maps.insert(slot, refreshed), ..self },
            )
        } else {
            let (chosen, st) = (NatView { maps: self.maps.remove(slot), ..self }).allocated(
                now,
                src,
            );
            match chosen {
                None => (
                    Err(NatDropReason::PortPoolExhausted),
                    NatView {
                        stats: NatStats {
                            pool_exhausted_drops: bumped(st.stats.pool_exhausted_drops),
                            ..st.stats
                        },
                        ..st
                    },
                ),
                Some(port) => (
                    Ok(
                        OutboundPass {
                            external: SocketAddr { ip: self.external_ip, port },
                            created: true,
                        },
                    ),
                    NatView {
                        maps: st.maps.insert(
                            slot,
                            MappingView {
                                port,
                                last_refresh: now,
                                allowed: Set::empty().insert(dst),
                            },
                        ),
                        stats: NatStats {
                            mappings_created: bumped(st.stats.mappings_created),
                            ..st.stats
                        },
                        ..st
                    },
                ),
            }
        }
    }

    /// The filtering policy lets `src` in through `slot`.
    pub open spec fn passes(self, slot: Slot, src: SocketAddr) -> bool {
        match self.config.filtering {
            Filtering::EndpointIndependent => true,
            Filtering::AddressRestricted => exists|e: SocketAddr| #[trigger]
                self.maps[slot].allowed.contains(e) && e.ip == src.ip,
            Filtering::PortRestricted => self.maps[slot].allowed.contains(src),
        }
    }

    /// `slot` has a live mapping on `port` that lets `src` in.
    pub open spec fn admits(self, slot: Slot, now: u64, src: SocketAddr, port: u16) -> bool {
        self.on_port(slot, port) && self.live(slot, now) && self.passes(slot, src)
    }

    /// What becomes of a datagram from `src` outside to `dst` on this box. A
    /// mapping that lets it in is not refreshed.
    pub open spec fn let_in(self, now: u64, src: SocketAddr, dst: SocketAddr) -> (
        Result<SocketAddr, NatDropReason>,
        Self,
    ) {
        let port = dst.port;
        if self.static_live(now, port) {
            (Ok(self.statics[port].internal), self)
        } else if !(exists|s: Slot| self.on_port(s, port)) {
            (
                Err(NatDropReason::NoMapping),
                NatView {
                    stats: NatStats {
                        no_mapping_drops: bumped(self.stats.no_mapping_drops),
                        ..self.stats
                    },
                    ..self
                },
            )
        } else {
            let st = self.purged(now, port);
            if exists|s: Slot| self.admits(s, now, src, port) {
                (Ok((choose|s: Slot| self.admits(s, now, src, port)).src), st)
            } else if exists|s: Slot| #[trigger] self.on_port(s, port) && self.live(s, now) {
                (
                    Err(NatDropReason::Filtered),
                    NatView {
                        stats: NatStats {
                            filtered_drops: bumped(st.stats.filtered_drops),
                            ..st.stats
                        },
                        ..st
                    },
                )
            } else {
                (
                    Err(NatDropReason::MappingExpired),
                    NatView {
                        stats: NatStats {
                            expired_drops: bumped(st.stats.expired_drops),
                            ..st.stats
                        },
                        ..st
                    },
                )
            }
        }
    }

    /// Opens a lease for `internal`: on `suggested`, or on the internal port
    /// where none is suggested, if that is free, and else on a port of the
    /// pool.
    pub open spec fn leased(self, now: u64, internal: SocketAddr, suggested: u16, lease: Duration) -> (
        Option<u16>,
        Self,
    ) {
        let first = if suggested != 0 {
            suggested
        } else {
            internal.port
        };
        let (chosen, st) = if first != 0 && self.port_free(now, first, Some(internal)) {
            (Some(first), self.purged(now, first))
        } else if first != 0 {
            self.purged(now, first).allocated(now, internal)
        } else {
            self.allocated(now, internal)
        };
        match chosen {
            None => (None, st),
            Some(port) => (
                Some(port),
                NatView {
                    statics: st.statics.insert(
                        port,
                        StaticMapping { internal, expires: sat_u64(now + lease.nanos) },
                    ),
                    stats: NatStats {
                        static_installs: bumped(st.stats.static_installs),
                        ..st.stats
                    },
                    ..st
                },
            ),
        }
    }
}

/// A NAT box.
pub struct NatBox {
    pub config: NatConfig,
    pub external_ip: IpAddr,
    mappings: OrdMap<Slot, Mapping>,
    /// One external port can carry several mappings of one internal socket:
    /// port-preserving symmetric boxes reuse the port for each destination.
    by_port: BTreeMap<u16, Vec<Slot>>,
    statics: BTreeMap<u16, StaticMapping>,
    next_port: u16,
    rng: StdRng,
    pub stats: NatStats,
}

/// The index by port lists each mapping once, under its own port, and
/// nothing else.
spec fn in_sync(maps: Map<Slot, Mapping>, ports: Map<u16, Vec<Slot>>) -> bool {
    &&& forall|s: Slot| #[trigger]
        maps.dom().contains(s) ==> ports.dom().contains(maps[s].external_port)
            && ports[maps[s].external_port]@.contains(s)
    &&& forall|p: u16, i: int|
        #![trigger ports[p]@[i]]
        ports.dom().contains(p) && 0 <= i < ports[p]@.len() ==> maps.dom().contains(ports[p]@[i])
            && maps[ports[p]@[i]].external_port == p
    &&& forall|p: u16| #[trigger]
        ports.dom().contains(p) ==> ports[p]@.no_duplicates() && ports[p]@.len() > 0
}

impl NatBox {
    pub closed spec fn view(&self) -> NatView {
        NatView {
            config: self.config,
            external_ip: self.external_ip,
            maps: self.mappings@.map_values(|m: Mapping| m@),
            statics: self.statics@,
            next_port: self.next_port,
            rng: rng_state(self.rng),
            stats: self.stats,
        }
    }

    spec fn tables_wf(&self) -> bool {
        &&& self.mappings.wf()
        &&& in_sync(self.mappings@, self.by_port@)
        &&& forall|s: Slot| #[trigger]
            self.mappings@.dom().contains(s) ==> self.mappings@[s].internal == s.src
    }

    /// The box is consistent: see [`NatView::wf`].
    pub closed spec fn wf(&self) -> bool {
        self.tables_wf() && self@.wf() && self@.in_pool()
    }

    /// What a consistent box gives its callers.
    pub proof fn lemma_wf(&self)
        requires
            self.wf(),
        ensures
            self@.wf(),
            self@.in_pool(),
            self@.maps.dom().finite(),
    {
        self.mappings.lemma_len();
        assert(self@.maps.dom() =~= self.mappings@.dom());
    }

    pub fn new(config: NatConfig, external_ip: IpAddr, rng_seed: u64) -> (b: Self)
        requires
            config.wf(),
        ensures
            b.wf(),
            b@ == NatView::fresh(config, external_ip, rng_seed),
    {
        let next_port: u16 = config.port_range.0;
        let b = NatBox {
            config,
            external_ip,
            mappings: OrdMap::new(),
            by_port: BTreeMap::new(),
            statics: BTreeMap::new(),
            next_port,
            rng: seed_from_u64(rng_seed),
            stats: NatStats::default(),
        };
        assert(b@.maps =~= Map::<Slot, MappingView>::empty());
        b
    }

    fn expired(&self, mapping: &Mapping, now: u64) -> (r: bool)
        ensures
            r == (now - mapping.last_refresh > self.config.idle_timeout.nanos),
    {
        now.saturating_sub(mapping.last_refresh) > self.config.idle_timeout.as_nanos()
    }

    /// Takes the mapping of `slot` away.
    fn evict(&mut self, slot: Slot)
        requires
            old(self).tables_wf(),
        ensures
            final(self).tables_wf(),
            final(self).mappings@ == old(self).mappings@.remove(slot),
            final(self)@ == (NatView { maps: old(self)@.maps.remove(slot), ..old(self)@ }),
    {
        let ghost before = *self;
        match self.mappings.remove(&slot) {
            None => {
                assert(before.mappings@.remove(slot) =~= before.mappings@);
                assert(self@.maps =~= before@.maps.remove(slot));
            },
            Some(mapping) => {
                let port: u16 = mapping.external_port;
                let slots = match self.by_port.get(&port) {
                    Some(slots) => without(slots, slot),
                    None => Vec::new(),
                };
                let ghost listed = before.by_port@[port]@;
                let emptied = slots.len() == 0;
                if emptied {
                    self.by_port.remove(&port);
                } else {
                    self.by_port.insert(port, slots);
                }
                proof {
                    assert(self@.maps =~= before@.maps.remove(slot));
                    let maps = self.mappings@;
                    let ports = self.by_port@;
                    assert forall|s: Slot| #[trigger] maps.dom().contains(s) implies ports.dom().contains(
                        maps[s].external_port,
                    ) && ports[maps[s].external_port]@.contains(s) by {
                        assert(before.mappings@.dom().contains(s));
                        if maps[s].external_port == port {
                            let i = choose|i: int| 0 <= i < listed.len() && listed[i] == s;
                            assert(slots@.contains(s));
                        }
                    }
                    assert forall|p: u16, i: int|
                        #![trigger ports[p]@[i]]
                        ports.dom().contains(p) && 0 <= i < ports[p]@.len() implies maps.dom().contains(
                        ports[p]@[i],
                    ) && maps[ports[p]@[i]].external_port == p by {
                        let s = ports[p]@[i];
                        if p == port {
                            assert(slots@.contains(s));
                            let j = choose|j: int| 0 <= j < listed.len() && listed[j] == s;
                            assert(before.by_port@[p]@[j] == s);
                        } else {
                            assert(before.by_port@[p]@[i] == s);
                        }
                    }
                }
            },
        }
    }

    /// Takes away the mappings on `port` that have idled out.
    fn purge(&mut self, now: u64, port: u16)
        requires
            old(self).tables_wf(),
        ensures
            final(self).tables_wf(),
            final(self)@ == old(self)@.purged(now, port),
    {
        let ghost before = *self;
        let slots = match self.by_port.get(&port) {
            Some(slots) => copy_vec(slots),
            None => {
                proof {
                    assert forall|s: Slot| before.mappings@.dom().contains(
                        s,
                    ) implies before.mappings@[s].external_port != port by {}
                    assert(self@.maps =~= before@.purged(now, port).maps);
                }
                return ;
            },
        };
        let mut i: usize = 0;
        while i < slots.len()
            invariant
                i <= slots@.len(),
                self.tables_wf(),
                before.tables_wf(),
                before.by_port@.dom().contains(port),
                slots@ == before.by_port@[port]@,
                self@ == (NatView { maps: self@.maps, ..before@ }),
                forall|s: Slot| #[trigger]
                    self.mappings@.dom().contains(s) ==> before.mappings@.dom().contains(s)
                        && self.mappings@[s] == before.mappings@[s],
                forall|s: Slot| #[trigger]
                    before.mappings@.dom().contains(s) && !self.mappings@.dom().contains(s)
                        ==> before.mappings@[s].external_port == port && !before@.live(s, now),
                forall|j: int|
                    #![trigger slots@[j]]
                    0 <= j < i && self.mappings@.dom().contains(slots@[j]) ==> before@.live(
                        slots@[j],
                        now,
                    ),
            decreases slots@.len() - i,
        {
            let slot = slots[i];
            assert(before.by_port@[port]@[i as int] == slot);
            let dead = match self.mappings.get(&slot) {
                Some(mapping) => self.expired(mapping, now),
                None => false,
            };
            if dead {
                self.evict(slot);
            }
            i += 1;
        }
        proof {
            let want = before@.purged(now, port).maps;
            assert forall|s: Slot| self@.maps.dom().contains(s) <==> want.dom().contains(s) by {
                if self.mappings@.dom().contains(s) && before.mappings@[s].external_port == port {
                    let j = choose|j: int| 0 <= j < slots@.len() && slots@[j] == s;
                    assert(before@.live(slots@[j], now));
                }
            }
            assert(self@.maps =~= want);
        }
    }

    pub fn config(&self) -> (config: NatConfig)
        ensures
            config == self@.config,
    {
        self.config
    }

    pub fn external_ip(&self) -> (ip: IpAddr)
        ensures
            ip == self@.external_ip,
    {
        self.external_ip
    }

    pub fn stats(&self) -> (stats: NatStats)
        ensures
            stats == self@.stats,
    {
        self.stats
    }

    /// Whether `port` can take a new mapping. With `share_with` set, the port
    /// may already carry mappings of that internal socket.
    #[verifier::loop_isolation(false)]
    fn port_available(&mut self, now: u64, port: u16, share_with: Option<SocketAddr>) -> (r: bool)
        requires
            old(self).tables_wf(),
        ensures
            final(self).tables_wf(),
            final(self)@ == old(self)@.purged(now, port),
            r == old(self)@.port_free(now, port, share_with),
    {
        let ghost before = *self;
        self.purge(now, port);
        let ghost st = self@;
        assert(forall|s: Slot|
            st.on_port(s, port) ==> before@.on_port(s, port) && before@.live(s, now));
        assert(forall|s: Slot| #[trigger]
            before@.on_port(s, port) && before@.live(s, now) ==> st.on_port(s, port));
        let leased = match self.statics.get(&port) {
            Some(lease) => now <= lease.expires && share_with != Some(lease.internal),
            None => false,
        };
        if leased {
            return false;
        }
        match self.by_port.get(&port) {
            None => {
                proof {
                    assert forall|s: Slot| !#[trigger] st.on_port(s, port) by {}
                }
                true
            },
            Some(slots) => {
                let mut i: usize = 0;
                while i < slots.len()
                    invariant
                        i <= slots@.len(),
                        self.tables_wf(),
                        self.by_port@.dom().contains(port),
                        slots@ == self.by_port@[port]@,
                        st == self@,
                        forall|s: Slot|
                            st.on_port(s, port) ==> before@.on_port(s, port) && before@.live(s, now),
                        forall|j: int|
                            0 <= j < i ==> share_with == Some((#[trigger] slots@[j]).src),
                    decreases slots@.len() - i,
                {
                    let slot = slots[i];
                    if share_with != Some(slot.src) {
                        proof {
                            assert(self.by_port@[port]@[i as int] == slot);
                            assert(st.on_port(slot, port));
                        }
                        return false;
                    }
                    i += 1;
                }
                proof {
                    assert forall|s: Slot| #[trigger]
                        before@.on_port(s, port) && before@.live(s, now) implies share_with == Some(
                        s.src,
                    ) by {
                        assert(st.on_port(s, port));
                        let j = choose|j: int| 0 <= j < slots@.len() && slots@[j] == s;
                        assert(slots@[j].src == s.src);
                    }
                }
                true
            },
        }
    }

    #[verifier::loop_isolation(false)]
    fn allocate_port(&mut self, now: u64, internal: SocketAddr) -> (r: Option<u16>)
        requires
            old(self).tables_wf(),
            old(self)@.wf(),
        ensures
            final(self).tables_wf(),
            (r, final(self)@) == old(self)@.allocated(now, internal),
            r matches Some(port) ==> old(self)@.config.port_range.0 <= port
                <= old(self)@.config.port_range.1,
    {
        let (lo, hi) = self.config.port_range;
        let pool_size: u32 = (hi - lo) as u32 + 1;
        let preserving = match self.config.allocator {
            Allocator::Preserving => true,
            _ => false,
        };
        let ghost start = self@;
        if preserving && lo <= internal.port() && internal.port() <= hi {
            if self.port_available(now, internal.port(), Some(internal)) {
                return Some(internal.port());
            }
        }
        let ghost st = self@;
        match self.config.allocator {
            Allocator::Random => {
                let tries: u32 = if pool_size * 2 < 64 {
                    64
                } else {
                    pool_size * 2
                };
                let mut left: u32 = tries;
                while left > 0
                    invariant
                        self.tables_wf(),
                        self.config.port_range == (lo, hi),
                        lo <= hi,
                        self@.drawn(now, left as nat) == st.drawn(now, tries as nat),
                    decreases left,
                {
                    let ghost was = self@;
                    let candidate: u16 = random_range_u16(&mut self.rng, lo, hi);
                    let ghost rng = rng_state(self.rng);
                    assert((candidate, rng) == range_u16_draw(was.rng, lo, hi));
                    let ghost mid = self@;
                    assert(mid =~= NatView { rng, ..was });
                    left -= 1;
                    if self.port_available(now, candidate, None) {
                        assert(self@ =~= NatView { rng, ..was.purged(now, candidate) });
                        proof {
                            lemma_port_free_rng(was, rng, now, candidate);
                        }
                        return Some(candidate);
                    }
                    proof {
                        assert(self@ =~= NatView { rng, ..was.purged(now, candidate) });
                        lemma_port_free_rng(was, rng, now, candidate);
                    }
                }
                None
            },
            allocator => {
                let stride: u16 = match allocator {
                    Allocator::Sequential { stride } => if stride == 0 {
                        1
                    } else {
                        stride
                    },
                    _ => 1,
                };
                let mut left: u32 = pool_size;
                assert(st.wf());
                while left > 0
                    invariant
                        self.tables_wf(),
                        self.config.port_range == (lo, hi),
                        lo <= self.next_port <= hi,
                        self@.walked(now, stride as int, left as nat) == st.walked(
                            now,
                            stride as int,
                            pool_size as nat,
                        ),
                    decreases left,
                {
                    let ghost was = self@;
                    let candidate: u16 = self.next_port;
                    let span: u32 = (hi - lo) as u32 + 1;
                    let offset: u32 = ((candidate - lo) as u32 + stride as u32) % span;
                    self.next_port = lo + offset as u16;
                    let ghost next = self.next_port;
                    assert(self@ =~= NatView { next_port: next, ..was });
                    left -= 1;
                    let free = self.port_available(now, candidate, None);
                    proof {
                        assert(next == was.step_port(candidate, stride as int));
                        assert(self@ =~= NatView { next_port: next, ..was.purged(now, candidate) });
                        lemma_port_free_next(was, next, now, candidate);
                    }
                    if free {
                        return Some(candidate);
                    }
                }
                None
            },
        }
    }

    /// A datagram from the inside: allocates or refreshes the mapping of
    /// `src` and the key of `dst`, and says what source address the datagram
    /// leaves with.
    pub fn outbound(&mut self, now: u64, src: SocketAddr, dst: SocketAddr) -> (r: Result<
        OutboundPass,
        NatDropReason,
    >)
        requires
            old(self).wf(),
        ensures
            final(self).wf(),
            (r, final(self)@) == old(self)@.sent_out(now, src, dst),
            r matches Ok(pass) ==> old(self)@.config.port_range.0 <= pass.external.port
                <= old(self)@.config.port_range.1,
    {
        let ghost before = *self;
        let key = map_key(self.config.mapping, dst);
        let slot = Slot { src, key };
        let (known, dead) = match self.mappings.get(&slot) {
            Some(mapping) => (true, self.expired(mapping, now)),
            None => (false, false),
        };
        assert((known && !dead) == before@.live(slot, now));
        if known && !dead {
            let external_ip = self.external_ip;
            let (port, allowed) = match self.mappings.get(&slot) {
                Some(mapping) => (mapping.external_port, with_endpoint(&mapping.allowed, dst)),
                None => (0u16, Vec::new()),
            };
            self.mappings.insert(
                slot,
                Mapping { internal: src, external_port: port, last_refresh: now, allowed },
            );
            proof {
                assert(self@ =~= before@.sent_out(now, src, dst).1);
                assert(self@.wf());
            }
            return Ok(
                OutboundPass { external: SocketAddr::new(external_ip, port), created: false },
            );
        }
        if dead {
            self.evict(slot);
        }
        let ghost st0 = self@;
        assert(st0 =~= NatView { maps: before@.maps.remove(slot), ..before@ });
        let chosen = self.allocate_port(now, src);
        let ghost st = self@;
        proof {
            lemma_allocated(st0, now, src);
        }
        match chosen {
            None => {
                self.stats.pool_exhausted_drops = bump(self.stats.pool_exhausted_drops);
                assert(self@ =~= before@.sent_out(now, src, dst).1);
                Err(NatDropReason::PortPoolExhausted)
            },
            Some(port) => {
                let ghost prior = *self;
                let mut slots = match self.by_port.get(&port) {
                    Some(slots) => copy_vec(slots),
                    None => Vec::new(),
                };
                let ghost listed = slots@;
                assert(!st.maps.dom().contains(slot));
                assert(!prior.mappings@.dom().contains(slot));
                slots.push(slot);
                let allowed = with_endpoint(&Vec::new(), dst);
                assert(allowed@.to_set() =~= Set::empty().insert(dst));
                self.mappings.insert(
                    slot,
                    Mapping { internal: src, external_port: port, last_refresh: now, allowed },
                );
                self.by_port.insert(port, slots);
                self.stats.mappings_created = bump(self.stats.mappings_created);
                proof {
                    lemma_listed(
                        prior.mappings@,
                        prior.by_port@,
                        slot,
                        self.mappings@[slot],
                        slots,
                    );
                    assert(self@ =~= before@.sent_out(now, src, dst).1);
                    assert(self@.wf()) by {
                        assert forall|a: Slot, b: Slot|
                            #![trigger self@.maps[a], self@.maps[b]]
                            self@.maps.dom().contains(a) && self@.maps.dom().contains(b)
                                && self@.maps[a].port == self@.maps[b].port implies self@.may_share(
                            a,
                            b,
                        ) by {
                            if a != slot {
                                assert(st.maps[a] == self@.maps[a]);
                                if b == slot {
                                    assert(st.on_port(a, port));
                                }
                            }
                            if b != slot {
                                assert(st.maps[b] == self@.maps[b]);
                                if a == slot {
                                    assert(st.on_port(b, port));
                                }
                            }
                        }
                    }
                }
                Ok(
                    OutboundPass {
                        external: SocketAddr::new(self.external_ip, port),
                        created: true,
                    },
                )
            },
        }
    }

    /// A datagram from the outside to `dst` on this box: finds a live lease
    /// or mapping on that port, applies the filtering policy to `src`, and
    /// gives the internal socket. Inbound traffic does not refresh mappings.
    #[verifier::loop_isolation(false)]
    pub fn inbound(&mut self, now: u64, src: SocketAddr, dst: SocketAddr) -> (r: Result<
        SocketAddr,
        NatDropReason,
    >)
        requires
            old(self).wf(),
        ensures
            final(self).wf(),
            (r, final(self)@) == old(self)@.let_in(now, src, dst),
    {
        let ghost before = *self;
        let port: u16 = dst.port();
        if let Some(lease) = self.statics.get(&port) {
            if now <= lease.expires {
                return Ok(lease.internal);
            }
        }
        if !self.by_port.contains_key(&port) {
            self.stats.no_mapping_drops = bump(self.stats.no_mapping_drops);
            proof {
                assert forall|s: Slot| !#[trigger] before@.on_port(s, port) by {}
                assert(self@ =~= before@.let_in(now, src, dst).1);
            }
            return Err(NatDropReason::NoMapping);
        }
        proof {
            let first = before.by_port@[port]@[0];
            assert(before@.on_port(first, port));
        }
        self.purge(now, port);
        let ghost st = self@;
        assert(st.wf()) by {
            lemma_purged_wf(before@, now, port);
        }
        assert(forall|s: Slot|
            st.on_port(s, port) ==> before@.on_port(s, port) && before@.live(s, now)
                && st.maps[s] == before@.maps[s]);
        assert(forall|s: Slot| #[trigger]
            before@.on_port(s, port) && before@.live(s, now) ==> st.on_port(s, port));
        match self.by_port.get(&port) {
            None => {
                self.stats.expired_drops = bump(self.stats.expired_drops);
                proof {
                    assert forall|s: Slot| !#[trigger] st.on_port(s, port) by {}
                    assert(self@ =~= before@.let_in(now, src, dst).1);
                }
                Err(NatDropReason::MappingExpired)
            },
            Some(slots) => {
                let mut i: usize = 0;
                while i < slots.len()
                    invariant
                        i <= slots@.len(),
                        self.tables_wf(),
                        self@.wf(),
                        before@.wf(),
                        self@ == before@.purged(now, port),
                        self.by_port@.dom().contains(port),
                        slots@ == self.by_port@[port]@,
                        st == self@,
                        port == dst.port,
                        !before@.static_live(now, port),
                        exists|s: Slot| before@.on_port(s, port),
                        forall|s: Slot|
                            st.on_port(s, port) ==> before@.on_port(s, port) && before@.live(s, now)
                                && st.maps[s] == before@.maps[s],
                        forall|j: int|
                            0 <= j < i ==> !before@.passes(#[trigger] slots@[j], src),
                    decreases slots@.len() - i,
                {
                    let slot = slots[i];
                    assert(self.by_port@[port]@[i as int] == slot);
                    assert(st.on_port(slot, port));
                    if let Some(mapping) = self.mappings.get(&slot) {
                        let passes = match self.config.filtering {
                            Filtering::EndpointIndependent => true,
                            Filtering::AddressRestricted => has_ip(&mapping.allowed, src.ip()),
                            Filtering::PortRestricted => has_endpoint(&mapping.allowed, src),
                        };
                        proof {
                            assert(before@.maps[slot].allowed == mapping.allowed@.to_set());
                            assert(passes == before@.passes(slot, src));
                        }
                        if passes {
                            proof {
                                assert(before@.admits(slot, now, src, port));
                                let other = choose|s: Slot| before@.admits(s, now, src, port);
                                assert(before@.maps[other].port == before@.maps[slot].port);
                            }
                            return Ok(mapping.internal);
                        }
                    }
                    i += 1;
                }
                self.stats.filtered_drops = bump(self.stats.filtered_drops);
                proof {
                    let first = slots@[0];
                    assert(before@.on_port(first, port) && before@.live(first, now)) by {
                        assert(st.on_port(first, port));
                    }
                    assert forall|s: Slot| !#[trigger] before@.admits(s, now, src, port) by {
                        if before@.on_port(s, port) && before@.live(s, now) {
                            assert(st.on_port(s, port));
                            let j = choose|j: int| 0 <= j < slots@.len() && slots@[j] == s;
                            assert(!before@.passes(slots@[j], src));
                        }
                    }
                    assert(self@ =~= before@.let_in(now, src, dst).1);
                }
                Err(NatDropReason::Filtered)
            },
        }
    }

    /// Opens a lease for `internal`, or renews it, and gives its port. While
    /// it lasts, every source may come in on that port.
    pub fn install_static(
        &mut self,
        now: u64,
        internal: SocketAddr,
        suggested: u16,
        lease: Duration,
    ) -> (r: Option<u16>)
        requires
            old(self).wf(),
        ensures
            final(self).wf(),
            (r, final(self)@) == old(self)@.leased(now, internal, suggested, lease),
    {
        let ghost before = *self;
        let first: u16 = if suggested != 0 {
            suggested
        } else {
            internal.port()
        };
        let mut chosen: Option<u16> = None;
        if first != 0 && self.port_available(now, first, Some(internal)) {
            chosen = Some(first);
        }
        let ghost mid = self@;
        proof {
            if first != 0 {
                lemma_purged_wf(before@, now, first);
            }
        }
        if chosen.is_none() {
            chosen = self.allocate_port(now, internal);
            proof {
                lemma_allocated(mid, now, internal);
            }
        }
        if let Some(port) = chosen {
            let expires: u64 = now.saturating_add(lease.as_nanos());
            self.statics.insert(port, StaticMapping { internal, expires });
            self.stats.static_installs = bump(self.stats.static_installs);
        }
        assert(self@ =~= before@.leased(now, internal, suggested, lease).1);
        chosen
    }

    /// Ends the lease of `internal` on `port`, if it holds one.
    pub fn remove_static(&mut self, internal: SocketAddr, port: u16)
        requires
            old(self).wf(),
        ensures
            final(self).wf(),
            final(self)@ == (NatView {
                statics: if old(self)@.statics.dom().contains(port)
                    && old(self)@.statics[port].internal == internal {
                    old(self)@.statics.remove(port)
                } else {
                    old(self)@.statics
                },
                ..old(self)@
            }),
    {
        let held = match self.statics.get(&port) {
            Some(lease) => lease.internal == internal,
            None => false,
        };
        if held {
            self.statics.remove(&port);
        }
    }

    /// Whether a lease on `port` is live.
    pub fn static_map_live(&self, now: u64, port: u16) -> (r: bool)
        requires
            self.wf(),
        ensures
            r == self@.static_live(now, port),
    {
        match self.statics.get(&port) {
            Some(lease) => now <= lease.expires,
            None => false,
        }
    }
}

proof fn lemma_port_free_rng(st: NatView, rng: Seq<int>, now: u64, port: u16)
    ensures
        (NatView { rng, ..st }).port_free(now, port, None) == st.port_free(now, port, None),
        (NatView { rng, ..st }).purged(now, port) == (NatView { rng, ..st.purged(now, port) }),
{
    let other = NatView { rng, ..st };
    assert(forall|s: Slot| other.on_port(s, port) == #[trigger] st.on_port(s, port));
    assert(forall|s: Slot| #[trigger] other.on_port(s, port) == st.on_port(s, port));
    assert(forall|s: Slot| other.live(s, now) == st.live(s, now));
    assert(other.purged(now, port) =~= NatView { rng, ..st.purged(now, port) });
}

proof fn lemma_port_free_next(st: NatView, next_port: u16, now: u64, port: u16)
    ensures
        (NatView { next_port, ..st }).port_free(now, port, None) == st.port_free(now, port, None),
        (NatView { next_port, ..st }).purged(now, port) == (NatView {
            next_port,
            ..st.purged(now, port)
        }),
{
    let other = NatView { next_port, ..st };
    assert(forall|s: Slot| other.on_port(s, port) == #[trigger] st.on_port(s, port));
    assert(forall|s: Slot| #[trigger] other.on_port(s, port) == st.on_port(s, port));
    assert(forall|s: Slot| other.live(s, now) == st.live(s, now));
    assert(other.purged(now, port) =~= NatView { next_port, ..st.purged(now, port) });
}

proof fn lemma_purged_wf(st: NatView, now: u64, port: u16)
    requires
        st.wf(),
    ensures
        st.purged(now, port).wf(),
{
    let after = st.purged(now, port);
    assert forall|a: Slot, b: Slot|
        #![trigger after.maps[a], after.maps[b]]
        after.maps.dom().contains(a) && after.maps.dom().contains(b) && after.maps[a].port
            == after.maps[b].port implies after.may_share(a, b) by {
        assert(st.maps[a] == after.maps[a]);
        assert(st.maps[b] == after.maps[b]);
    }
}

/// Listing one more slot under its port keeps the index in step.
proof fn lemma_listed(
    maps: Map<Slot, Mapping>,
    ports: Map<u16, Vec<Slot>>,
    slot: Slot,
    mapping: Mapping,
    slots: Vec<Slot>,
)
    requires
        in_sync(maps, ports),
        !maps.dom().contains(slot),
        slots@ == (if ports.dom().contains(mapping.external_port) {
            ports[mapping.external_port]@
        } else {
            Seq::empty()
        }).push(slot),
    ensures
        in_sync(maps.insert(slot, mapping), ports.insert(mapping.external_port, slots)),
{
    let port = mapping.external_port;
    let maps2 = maps.insert(slot, mapping);
    let ports2 = ports.insert(port, slots);
    assert(slots@.last() == slot);
    assert forall|s: Slot| #[trigger] maps2.dom().contains(s) implies ports2.dom().contains(
        maps2[s].external_port,
    ) && ports2[maps2[s].external_port]@.contains(s) by {
        if s == slot {
            assert(slots@[slots@.len() - 1] == s);
        } else {
            assert(maps.dom().contains(s));
            if maps[s].external_port == port {
                let i = choose|i: int| 0 <= i < ports[port]@.len() && ports[port]@[i] == s;
                assert(slots@[i] == s);
            }
        }
    }
    assert forall|p: u16, i: int|
        #![trigger ports2[p]@[i]]
        ports2.dom().contains(p) && 0 <= i < ports2[p]@.len() implies maps2.dom().contains(
        ports2[p]@[i],
    ) && maps2[ports2[p]@[i]].external_port == p by {
        if p != port {
            assert(ports[p]@[i] == ports2[p]@[i]);
        } else if i < slots@.len() - 1 {
            assert(ports[p]@[i] == ports2[p]@[i]);
        }
    }
    assert forall|p: u16| #[trigger] ports2.dom().contains(p) implies ports2[p]@.no_duplicates()
        && ports2[p]@.len() > 0 by {
        if p == port && ports.dom().contains(p) {
            assert forall|a: int, b: int|
                0 <= a < slots@.len() && 0 <= b < slots@.len() && a != b implies slots@[a]
                != slots@[b] by {
                if a < slots@.len() - 1 {
                    assert(maps.dom().contains(ports[p]@[a]));
                }
                if b < slots@.len() - 1 {
                    assert(maps.dom().contains(ports[p]@[b]));
                }
            }
        }
    }
}

/// Choosing a port keeps the box consistent and only takes mappings away;
/// what is left on the chosen port belongs to `internal`.
proof fn lemma_allocated(st: NatView, now: u64, internal: SocketAddr)
    requires
        st.wf(),
    ensures
        ({
            let (chosen, after) = st.allocated(now, internal);
            &&& after.wf()
            &&& after == (NatView {
                maps: after.maps,
                next_port: after.next_port,
                rng: after.rng,
                ..st
            })
            &&& forall|s: Slot| #[trigger]
                after.maps.dom().contains(s) ==> st.maps.dom().contains(s) && after.maps[s]
                    == st.maps[s]
            &&& chosen matches Some(port) ==> forall|s: Slot| #[trigger]
                after.on_port(s, port) ==> s.src == internal && st.config.allocator is Preserving
            &&& chosen matches Some(port) ==> (st.static_live(now, port)
                ==> st.statics[port].internal == internal)
        }),
{
    lemma_purged_wf(st, now, internal.port);
    let base = if st.prefers(internal) {
        st.purged(now, internal.port)
    } else {
        st
    };
    if !(st.prefers(internal) && st.port_free(now, internal.port, Some(internal))) {
        match st.config.allocator {
            Allocator::Preserving => {
                lemma_walked(base, now, 1, st.pool_size());
            },
            Allocator::Sequential { stride } => {
                lemma_walked(
                    base,
                    now,
                    if stride == 0 {
                        1
                    } else {
                        stride as int
                    },
                    st.pool_size(),
                );
            },
            Allocator::Random => {
                lemma_drawn(
                    base,
                    now,
                    if st.pool_size() * 2 < 64 {
                        64
                    } else {
                        st.pool_size() * 2
                    },
                );
            },
        }
    } else {
        let after = st.purged(now, internal.port);
        assert forall|s: Slot| #[trigger] after.on_port(s, internal.port) implies s.src
            == internal && st.config.allocator is Preserving by {
            assert(st.on_port(s, internal.port) && st.live(s, now));
        }
    }
}

proof fn lemma_walked(st: NatView, now: u64, stride: int, n: nat)
    requires
        st.wf(),
        0 < stride <= 0xffff,
    ensures
        ({
            let (chosen, after) = st.walked(now, stride, n);
            &&& after.wf()
            &&& after == (NatView { maps: after.maps, next_port: after.next_port, ..st })
            &&& forall|s: Slot| #[trigger]
                after.maps.dom().contains(s) ==> st.maps.dom().contains(s) && after.maps[s]
                    == st.maps[s]
            &&& chosen matches Some(port) ==> !st.static_live(now, port) && forall|s: Slot|
                !#[trigger] after.on_port(s, port)
        }),
    decreases n,
{
    if n > 0 {
        let candidate = st.next_port;
        let next = NatView {
            next_port: st.step_port(candidate, stride),
            ..st.purged(now, candidate)
        };
        lemma_purged_wf(st, now, candidate);
        let lo = st.config.port_range.0;
        let hi = st.config.port_range.1;
        assert(0 <= (candidate - lo + stride) % (hi - lo + 1) < hi - lo + 1);
        assert(next.wf());
        if !st.port_free(now, candidate, None) {
            lemma_walked(next, now, stride, (n - 1) as nat);
        } else {
            assert forall|s: Slot| !#[trigger] next.on_port(s, candidate) by {
                if next.on_port(s, candidate) {
                    assert(st.on_port(s, candidate) && st.live(s, now));
                }
            }
        }
    }
}

proof fn lemma_drawn(st: NatView, now: u64, n: nat)
    requires
        st.wf(),
    ensures
        ({
            let (chosen, after) = st.drawn(now, n);
            &&& after.wf()
            &&& after == (NatView { maps: after.maps, rng: after.rng, ..st })
            &&& forall|s: Slot| #[trigger]
                after.maps.dom().contains(s) ==> st.maps.dom().contains(s) && after.maps[s]
                    == st.maps[s]
            &&& chosen matches Some(port) ==> !st.static_live(now, port) && forall|s: Slot|
                !#[trigger] after.on_port(s, port)
        }),
    decreases n,
{
    if n > 0 {
        let (candidate, rng) = range_u16_draw(
            st.rng,
            st.config.port_range.0,
            st.config.port_range.1,
        );
        let next = NatView { rng, ..st.purged(now, candidate) };
        lemma_purged_wf(st, now, candidate);
        assert(next.wf());
        if !st.port_free(now, candidate, None) {
            lemma_drawn(next, now, (n - 1) as nat);
        } else {
            assert forall|s: Slot| !#[trigger] next.on_port(s, candidate) by {
                if next.on_port(s, candidate) {
                    assert(st.on_port(s, candidate) && st.live(s, now));
                }
            }
        }
    }
}

/// `endpoints` with `endpoint` in it.
fn with_endpoint(endpoints: &Vec<SocketAddr>, endpoint: SocketAddr) -> (out: Vec<SocketAddr>)
    ensures
        out@.to_set() == endpoints@.to_set().insert(endpoint),
{
    let mut out = copy_vec(endpoints);
    if !has_endpoint(endpoints, endpoint) {
        out.push(endpoint);
        proof {
            assert forall|e: SocketAddr| out@.contains(e) <==> endpoints@.contains(e) || e
                == endpoint by {
                if endpoints@.contains(e) {
                    let k = choose|k: int| 0 <= k < endpoints@.len() && endpoints@[k] == e;
                    assert(out@[k] == e);
                }
                assert(out@[endpoints@.len() as int] == endpoint);
            }
        }
    }
    assert(out@.to_set() =~= endpoints@.to_set().insert(endpoint));
    out
}

fn has_endpoint(endpoints: &Vec<SocketAddr>, endpoint: SocketAddr) -> (r: bool)
    ensures
        r == endpoints@.contains(endpoint),
        r == endpoints@.to_set().contains(endpoint),
{
    let mut i: usize = 0;
    while i < endpoints.len()
        invariant
            i <= endpoints@.len(),
            forall|j: int| 0 <= j < i ==> endpoints@[j] != endpoint,
        decreases endpoints@.len() - i,
    {
        if endpoints[i] == endpoint {
            return true;
        }
        i += 1;
    }
    false
}

fn has_ip(endpoints: &Vec<SocketAddr>, ip: IpAddr) -> (r: bool)
    ensures
        r == (exists|e: SocketAddr| #[trigger] endpoints@.to_set().contains(e) && e.ip == ip),
{
    let mut i: usize = 0;
    while i < endpoints.len()
        invariant
            i <= endpoints@.len(),
            forall|j: int| 0 <= j < i ==> (#[trigger] endpoints@[j]).ip != ip,
        decreases endpoints@.len() - i,
    {
        if endpoints[i].ip() == ip {
            assert(endpoints@.to_set().contains(endpoints@[i as int]));
            return true;
        }
        i += 1;
    }
    false
}

/// `slots` without `gone`.
fn without(slots: &Vec<Slot>, gone: Slot) -> (out: Vec<Slot>)
    ensures
        forall|s: Slot| #[trigger] out@.contains(s) <==> slots@.contains(s) && s != gone,
        slots@.no_duplicates() ==> out@.no_duplicates(),
{
    let mut out: Vec<Slot> = Vec::new();
    let mut i: usize = 0;
    while i < slots.len()
        invariant
            i <= slots@.len(),
            forall|j: int|
                0 <= j < out@.len() ==> (#[trigger] out@[j]) != gone && slots@.take(
                    i as int,
                ).contains(out@[j]),
            forall|j: int|
                0 <= j < i && slots@[j] != gone ==> out@.contains(#[trigger] slots@[j]),
            slots@.no_duplicates() ==> out@.no_duplicates(),
        decreases slots@.len() - i,
    {
        let ghost was = out@;
        let ghost seen = slots@.take(i as int);
        let slot = slots[i];
        if slot != gone {
            out.push(slot);
        }
        i += 1;
        proof {
            let now_seen = slots@.take(i as int);
            assert(now_seen =~= seen.push(slot));
            assert forall|s: Slot| seen.contains(s) implies #[trigger] now_seen.contains(s) by {
                let k = choose|k: int| 0 <= k < seen.len() && seen[k] == s;
                assert(now_seen[k] == s);
            }
            if slot != gone {
                assert(now_seen[i - 1] == slot);
                assert(out@[was.len() as int] == slot);
                assert forall|j: int| 0 <= j < i && slots@[j] != gone implies out@.contains(
                    #[trigger] slots@[j],
                ) by {
                    if j < i - 1 {
                        let k = choose|k: int| 0 <= k < was.len() && was[k] == slots@[j];
                        assert(out@[k] == slots@[j]);
                    }
                }
                if slots@.no_duplicates() {
                    assert forall|a: int, b: int|
                        0 <= a < out@.len() && 0 <= b < out@.len() && a != b implies out@[a]
                        != out@[b] by {
                        if b == was.len() {
                            let k = choose|k: int| 0 <= k < seen.len() && seen[k] == was[a];
                            assert(slots@[k] == was[a]);
                        } else if a == was.len() {
                            let k = choose|k: int| 0 <= k < seen.len() && seen[k] == was[b];
                            assert(slots@[k] == was[b]);
                        }
                    }
                }
            }
        }
    }
    proof {
        assert(slots@.take(i as int) =~= slots@);
    }
    out
}

/// A residential IPv6 firewall's parameters.
#[derive(Clone, Copy, Debug)]
pub struct FirewallConfig {
    pub idle_timeout: Duration,
}

impl Default for FirewallConfig {
    fn default() -> (config: Self)
        ensures
            config.idle_timeout.nanos == 30_000_000_000,
    {
        FirewallConfig { idle_timeout: Duration::from_secs(30) }
    }
}

#[derive(Clone, Copy, Debug, PartialEq, Eq, Structural)]
pub struct FirewallStats {
    pub filtered_drops: u64,
    pub pinholes_installed: u64,
}

impl Default for FirewallStats {
    fn default() -> (stats: Self)
        ensures
            stats == (FirewallStats { filtered_drops: 0, pinholes_installed: 0 }),
    {
        FirewallStats { filtered_drops: 0, pinholes_installed: 0 }
    }
}

/// A local socket and a remote endpoint that it has sent to.
#[derive(Clone, Copy, Debug, PartialEq, Eq, Structural)]
pub struct Flow {
    pub local: SocketAddr,
    pub remote: SocketAddr,
}

impl Rank for Flow {
    open spec fn rank(self) -> int {
        self.local.rank() * (crate::addr::ip_span() * 0x1_0000) + self.remote.rank()
    }

    proof fn rank_injective(a: Self, b: Self) {
        lemma_lexicographic(
            a.local.rank(),
            a.remote.rank(),
            b.local.rank(),
            b.remote.rank(),
            crate::addr::ip_span() * 0x1_0000,
        );
        SocketAddr::rank_injective(a.local, b.local);
        SocketAddr::rank_injective(a.remote, b.remote);
    }

    fn before(&self, other: &Self) -> (r: bool) {
        proof {
            lemma_lexicographic(
                self.local.rank(),
                self.remote.rank(),
                other.local.rank(),
                other.remote.rank(),
                crate::addr::ip_span() * 0x1_0000,
            );
        }
        if self.local.before(&other.local) {
            true
        } else if other.local.before(&self.local) {
            false
        } else {
            self.remote.before(&other.remote)
        }
    }
}

/// A firewall as the contracts speak of it.
#[verifier::ext_equal]
pub struct FirewallView {
    pub config: FirewallConfig,
    /// When each flow last saw outbound traffic.
    pub flows: Map<Flow, u64>,
    /// When the pinhole on each local port runs out.
    pub pinholes: Map<u16, u64>,
    pub stats: FirewallStats,
}

impl FirewallView {
    pub open spec fn pinhole_live(self, now: u64, port: u16) -> bool {
        self.pinholes.dom().contains(port) && now <= self.pinholes[port]
    }

    pub open spec fn flow_live(self, now: u64, flow: Flow) -> bool {
        self.flows.dom().contains(flow) && now - self.flows[flow] <= self.config.idle_timeout.nanos
    }

    /// The firewall with a pinhole on `port` that lasts for `lifetime`.
    pub open spec fn pinholed(self, now: u64, port: u16, lifetime: Duration) -> Self {
        FirewallView {
            pinholes: self.pinholes.insert(port, sat_u64(now + lifetime.nanos)),
            stats: FirewallStats {
                pinholes_installed: bumped(self.stats.pinholes_installed),
                ..self.stats
            },
            ..self
        }
    }

    /// What becomes of a datagram from `src` to the local socket `dst`.
    pub open spec fn let_in(self, now: u64, src: SocketAddr, dst: SocketAddr) -> (
        Result<(), NatDropReason>,
        Self,
    ) {
        let flow = Flow { local: dst, remote: src };
        if self.pinhole_live(now, dst.port) {
            (Ok(()), self)
        } else {
            let st = FirewallView { pinholes: self.pinholes.remove(dst.port), ..self };
            if self.flow_live(now, flow) {
                (Ok(()), st)
            } else {
                (
                    Err(NatDropReason::Filtered),
                    FirewallView {
                        flows: st.flows.remove(flow),
                        stats: FirewallStats {
                            filtered_drops: bumped(st.stats.filtered_drops),
                            ..st.stats
                        },
                        ..st
                    },
                )
            }
        }
    }
}

/// A residential IPv6 firewall: it rewrites nothing, but drops unsolicited
/// inbound traffic. Outbound traffic opens a flow to one remote endpoint,
/// refreshed by outbound traffic only; a pinhole opens a local port to every
/// remote for as long as its lease lasts.
pub struct FirewallBox {
    pub config: FirewallConfig,
    flows: OrdMap<Flow, u64>,
    /// Lease-based: renewal is the client's job.
    pinholes: BTreeMap<u16, u64>,
    pub stats: FirewallStats,
}

impl FirewallBox {
    pub closed spec fn view(&self) -> FirewallView {
        FirewallView {
            config: self.config,
            flows: self.flows@,
            pinholes: self.pinholes@,
            stats: self.stats,
        }
    }

    pub closed spec fn wf(&self) -> bool {
        self.flows.wf()
    }

    pub fn new(config: FirewallConfig) -> (b: Self)
        ensures
            b.wf(),
            b@ == (FirewallView {
                config,
                flows: Map::empty(),
                pinholes: Map::empty(),
                stats: FirewallStats { filtered_drops: 0, pinholes_installed: 0 },
            }),
    {
        FirewallBox {
            config,
            flows: OrdMap::new(),
            pinholes: BTreeMap::new(),
            stats: FirewallStats::default(),
        }
    }

    pub fn stats(&self) -> (stats: FirewallStats)
        ensures
            stats == self@.stats,
    {
        self.stats
    }

    /// An outbound datagram: opens the flow to `dst`, or refreshes it.
    pub fn outbound(&mut self, now: u64, src: SocketAddr, dst: SocketAddr)
        requires
            old(self).wf(),
        ensures
            final(self).wf(),
            final(self)@ == (FirewallView {
                flows: old(self)@.flows.insert(Flow { local: src, remote: dst }, now),
                ..old(self)@
            }),
    {
        self.flows.insert(Flow { local: src, remote: dst }, now);
    }

    /// Admits or drops a datagram from `src` to the local socket `dst`.
    /// Inbound traffic never refreshes a flow.
    pub fn inbound(&mut self, now: u64, src: SocketAddr, dst: SocketAddr) -> (r: Result<
        (),
        NatDropReason,
    >)
        requires
            old(self).wf(),
        ensures
            final(self).wf(),
            (r, final(self)@) == old(self)@.let_in(now, src, dst),
    {
        let ghost before = *self;
        let port: u16 = dst.port();
        let open = self.pinhole_live(now, port);
        if open {
            return Ok(());
        }
        self.pinholes.remove(&port);
        let idle: u64 = self.config.idle_timeout.as_nanos();
        let flow = Flow { local: dst, remote: src };
        let fresh = match self.flows.get(&flow) {
            Some(refreshed) => now.saturating_sub(*refreshed) <= idle,
            None => false,
        };
        if fresh {
            Ok(())
        } else {
            self.flows.remove(&flow);
            self.stats.filtered_drops = bump(self.stats.filtered_drops);
            assert(self@ =~= before@.let_in(now, src, dst).1);
            Err(NatDropReason::Filtered)
        }
    }

    /// Opens a pinhole on `port`, or renews it: any remote may reach the
    /// local socket until the lease runs out.
    pub fn install_pinhole(&mut self, now: u64, port: u16, lifetime: Duration)
        requires
            old(self).wf(),
        ensures
            final(self).wf(),
            final(self)@ == old(self)@.pinholed(now, port, lifetime),
    {
        self.stats.pinholes_installed = bump(self.stats.pinholes_installed);
        self.pinholes.insert(port, now.saturating_add(lifetime.as_nanos()));
    }

    /// Whether a pinhole on `port` is live.
    pub fn pinhole_live(&self, now: u64, port: u16) -> (r: bool)
        requires
            self.wf(),
        ensures
            r == self@.pinhole_live(now, port),
    {
        match self.pinholes.get(&port) {
            Some(expires) => now <= *expires,
            None => false,
        }
    }
}

/// A datagram that is let out leaves a live mapping behind it, on the port it
/// left with, that lets the destination answer.
pub proof fn law_outbound_opens(st: NatView, now: u64, src: SocketAddr, dst: SocketAddr)
    ensures
        ({
            let (r, after) = st.sent_out(now, src, dst);
            let slot = Slot { src, key: key_of(st.config.mapping, dst) };
            r matches Ok(pass) ==> {
                &&& after.live(slot, now)
                &&& after.maps[slot].port == pass.external.port
                &&& after.maps[slot].allowed.contains(dst)
                &&& after.maps[slot].last_refresh == now
                &&& pass.external.ip == st.external_ip
            }
        }),
{
    lemma_config_kept(st, now, src, dst);
}

/// Whatever a box does, its configuration stays.
proof fn lemma_config_kept(st: NatView, now: u64, src: SocketAddr, dst: SocketAddr)
    ensures
        st.sent_out(now, src, dst).1.config == st.config,
        st.sent_out(now, src, dst).1.external_ip == st.external_ip,
        st.sent_out(now, src, dst).1.statics == st.statics,
{
    let slot = Slot { src, key: key_of(st.config.mapping, dst) };
    let st0 = NatView { maps: st.maps.remove(slot), ..st };
    if !st.live(slot, now) {
        lemma_alloc_frame(st0, now, src);
    }
}

proof fn lemma_alloc_frame(st: NatView, now: u64, internal: SocketAddr)
    ensures
        st.allocated(now, internal).1.config == st.config,
        st.allocated(now, internal).1.external_ip == st.external_ip,
        st.allocated(now, internal).1.statics == st.statics,
        st.allocated(now, internal).1.stats == st.stats,
{
    let base = if st.prefers(internal) {
        st.purged(now, internal.port)
    } else {
        st
    };
    lemma_walk_frame(base, now, 1, st.pool_size());
    if let Allocator::Sequential { stride } = st.config.allocator {
        lemma_walk_frame(base, now, stride as int, st.pool_size());
    }
    lemma_draw_frame(base, now, 64);
    lemma_draw_frame(base, now, st.pool_size() * 2);
}

proof fn lemma_walk_frame(st: NatView, now: u64, stride: int, n: nat)
    ensures
        st.walked(now, stride, n).1.config == st.config,
        st.walked(now, stride, n).1.external_ip == st.external_ip,
        st.walked(now, stride, n).1.statics == st.statics,
        st.walked(now, stride, n).1.stats == st.stats,
    decreases n,
{
    if n > 0 {
        let next = NatView {
            next_port: st.step_port(st.next_port, stride),
            ..st.purged(now, st.next_port)
        };
        lemma_walk_frame(next, now, stride, (n - 1) as nat);
    }
}

proof fn lemma_draw_frame(st: NatView, now: u64, n: nat)
    ensures
        st.drawn(now, n).1.config == st.config,
        st.drawn(now, n).1.external_ip == st.external_ip,
        st.drawn(now, n).1.statics == st.statics,
        st.drawn(now, n).1.stats == st.stats,
    decreases n,
{
    if n > 0 {
        let (candidate, rng) = range_u16_draw(
            st.rng,
            st.config.port_range.0,
            st.config.port_range.1,
        );
        lemma_draw_frame(NatView { rng, ..st.purged(now, candidate) }, now, (n - 1) as nat);
    }
}

/// Two destinations with one key share one external endpoint for as long as
/// the mapping lives: the second datagram reuses what the first opened.
pub proof fn law_one_mapping_per_key(
    st: NatView,
    now: u64,
    later: u64,
    src: SocketAddr,
    first: SocketAddr,
    second: SocketAddr,
)
    requires
        key_of(st.config.mapping, first) == key_of(st.config.mapping, second),
        st.sent_out(now, src, first).0 is Ok,
        later - now <= st.config.idle_timeout.nanos,
    ensures
        st.sent_out(now, src, first).1.sent_out(later, src, second).0 == Ok::<
            OutboundPass,
            NatDropReason,
        >(OutboundPass { created: false, ..st.sent_out(now, src, first).0->Ok_0 }),
{
    law_outbound_opens(st, now, src, first);
    lemma_config_kept(st, now, src, first);
}

/// Mappings of two keys have two external ports, which lie in the pool, unless
/// the box preserves ports and both belong to one internal socket.
pub proof fn law_ports_are_distinct(st: NatView, a: Slot, b: Slot)
    requires
        st.wf(),
        st.in_pool(),
        a != b,
        st.maps.dom().contains(a),
        st.maps.dom().contains(b),
        !(st.config.allocator is Preserving && a.src == b.src),
    ensures
        st.maps[a].port != st.maps[b].port,
        st.config.port_range.0 <= st.maps[a].port <= st.config.port_range.1,
        st.config.port_range.0 <= st.maps[b].port <= st.config.port_range.1,
{
}

/// A box that does not preserve ports has no more mappings than its pool has
/// ports.
pub proof fn law_pool_bounds_mappings(st: NatView)
    requires
        st.wf(),
        st.in_pool(),
        st.maps.dom().finite(),
        !(st.config.allocator is Preserving),
    ensures
        st.maps.dom().len() <= st.pool_size(),
{
    let lo = st.config.port_range.0 as int;
    let hi = st.config.port_range.1 + 1;
    let port = |s: Slot| st.maps[s].port as int;
    let ports = st.maps.dom().map(port);
    assert forall|a: Slot, b: Slot|
        st.maps.dom().contains(a) && st.maps.dom().contains(b) && #[trigger] port(a)
            == #[trigger] port(b) implies a == b by {
        assert(st.may_share(a, b));
    }
    assert(vstd::relations::injective_on(port, st.maps.dom()));
    vstd::set_lib::lemma_map_size(st.maps.dom(), ports, port);
    assert(ports.subset_of(vstd::set_lib::set_int_range(lo, hi)));
    vstd::set_lib::lemma_int_range(lo, hi);
    vstd::set_lib::lemma_len_subset(ports, vstd::set_lib::set_int_range(lo, hi));
}

/// A datagram is let out, or the pool is exhausted: then it opens nothing, and
/// one more is counted.
pub proof fn law_only_exhaustion_drops(st: NatView, now: u64, src: SocketAddr, dst: SocketAddr)
    requires
        st.wf(),
    ensures
        ({
            let (r, after) = st.sent_out(now, src, dst);
            r matches Err(reason) ==> {
                &&& reason == NatDropReason::PortPoolExhausted
                &&& after.stats == (NatStats {
                    pool_exhausted_drops: bumped(st.stats.pool_exhausted_drops),
                    ..st.stats
                })
                &&& forall|s: Slot| #[trigger]
                    after.maps.dom().contains(s) ==> st.maps.dom().contains(s) && after.maps[s]
                        == st.maps[s]
            }
        }),
{
    let slot = Slot { src, key: key_of(st.config.mapping, dst) };
    if !st.live(slot, now) {
        let st0 = NatView { maps: st.maps.remove(slot), ..st };
        assert(st0.wf()) by {
            assert forall|a: Slot, b: Slot|
                #![trigger st0.maps[a], st0.maps[b]]
                st0.maps.dom().contains(a) && st0.maps.dom().contains(b) && st0.maps[a].port
                    == st0.maps[b].port implies st0.may_share(a, b) by {
                assert(st.maps[a].port == st0.maps[a].port);
                assert(st.maps[b].port == st0.maps[b].port);
            }
        }
        lemma_allocated(st0, now, src);
    }
}

/// A lease shares its port with its own socket only, whatever the box does and
/// however time goes on.
pub proof fn law_leases_agree(
    st: NatView,
    now: u64,
    later: u64,
    src: SocketAddr,
    dst: SocketAddr,
    suggested: u16,
    lease: Duration,
)
    requires
        st.wf(),
        st.leases_agree(now),
        now <= later,
    ensures
        st.leases_agree(later),
        st.sent_out(later, src, dst).1.leases_agree(later),
        st.let_in(later, src, dst).1.leases_agree(later),
        st.leased(later, src, suggested, lease).1.leases_agree(later),
{
    assert forall|s: Slot| #[trigger] st.live(s, later) && st.static_live(
        later,
        st.maps[s].port,
    ) implies st.statics[st.maps[s].port].internal == s.src by {
        assert(st.live(s, now));
    }
    let slot = Slot { src, key: key_of(st.config.mapping, dst) };
    let out = st.sent_out(later, src, dst).1;
    if st.live(slot, later) {
        assert forall|s: Slot| #[trigger] out.live(s, later) && out.static_live(
            later,
            out.maps[s].port,
        ) implies out.statics[out.maps[s].port].internal == s.src by {
            assert(st.live(s, later));
        }
    } else {
        let st0 = NatView { maps: st.maps.remove(slot), ..st };
        assert(st0.wf()) by {
            assert forall|a: Slot, b: Slot|
                #![trigger st0.maps[a], st0.maps[b]]
                st0.maps.dom().contains(a) && st0.maps.dom().contains(b) && st0.maps[a].port
                    == st0.maps[b].port implies st0.may_share(a, b) by {
                assert(st.maps[a].port == st0.maps[a].port);
                assert(st.maps[b].port == st0.maps[b].port);
            }
        }
        lemma_allocated(st0, later, src);
        let mid = st0.allocated(later, src).1;
        assert forall|s: Slot| #[trigger] out.live(s, later) && out.static_live(
            later,
            out.maps[s].port,
        ) implies out.statics[out.maps[s].port].internal == s.src by {
            if s != slot {
                assert(mid.maps.dom().contains(s) && mid.maps[s] == out.maps[s]);
                assert(st.live(s, later));
            }
        }
    }
    let inward = st.let_in(later, src, dst).1;
    assert forall|s: Slot| #[trigger] inward.live(s, later) && inward.static_live(
        later,
        inward.maps[s].port,
    ) implies inward.statics[inward.maps[s].port].internal == s.src by {
        assert(st.live(s, later));
    }
    let first = if suggested != 0 {
        suggested
    } else {
        src.port
    };
    let (port, leased) = st.leased(later, src, suggested, lease);
    lemma_purged_wf(st, later, first);
    let base = if first != 0 {
        st.purged(later, first)
    } else {
        st
    };
    lemma_allocated(base, later, src);
    assert forall|s: Slot| #[trigger] leased.live(s, later) && leased.static_live(
        later,
        leased.maps[s].port,
    ) implies leased.statics[leased.maps[s].port].internal == s.src by {
        assert(base.maps.dom().contains(s) && base.maps[s] == leased.maps[s]);
        assert(st.live(s, later));
        if first != 0 && st.port_free(later, first, Some(src)) {
            assert(leased.maps[s].port == first ==> st.on_port(s, first));
        } else if port is Some {
            let mid = base.allocated(later, src).1;
            assert(leased.maps[s].port == port->0 ==> mid.on_port(s, port->0));
        }
    }
}

/// A destination may answer while the mapping that was opened towards it
/// lives, whatever the mapping key, the allocator and the filtering are.
pub proof fn law_reply_admitted(
    st: NatView,
    now: u64,
    later: u64,
    src: SocketAddr,
    dst: SocketAddr,
)
    requires
        st.wf(),
        st.leases_agree(now),
        now <= later,
        st.sent_out(now, src, dst).0 is Ok,
        later - now <= st.config.idle_timeout.nanos,
    ensures
        st.sent_out(now, src, dst).1.let_in(
            later,
            dst,
            st.sent_out(now, src, dst).0->Ok_0.external,
        ).0 == Ok::<SocketAddr, NatDropReason>(src),
{
    law_leases_agree(st, now, now, src, dst, 0, st.config.idle_timeout);
    law_outbound_opens(st, now, src, dst);
    lemma_config_kept(st, now, src, dst);
    lemma_sent_out_wf(st, now, src, dst);
    let after = st.sent_out(now, src, dst).1;
    let external = st.sent_out(now, src, dst).0->Ok_0.external;
    let slot = Slot { src, key: key_of(st.config.mapping, dst) };
    assert(after.on_port(slot, external.port));
    assert(after.passes(slot, dst)) by {
        assert(after.maps[slot].allowed.contains(dst));
    }
    assert(after.admits(slot, later, dst, external.port));
    if !after.static_live(later, external.port) {
        let other = choose|s: Slot| after.admits(s, later, dst, external.port);
        assert(after.maps[other].port == after.maps[slot].port);
    }
}

proof fn lemma_sent_out_wf(st: NatView, now: u64, src: SocketAddr, dst: SocketAddr)
    requires
        st.wf(),
    ensures
        st.sent_out(now, src, dst).1.wf(),
{
    let slot = Slot { src, key: key_of(st.config.mapping, dst) };
    let after = st.sent_out(now, src, dst).1;
    if st.live(slot, now) {
        assert forall|a: Slot, b: Slot|
            #![trigger after.maps[a], after.maps[b]]
            after.maps.dom().contains(a) && after.maps.dom().contains(b) && after.maps[a].port
                == after.maps[b].port implies after.may_share(a, b) by {
            assert(st.maps[a].port == after.maps[a].port);
            assert(st.maps[b].port == after.maps[b].port);
        }
    } else {
        let st0 = NatView { maps: st.maps.remove(slot), ..st };
        assert(st0.wf()) by {
            assert forall|a: Slot, b: Slot|
                #![trigger st0.maps[a], st0.maps[b]]
                st0.maps.dom().contains(a) && st0.maps.dom().contains(b) && st0.maps[a].port
                    == st0.maps[b].port implies st0.may_share(a, b) by {
                assert(st.maps[a].port == st0.maps[a].port);
                assert(st.maps[b].port == st0.maps[b].port);
            }
        }
        lemma_allocated(st0, now, src);
        let (chosen, mid) = st0.allocated(now, src);
        if let Some(port) = chosen {
            assert forall|a: Slot, b: Slot|
                #![trigger after.maps[a], after.maps[b]]
                after.maps.dom().contains(a) && after.maps.dom().contains(b) && after.maps[a].port
                    == after.maps[b].port implies after.may_share(a, b) by {
                if a != slot {
                    assert(mid.maps[a] == after.maps[a]);
                    if b == slot {
                        assert(mid.on_port(a, port));
                    }
                }
                if b != slot {
                    assert(mid.maps[b] == after.maps[b]);
                    if a == slot {
                        assert(mid.on_port(b, port));
                    }
                }
            }
        }
    }
}

/// Inbound traffic opens nothing and refreshes nothing: what it leaves is
/// what was there, less what had idled out on the port.
pub proof fn law_inbound_never_refreshes(st: NatView, now: u64, src: SocketAddr, dst: SocketAddr)
    ensures
        ({
            let after = st.let_in(now, src, dst).1;
            &&& after.statics == st.statics
            &&& forall|s: Slot| #[trigger]
                after.maps.dom().contains(s) ==> st.maps.dom().contains(s) && after.maps[s]
                    == st.maps[s]
            &&& forall|s: Slot| #[trigger]
                st.maps.dom().contains(s) && !after.maps.dom().contains(s) ==> !st.live(s, now)
        }),
{
}

/// A mapping that has idled out lets nobody in.
pub proof fn law_idle_mapping_closed(st: NatView, now: u64, src: SocketAddr, dst: SocketAddr)
    requires
        !st.static_live(now, dst.port),
        forall|s: Slot| #[trigger] st.on_port(s, dst.port) ==> !st.live(s, now),
    ensures
        st.let_in(now, src, dst).0 is Err,
        (exists|s: Slot| st.on_port(s, dst.port)) ==> st.let_in(now, src, dst).0
            == Err::<SocketAddr, NatDropReason>(NatDropReason::MappingExpired),
{
}

/// Port-restricted filtering lets in only those endpoints that the inside has
/// sent to.
pub proof fn law_port_restricted(st: NatView, now: u64, src: SocketAddr, dst: SocketAddr)
    requires
        st.config.filtering == Filtering::PortRestricted,
        !st.static_live(now, dst.port),
        st.let_in(now, src, dst).0 is Ok,
    ensures
        exists|s: Slot|
            st.on_port(s, dst.port) && st.live(s, now) && #[trigger]
            st.maps[s].allowed.contains(src),
{
    let s = choose|s: Slot| st.admits(s, now, src, dst.port);
    assert(st.maps[s].allowed.contains(src));
}

/// A lease lets every source in until it runs out.
pub proof fn law_lease_open_to_all(
    st: NatView,
    now: u64,
    internal: SocketAddr,
    suggested: u16,
    lease: Duration,
    later: u64,
    src: SocketAddr,
)
    requires
        st.leased(now, internal, suggested, lease).0 is Some,
        later <= now + lease.nanos,
    ensures
        ({
            let (port, after) = st.leased(now, internal, suggested, lease);
            after.let_in(later, src, SocketAddr { ip: st.external_ip, port: port->0 }).0 == Ok::<
                SocketAddr,
                NatDropReason,
            >(internal)
        }),
{
}

/// What nobody inside asked for is dropped: a remote gets in by a flow of its
/// own or by a pinhole, and by nothing else.
pub proof fn law_unsolicited_is_filtered(
    st: FirewallView,
    now: u64,
    src: SocketAddr,
    dst: SocketAddr,
)
    ensures
        st.let_in(now, src, dst).0 is Ok <==> st.pinhole_live(now, dst.port) || st.flow_live(
            now,
            Flow { local: dst, remote: src },
        ),
        st.let_in(now, src, dst).0 matches Err(reason) ==> reason == NatDropReason::Filtered,
{
}

/// A pinhole lets every remote reach its port until the lease runs out, and
/// then only those that have a flow.
pub proof fn law_pinhole_open_to_all(
    st: FirewallView,
    now: u64,
    port: u16,
    lifetime: Duration,
    later: u64,
    src: SocketAddr,
    dst: SocketAddr,
)
    requires
        dst.port == port,
        now + lifetime.nanos <= u64::MAX,
    ensures
        ({
            let after = st.pinholed(now, port, lifetime);
            after.let_in(later, src, dst).0 is Ok <==> later - now <= lifetime.nanos
                || st.flow_live(later, Flow { local: dst, remote: src })
        }),
{
}

/// A flow that outbound traffic opened lets its remote answer until it has
/// idled out, and inbound traffic does not hold it open.
pub proof fn law_firewall_flow(
    st: FirewallView,
    now: u64,
    later: u64,
    local: SocketAddr,
    remote: SocketAddr,
)
    ensures
        ({
            let opened = FirewallView {
                flows: st.flows.insert(Flow { local, remote }, now),
                ..st
            };
            &&& later - now <= st.config.idle_timeout.nanos ==> opened.let_in(
                later,
                remote,
                local,
            ).0 is Ok
            &&& later - now > st.config.idle_timeout.nanos && !st.pinhole_live(later, local.port)
                ==> opened.let_in(later, remote, local).0 is Err
            &&& forall|f: Flow| #[trigger]
                opened.let_in(later, remote, local).1.flows.dom().contains(f)
                    ==> opened.let_in(later, remote, local).1.flows[f] == opened.flows[f]
        }),
{
}

/// The presets share half a minute of idle time, a pool of twenty thousand ports
/// and no hairpinning; what is said of each is its own.
pub proof fn law_presets_share(mapping: MappingKey, allocator: Allocator, filtering: Filtering)
    ensures
        ({
            let config = base_config(mapping, allocator, filtering);
            &&& config.mapping == mapping
            &&& config.allocator == allocator
            &&& config.filtering == filtering
            &&& config.idle_timeout.nanos == 30_000_000_000
            &&& config.port_range == (40_000u16, 59_999u16)
            &&& !config.hairpin
            &&& config.wf()
        }),
{
}

proof fn lemma_walk_keeps_live(st: NatView, now: u64, stride: int, n: nat, s: Slot)
    requires
        st.live(s, now),
    ensures
        st.walked(now, stride, n).1.live(s, now),
        st.walked(now, stride, n).1.maps[s] == st.maps[s],
    decreases n,
{
    if n > 0 {
        let candidate = st.next_port;
        let next = NatView {
            next_port: st.step_port(candidate, stride),
            ..st.purged(now, candidate)
        };
        assert(next.live(s, now));
        lemma_walk_keeps_live(next, now, stride, (n - 1) as nat, s);
    }
}

proof fn lemma_draw_keeps_live(st: NatView, now: u64, n: nat, s: Slot)
    requires
        st.live(s, now),
    ensures
        st.drawn(now, n).1.live(s, now),
        st.drawn(now, n).1.maps[s] == st.maps[s],
    decreases n,
{
    if n > 0 {
        let (candidate, rng) = range_u16_draw(
            st.rng,
            st.config.port_range.0,
            st.config.port_range.1,
        );
        let next = NatView { rng, ..st.purged(now, candidate) };
        assert(next.live(s, now));
        lemma_draw_keeps_live(next, now, (n - 1) as nat, s);
    }
}

proof fn lemma_alloc_keeps_live(st: NatView, now: u64, internal: SocketAddr, s: Slot)
    requires
        st.live(s, now),
    ensures
        st.allocated(now, internal).1.live(s, now),
        st.allocated(now, internal).1.maps[s] == st.maps[s],
{
    let base = if st.prefers(internal) {
        st.purged(now, internal.port)
    } else {
        st
    };
    assert(base.live(s, now));
    if !(st.prefers(internal) && st.port_free(now, internal.port, Some(internal))) {
        match st.config.allocator {
            Allocator::Preserving => {
                lemma_walk_keeps_live(base, now, 1, st.pool_size(), s);
            },
            Allocator::Sequential { stride } => {
                lemma_walk_keeps_live(
                    base,
                    now,
                    if stride == 0 {
                        1
                    } else {
                        stride as int
                    },
                    st.pool_size(),
                    s,
                );
            },
            Allocator::Random => {
                lemma_draw_keeps_live(
                    base,
                    now,
                    if st.pool_size() * 2 < 64 {
                        64
                    } else {
                        st.pool_size() * 2
                    },
                    s,
                );
            },
        }
    }
}

/// Outbound traffic leaves the other live mappings as they are.
pub proof fn law_outbound_leaves_the_others(
    st: NatView,
    now: u64,
    src: SocketAddr,
    dst: SocketAddr,
    s: Slot,
)
    requires
        st.live(s, now),
        s != (Slot { src, key: key_of(st.config.mapping, dst) }),
    ensures
        st.sent_out(now, src, dst).1.maps.dom().contains(s),
        st.sent_out(now, src, dst).1.maps[s] == st.maps[s],
{
    let slot = Slot { src, key: key_of(st.config.mapping, dst) };
    if !st.live(slot, now) {
        let st0 = NatView { maps: st.maps.remove(slot), ..st };
        assert(st0.live(s, now));
        lemma_alloc_keeps_live(st0, now, src, s);
    }
}

/// Two destinations that a box maps alike, by its mapping key.
pub open spec fn mapped_alike(mapping: MappingKey, first: SocketAddr, second: SocketAddr) -> bool {
    match mapping {
        MappingKey::EndpointIndependent => true,
        MappingKey::DstPort => first.port == second.port,
        MappingKey::DstAddr => first.ip == second.ip,
        MappingKey::DstAddrPort => first.ip == second.ip && first.port == second.port,
    }
}

/// The mapping key of a box decides which destinations see one socket at one
/// external endpoint: all of them, those with one port, those with one address,
/// or each its own. Where a box maps two destinations apart, they see two ports,
/// unless it preserves the port of the socket.
pub proof fn law_mapping_key_decides(
    st: NatView,
    now: u64,
    later: u64,
    src: SocketAddr,
    first: SocketAddr,
    second: SocketAddr,
)
    requires
        st.wf(),
        now <= later,
        later - now <= st.config.idle_timeout.nanos,
        st.sent_out(now, src, first).0 is Ok,
    ensures
        ({
            let one = st.sent_out(now, src, first).0->Ok_0;
            let mid = st.sent_out(now, src, first).1;
            let two = mid.sent_out(later, src, second).0;
            &&& mapped_alike(st.config.mapping, first, second) ==> two == Ok::<
                OutboundPass,
                NatDropReason,
            >(OutboundPass { external: one.external, created: false })
            &&& !mapped_alike(st.config.mapping, first, second) && two is Ok
                && !(st.config.allocator is Preserving) ==> two->Ok_0.external.port
                != one.external.port
            &&& two is Ok ==> two->Ok_0.external.ip == st.external_ip
        }),
{
    let mid = st.sent_out(now, src, first).1;
    let a = Slot { src, key: key_of(st.config.mapping, first) };
    let b = Slot { src, key: key_of(st.config.mapping, second) };
    law_outbound_opens(st, now, src, first);
    lemma_config_kept(st, now, src, first);
    lemma_sent_out_wf(st, now, src, first);
    law_outbound_opens(mid, later, src, second);
    lemma_config_kept(mid, later, src, second);
    lemma_sent_out_wf(mid, later, src, second);
    assert((a == b) == mapped_alike(st.config.mapping, first, second));
    assert(mid.live(a, later));
    if a != b {
        law_outbound_leaves_the_others(mid, later, src, second, a);
        let end = mid.sent_out(later, src, second).1;
        if mid.sent_out(later, src, second).0 is Ok && end.maps[a].port == end.maps[b].port {
            assert(end.may_share(a, b));
        }
    }
}

/// A mapping is on the port and has been used within the idle time.
pub open spec fn is_fresh_on(st: NatView, s: Slot, now: u64, port: u16) -> bool {
    st.maps.dom().contains(s) && st.maps[s].port == port && now <= st.maps[s].last_refresh
        + st.config.idle_timeout.nanos
}

/// The inside has sent to this source before, as far as the filtering asks.
pub open spec fn is_expected(st: NatView, s: Slot, src: SocketAddr) -> bool {
    match st.config.filtering {
        Filtering::EndpointIndependent => true,
        Filtering::AddressRestricted => exists|e: SocketAddr| #[trigger]
            st.maps[s].allowed.contains(e) && e.ip == src.ip,
        Filtering::PortRestricted => st.maps[s].allowed.contains(src),
    }
}

/// What comes from outside gets in exactly through a lease, or through a mapping
/// on its port that has not idled out and from which the source is expected. A
/// drop says why, and is counted under that.
pub proof fn law_inbound_needs_a_mapping(st: NatView, now: u64, src: SocketAddr, dst: SocketAddr)
    requires
        !(st.statics.dom().contains(dst.port) && now <= st.statics[dst.port].expires),
        st.stats.no_mapping_drops < u64::MAX,
        st.stats.expired_drops < u64::MAX,
        st.stats.filtered_drops < u64::MAX,
    ensures
        ({
            let (r, after) = st.let_in(now, src, dst);
            let some = exists|s: Slot| #[trigger]
                st.maps.dom().contains(s) && st.maps[s].port == dst.port;
            let fresh = exists|s: Slot| #[trigger] is_fresh_on(st, s, now, dst.port);
            let through = exists|s: Slot| #[trigger]
                is_fresh_on(st, s, now, dst.port) && is_expected(st, s, src);
            &&& r is Ok <==> through
            &&& r matches Ok(internal) ==> exists|s: Slot| #[trigger]
                is_fresh_on(st, s, now, dst.port) && is_expected(st, s, src) && internal == s.src
            &&& r == Err::<SocketAddr, NatDropReason>(NatDropReason::NoMapping) <==> !some
            &&& r == Err::<SocketAddr, NatDropReason>(NatDropReason::MappingExpired) <==> some
                && !fresh
            &&& r == Err::<SocketAddr, NatDropReason>(NatDropReason::Filtered) <==> fresh
                && !through
            &&& after.stats.no_mapping_drops == st.stats.no_mapping_drops + (if !some {
                1int
            } else {
                0int
            })
            &&& after.stats.expired_drops == st.stats.expired_drops + (if some && !fresh {
                1int
            } else {
                0int
            })
            &&& after.stats.filtered_drops == st.stats.filtered_drops + (if fresh && !through {
                1int
            } else {
                0int
            })
            &&& after.stats.mappings_created == st.stats.mappings_created
            &&& after.stats.pool_exhausted_drops == st.stats.pool_exhausted_drops
            &&& after.stats.static_installs == st.stats.static_installs
        }),
{
    let port = dst.port;
    assert forall|s: Slot| #[trigger] is_fresh_on(st, s, now, port) == (st.on_port(s, port)
        && st.live(s, now)) by {}
    assert forall|s: Slot| #[trigger] is_expected(st, s, src) == st.passes(s, src) by {}
    if exists|s: Slot| #[trigger] is_fresh_on(st, s, now, port) && is_expected(st, s, src) {
        let s = choose|s: Slot| #[trigger]
            is_fresh_on(st, s, now, port) && is_expected(st, s, src);
        assert(st.admits(s, now, src, port));
    }
    if exists|s: Slot| st.admits(s, now, src, port) {
        let s = choose|s: Slot| st.admits(s, now, src, port);
        assert(is_fresh_on(st, s, now, port) && is_expected(st, s, src));
        assert(st.on_port(s, port));
    }
    if exists|s: Slot| #[trigger] st.on_port(s, port) && st.live(s, now) {
        let s = choose|s: Slot| #[trigger] st.on_port(s, port) && st.live(s, now);
        assert(is_fresh_on(st, s, now, port));
    }
    if exists|s: Slot| #[trigger] is_fresh_on(st, s, now, port) {
        let s = choose|s: Slot| #[trigger] is_fresh_on(st, s, now, port);
        assert(st.on_port(s, port));
        assert(st.maps.dom().contains(s));
    }
    if exists|s: Slot| #[trigger] st.maps.dom().contains(s) && st.maps[s].port == port {
        let s = choose|s: Slot| #[trigger] st.maps.dom().contains(s) && st.maps[s].port == port;
        assert(st.on_port(s, port));
    }
    if exists|s: Slot| st.on_port(s, port) {
        let s = choose|s: Slot| st.on_port(s, port);
        assert(st.maps.dom().contains(s));
    }
}

/// A mapping lives for as long as the inside sends at least once within the idle
/// time, and not a moment longer: once that has passed, the answer comes too
/// late.
pub proof fn law_silence_closes(
    st: NatView,
    now: u64,
    later: u64,
    src: SocketAddr,
    dst: SocketAddr,
)
    requires
        st.wf(),
        st.maps.dom() == Set::<Slot>::empty(),
        st.statics.dom() == Set::<u16>::empty(),
        st.sent_out(now, src, dst).0 is Ok,
        now <= later,
    ensures
        ({
            let (out, mid) = st.sent_out(now, src, dst);
            let back = mid.let_in(later, dst, out->Ok_0.external).0;
            back == (if later - now <= st.config.idle_timeout.nanos {
                Ok::<SocketAddr, NatDropReason>(src)
            } else {
                Err(NatDropReason::MappingExpired)
            })
        }),
{
    let (out, mid) = st.sent_out(now, src, dst);
    let external = out->Ok_0.external;
    let slot = Slot { src, key: key_of(st.config.mapping, dst) };
    assert(st.leases_agree(now)) by {
        assert forall|s: Slot| !#[trigger] st.live(s, now) by {
            assert(!st.maps.dom().contains(s));
        }
    }
    law_outbound_opens(st, now, src, dst);
    lemma_config_kept(st, now, src, dst);
    if later - now <= st.config.idle_timeout.nanos {
        law_reply_admitted(st, now, later, src, dst);
    } else {
        let st0 = NatView { maps: st.maps.remove(slot), ..st };
        assert(st0.wf());
        lemma_allocated(st0, now, src);
        assert(!st.live(slot, now));
        assert forall|s: Slot| #[trigger] mid.on_port(s, external.port) implies !mid.live(
            s,
            later,
        ) by {
            if s != slot {
                assert(!st0.maps.dom().contains(s));
            }
        }
        assert(mid.on_port(slot, external.port));
        assert(!mid.statics.dom().contains(external.port));
        law_idle_mapping_closed(mid, later, dst, external);
    }
}

/// Nothing live holds the port.
pub open spec fn nothing_holds(st: NatView, now: u64, port: u16) -> bool {
    &&& forall|s: Slot| !#[trigger] is_fresh_on(st, s, now, port)
    &&& !(st.statics.dom().contains(port) && now <= st.statics[port].expires)
}

proof fn lemma_nothing_holds(st: NatView, now: u64, port: u16)
    ensures
        nothing_holds(st, now, port) == st.port_free(now, port, None),
{
    if nothing_holds(st, now, port) {
        assert forall|s: Slot| #[trigger] st.on_port(s, port) && st.live(s, now) implies false by {
            assert(is_fresh_on(st, s, now, port));
        }
    }
    if st.port_free(now, port, None) {
        assert forall|s: Slot| !#[trigger] is_fresh_on(st, s, now, port) by {
            if is_fresh_on(st, s, now, port) {
                assert(st.on_port(s, port) && st.live(s, now));
            }
        }
    }
}

/// A box that preserves ports presents the port of the socket, if that is in the
/// pool and nothing holds it. One that walks its pool takes the port where it
/// stands, if nothing holds it, and goes on by its stride, around the pool. One
/// that draws takes the port that is drawn, if nothing holds it.
pub proof fn law_allocators(st: NatView, now: u64, src: SocketAddr, dst: SocketAddr)
    requires
        st.wf(),
        !is_fresh_on(
            st,
            Slot { src, key: key_of(st.config.mapping, dst) },
            now,
            st.maps[Slot { src, key: key_of(st.config.mapping, dst) }].port,
        ),
    ensures
        ({
            let (r, after) = st.sent_out(now, src, dst);
            let lo = st.config.port_range.0;
            let hi = st.config.port_range.1;
            &&& st.config.allocator is Preserving && lo <= src.port <= hi && nothing_holds(
                st,
                now,
                src.port,
            ) ==> r == Ok::<OutboundPass, NatDropReason>(
                OutboundPass {
                    external: SocketAddr { ip: st.external_ip, port: src.port },
                    created: true,
                },
            )
            &&& st.config.allocator is Sequential && nothing_holds(st, now, st.next_port)
                ==> r == Ok::<OutboundPass, NatDropReason>(
                OutboundPass {
                    external: SocketAddr { ip: st.external_ip, port: st.next_port },
                    created: true,
                },
            ) && ({
                let stride = st.config.allocator->stride;
                let by = if stride == 0 {
                    1int
                } else {
                    stride as int
                };
                after.next_port == lo + (st.next_port - lo + by) % (hi - lo + 1)
            })
            &&& st.config.allocator is Random && nothing_holds(
                st,
                now,
                range_u16_draw(st.rng, lo, hi).0,
            ) ==> r == Ok::<OutboundPass, NatDropReason>(
                OutboundPass {
                    external: SocketAddr {
                        ip: st.external_ip,
                        port: range_u16_draw(st.rng, lo, hi).0,
                    },
                    created: true,
                },
            ) && after.rng == range_u16_draw(st.rng, lo, hi).1
        }),
{
    let slot = Slot { src, key: key_of(st.config.mapping, dst) };
    let st0 = NatView { maps: st.maps.remove(slot), ..st };
    assert(!st.live(slot, now));
    let lo = st.config.port_range.0;
    let hi = st.config.port_range.1;
    assert forall|port: u16| nothing_holds(st, now, port) implies #[trigger] st0.port_free(
        now,
        port,
        None,
    ) && st0.port_free(now, port, Some(src)) by {
        assert forall|s: Slot| #[trigger] st0.on_port(s, port) && st0.live(s, now) implies false by {
            assert(is_fresh_on(st, s, now, port));
        }
    }
    lemma_nothing_holds(st, now, src.port);
    match st.config.allocator {
        Allocator::Preserving => {
            if nothing_holds(st, now, src.port) {
                assert(st0.port_free(now, src.port, None));
            }
        },
        Allocator::Sequential { stride } => {
            let by = if stride == 0 {
                1
            } else {
                stride as int
            };
            if nothing_holds(st, now, st.next_port) {
                assert(st0.port_free(now, st.next_port, None));
                let w = st0.walked(now, by, st0.pool_size());
                assert(st0.pool_size() > 0);
                assert(w.0 == Some(st.next_port));
                assert(w.1.next_port == st0.step_port(st.next_port, by));
                let size = hi - lo + 1;
                assert(0 <= (st.next_port - lo + by) % size < size) by (nonlinear_arith)
                    requires
                        0 < size,
                ;
            }
        },
        Allocator::Random => {
            let port = range_u16_draw(st.rng, lo, hi).0;
            if nothing_holds(st, now, port) {
                assert(st0.port_free(now, port, None));
            }
        },
    }
}

/// A walk by one that finds nothing has looked at the `n` ports from where it
/// stood.
proof fn lemma_walk_looks_at_all(st: NatView, now: u64, n: nat, i: int)
    requires
        st.wf(),
        st.walked(now, 1, n).0 is None,
        0 <= i < n,
        n <= st.pool_size(),
    ensures
        ({
            let lo = st.config.port_range.0;
            let at = lo + (st.next_port - lo + i) % (st.pool_size() as int);
            lo <= at <= st.config.port_range.1 && !st.port_free(now, at as u16, None)
        }),
    decreases n,
{
    let lo = st.config.port_range.0;
    let size = st.pool_size() as int;
    let candidate = st.next_port;
    let at = lo + (st.next_port - lo + i) % size;
    vstd::arithmetic::div_mod::lemma_mod_bound(st.next_port - lo + i, size);
    vstd::arithmetic::div_mod::lemma_small_mod((st.next_port - lo) as nat, size as nat);
    let next = NatView { next_port: st.step_port(candidate, 1), ..st.purged(now, candidate) };
    if i > 0 {
        lemma_purged_wf(st, now, candidate);
        vstd::arithmetic::div_mod::lemma_mod_bound(candidate - lo + 1, size);
        assert(next.wf()) by {
            assert forall|a: Slot, b: Slot|
                #![trigger next.maps[a], next.maps[b]]
                next.maps.dom().contains(a) && next.maps.dom().contains(b) && next.maps[a].port
                    == next.maps[b].port implies next.may_share(a, b) by {
                assert(st.maps[a].port == st.maps[b].port);
            }
        }
        lemma_walk_looks_at_all(next, now, (n - 1) as nat, i - 1);
        let step = (candidate - lo + 1) % size;
        assert(next.next_port - lo == step);
        vstd::arithmetic::div_mod::lemma_add_mod_noop_right(i - 1, candidate - lo + 1, size);
        assert((step + (i - 1)) % size == (candidate - lo + i) % size);
        if st.port_free(now, at as u16, None) {
            assert forall|s: Slot| #[trigger] next.on_port(s, at as u16) && next.live(
                s,
                now,
            ) implies false by {
                assert(st.on_port(s, at as u16) && st.live(s, now));
            }
        }
    }
}

/// A box that preserves ports, or walks by one, turns a datagram down only when
/// every port of its pool is held.
pub proof fn law_pool_is_used_up(
    st: NatView,
    now: u64,
    src: SocketAddr,
    dst: SocketAddr,
    port: u16,
)
    requires
        st.wf(),
        st.config.allocator is Preserving || st.config.allocator == (Allocator::Sequential {
            stride: 1,
        }),
        st.sent_out(now, src, dst).0 is Err,
        st.config.port_range.0 <= port <= st.config.port_range.1,
    ensures
        !nothing_holds(st, now, port),
{
    let slot = Slot { src, key: key_of(st.config.mapping, dst) };
    let st0 = NatView { maps: st.maps.remove(slot), ..st };
    assert(st0.wf()) by {
        assert forall|a: Slot, b: Slot|
            #![trigger st0.maps[a], st0.maps[b]]
            st0.maps.dom().contains(a) && st0.maps.dom().contains(b) && st0.maps[a].port
                == st0.maps[b].port implies st0.may_share(a, b) by {
            assert(st.maps[a].port == st.maps[b].port);
        }
    }
    lemma_purged_wf(st0, now, src.port);
    let base = if st0.prefers(src) {
        st0.purged(now, src.port)
    } else {
        st0
    };
    let lo = st.config.port_range.0;
    let size = st.pool_size() as int;
    let i = (port - lo - (base.next_port - lo)) % size;
    vstd::arithmetic::div_mod::lemma_mod_bound(port - lo - (base.next_port - lo), size);
    assert(base.walked(now, 1, st.pool_size()).0 is None);
    lemma_walk_looks_at_all(base, now, st.pool_size(), i);
    vstd::arithmetic::div_mod::lemma_add_mod_noop_right(
        base.next_port - lo,
        port - lo - (base.next_port - lo),
        size,
    );
    vstd::arithmetic::div_mod::lemma_small_mod((port - lo) as nat, size as nat);
    assert((base.next_port - lo + i) % size == port - lo);
    assert(!base.port_free(now, port, None));
    if nothing_holds(st, now, port) {
        assert forall|s: Slot| #[trigger] base.on_port(s, port) && base.live(
            s,
            now,
        ) implies false by {
            assert(is_fresh_on(st, s, now, port));
        }
        assert(base.port_free(now, port, None));
    }
}

/// Each mapping that is made is counted, and each datagram that finds the pool
/// used up.
pub proof fn law_outbound_is_counted(st: NatView, now: u64, src: SocketAddr, dst: SocketAddr)
    requires
        st.wf(),
        st.stats.mappings_created < u64::MAX,
        st.stats.pool_exhausted_drops < u64::MAX,
    ensures
        ({
            let (r, after) = st.sent_out(now, src, dst);
            &&& after.stats.mappings_created == st.stats.mappings_created + (if r is Ok
                && r->Ok_0.created {
                1int
            } else {
                0int
            })
            &&& after.stats.pool_exhausted_drops == st.stats.pool_exhausted_drops + (if r is Err {
                1int
            } else {
                0int
            })
            &&& after.stats.no_mapping_drops == st.stats.no_mapping_drops
            &&& after.stats.expired_drops == st.stats.expired_drops
            &&& after.stats.filtered_drops == st.stats.filtered_drops
            &&& after.stats.static_installs == st.stats.static_installs
            &&& r matches Ok(pass) ==> (pass.created <==> !(st.maps.dom().contains(
                Slot { src, key: key_of(st.config.mapping, dst) },
            ) && now <= st.maps[Slot {
                src,
                key: key_of(st.config.mapping, dst),
            }].last_refresh + st.config.idle_timeout.nanos))
        }),
{
    let slot = Slot { src, key: key_of(st.config.mapping, dst) };
    if !st.live(slot, now) {
        let st0 = NatView { maps: st.maps.remove(slot), ..st };
        assert(st0.wf()) by {
            assert forall|a: Slot, b: Slot|
                #![trigger st0.maps[a], st0.maps[b]]
                st0.maps.dom().contains(a) && st0.maps.dom().contains(b) && st0.maps[a].port
                    == st0.maps[b].port implies st0.may_share(a, b) by {
                assert(st.maps[a].port == st.maps[b].port);
            }
        }
        lemma_allocated(st0, now, src);
    }
}

/// A lease is given on the port that is asked for, or on the port of the socket
/// where none is, if nothing holds it; it lasts for as long as it was asked for,
/// and then lets nobody in any more.
pub proof fn law_lease_is_what_was_asked(
    st: NatView,
    now: u64,
    internal: SocketAddr,
    suggested: u16,
    lease: Duration,
    later: u64,
    src: SocketAddr,
)
    requires
        st.wf(),
        internal.port != 0,
        now + lease.nanos <= u64::MAX,
        nothing_holds(
            st,
            now,
            if suggested != 0 {
                suggested
            } else {
                internal.port
            },
        ),
    ensures
        ({
            let first = if suggested != 0 {
                suggested
            } else {
                internal.port
            };
            let (port, after) = st.leased(now, internal, suggested, lease);
            let back = after.let_in(later, src, SocketAddr { ip: st.external_ip, port: first }).0;
            &&& port == Some(first)
            &&& later <= now + lease.nanos ==> back == Ok::<SocketAddr, NatDropReason>(internal)
            &&& later > now + lease.nanos && later >= now ==> back is Err
            &&& forall|p: u16|
                p != first ==> after.statics.dom().contains(p) == st.statics.dom().contains(p) && (
                #[trigger] after.statics.dom().contains(p) ==> after.statics[p].internal
                    == st.statics[p].internal && after.statics[p].expires == st.statics[p].expires)
        }),
{
    let first = if suggested != 0 {
        suggested
    } else {
        internal.port
    };
    lemma_nothing_holds(st, now, first);
    assert(st.port_free(now, first, None));
    assert(st.port_free(now, first, Some(internal)));
    let after = st.leased(now, internal, suggested, lease).1;
    if later > now + lease.nanos {
        assert forall|s: Slot| !#[trigger] after.on_port(s, first) by {
            if after.on_port(s, first) {
                assert(st.on_port(s, first) && st.live(s, now));
            }
        }
    }
}

/// A firewall counts what it drops and what it is opened for.
pub proof fn law_firewall_counts(
    st: FirewallView,
    now: u64,
    src: SocketAddr,
    dst: SocketAddr,
    port: u16,
    lifetime: Duration,
)
    requires
        st.stats.filtered_drops < u64::MAX,
        st.stats.pinholes_installed < u64::MAX,
    ensures
        ({
            let (r, after) = st.let_in(now, src, dst);
            let through = (st.pinholes.dom().contains(dst.port) && now <= st.pinholes[dst.port])
                || (st.flows.dom().contains(Flow { local: dst, remote: src }) && now
                <= st.flows[Flow { local: dst, remote: src }] + st.config.idle_timeout.nanos);
            &&& r is Ok <==> through
            &&& after.stats.filtered_drops == st.stats.filtered_drops + (if through {
                0int
            } else {
                1int
            })
            &&& after.stats.pinholes_installed == st.stats.pinholes_installed
            &&& st.pinholed(now, port, lifetime).stats.pinholes_installed
                == st.stats.pinholes_installed + 1
            &&& st.pinholed(now, port, lifetime).flows == st.flows
            &&& st.pinholed(now, port, lifetime).pinholes.remove(port) == st.pinholes.remove(port)
        }),
{
    assert(st.pinholed(now, port, lifetime).pinholes.remove(port) =~= st.pinholes.remove(port));
}

/// A mapping lets in those that were sent to over it: all of them since it was
/// made, and nobody else.
pub proof fn law_destinations_add_up(
    st: NatView,
    now: u64,
    src: SocketAddr,
    dst: SocketAddr,
    other: SocketAddr,
)
    requires
        st.sent_out(now, src, dst).0 is Ok,
    ensures
        ({
            let slot = Slot { src, key: key_of(st.config.mapping, dst) };
            let (r, after) = st.sent_out(now, src, dst);
            let had = st.maps.dom().contains(slot) && now <= st.maps[slot].last_refresh
                + st.config.idle_timeout.nanos;
            after.maps[slot].allowed.contains(other) <==> other == dst || had
                && st.maps[slot].allowed.contains(other)
        }),
{
}

/// A port that is leased, or mapped anew, is not taken from another: neither a
/// mapping of another socket that is still fresh has it, nor a lease of another
/// that has not run out.
pub proof fn law_ports_are_not_taken_away(
    st: NatView,
    now: u64,
    internal: SocketAddr,
    suggested: u16,
    lease: Duration,
    s: Slot,
)
    requires
        st.wf(),
        st.leased(now, internal, suggested, lease).0 is Some,
    ensures
        ({
            let port = st.leased(now, internal, suggested, lease).0->0;
            let after = st.leased(now, internal, suggested, lease).1;
            &&& is_fresh_on(st, s, now, port) ==> s.src == internal
            &&& st.statics.dom().contains(port) && now <= st.statics[port].expires
                ==> st.statics[port].internal == internal
            &&& after.statics.dom().contains(port)
            &&& after.statics[port].internal == internal
            &&& now + lease.nanos <= u64::MAX ==> after.statics[port].expires == now + lease.nanos
            &&& st.live(s, now) ==> after.maps.dom().contains(s) && after.maps[s] == st.maps[s]
        }),
{
    let first = if suggested != 0 {
        suggested
    } else {
        internal.port
    };
    let purged = st.purged(now, first);
    let port = st.leased(now, internal, suggested, lease).0->0;
    lemma_purged_wf(st, now, first);
    assert(forall|x: Slot| #[trigger] purged.live(x, now) == st.live(x, now));
    assert(forall|x: Slot|
        #![trigger purged.on_port(x, port)]
        st.live(x, now) ==> purged.on_port(x, port) == st.on_port(x, port));
    if first != 0 && st.port_free(now, first, Some(internal)) {
        if is_fresh_on(st, s, now, port) {
            assert(st.on_port(s, port) && st.live(s, now));
        }
    } else {
        let base = if first != 0 {
            purged
        } else {
            st
        };
        lemma_allocated(base, now, internal);
        if st.live(s, now) {
            assert(base.live(s, now));
            lemma_alloc_keeps_live(base, now, internal, s);
        }
        let after = base.allocated(now, internal).1;
        if is_fresh_on(st, s, now, port) {
            assert(st.live(s, now));
            assert(base.live(s, now));
            assert(after.on_port(s, port));
        }
    }
}

/// A box that preserves ports presents the port of the socket also where only
/// that socket holds it.
pub proof fn law_own_ports_are_shared(st: NatView, now: u64, src: SocketAddr, dst: SocketAddr)
    requires
        st.wf(),
        st.config.allocator is Preserving,
        st.config.port_range.0 <= src.port <= st.config.port_range.1,
        forall|s: Slot| #[trigger] is_fresh_on(st, s, now, src.port) ==> s.src == src,
        st.statics.dom().contains(src.port) && now <= st.statics[src.port].expires
            ==> st.statics[src.port].internal == src,
        !st.live(Slot { src, key: key_of(st.config.mapping, dst) }, now),
    ensures
        st.sent_out(now, src, dst).0 == Ok::<OutboundPass, NatDropReason>(
            OutboundPass {
                external: SocketAddr { ip: st.external_ip, port: src.port },
                created: true,
            },
        ),
{
    let slot = Slot { src, key: key_of(st.config.mapping, dst) };
    let st0 = NatView { maps: st.maps.remove(slot), ..st };
    assert forall|s: Slot| #[trigger]
        st0.on_port(s, src.port) && st0.live(s, now) implies s.src == src by {
        assert(is_fresh_on(st, s, now, src.port));
    }
    assert(st0.port_free(now, src.port, Some(src)));
}

} // verus!
