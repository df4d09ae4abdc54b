//! A home gateway: it answers PCP and NAT-PMP on UDP port 5351, SSDP searches
//! on port 1900, and UPnP IGD requests over HTTP, in one of several moods for
//! each protocol. Its answers are built from the protocols' layouts and share
//! no code with a client, so that a wrong layout cannot agree with itself.

use std::collections::BTreeMap;
use vstd::prelude::*;
use crate::addr::{IpAddr, SocketAddr};
use crate::codec::{
    be_bytes, bytes_eq, bytes_views, copy_range, from_be, get_be, lemma_byte_spans,
    lemma_from_be_bound, put_be, put_bytes,
};
use crate::overlay::sim::nat_box::{FirewallBox, FirewallStats, FirewallView, NatBox, NatView};
use crate::overlay::transport::addressed;
use crate::text::{
    decimal_of, eq_ignoring_case, find, find_from, first_two_words, is_utf8, lit, number,
    parse_number, put_decimal, put_text, same_ignoring_case, stands_at, text_at, text_of, trim,
    trimmed, two_words,
};
use crate::time::{bump, bumped, sat_u64, Duration, NANOS_PER_SEC};

verus! {

/// The port of PCP and NAT-PMP.
pub const PCP_PORT: u16 = 5351;

/// The port of SSDP and of the gateway's HTTP endpoint.
pub const UPNP_PORT: u16 = 1900;

/// The largest HTTP request that is buffered, headers and body.
pub const MAX_HTTP_REQUEST: usize = 65_536;

/// How many HTTP connections the gateway holds at once.
pub const MAX_TCP_CONNS: usize = 16;

pub const PCP_VERSION: u8 = 2;

pub const PCP_OP_MAP: u8 = 1;

pub const PCP_RESULT_SUCCESS: u8 = 0;

pub const PCP_RESULT_NOT_AUTHORIZED: u8 = 2;

pub const PCP_RESULT_NO_RESOURCES: u8 = 8;

pub const NATPMP_VERSION: u8 = 0;

pub const NATPMP_OP_EXTERNAL: u8 = 0;

pub const NATPMP_OP_MAP_UDP: u8 = 1;

pub const NATPMP_RESULT_SUCCESS: u16 = 0;

pub const NATPMP_RESULT_REFUSED: u16 = 2;

/// The multicast group that SSDP searches go to.
pub open spec fn ssdp_group() -> SocketAddr {
    SocketAddr { ip: IpAddr::V4(0xefff_fffa), port: UPNP_PORT }
}

pub fn ssdp_multicast() -> (addr: SocketAddr)
    ensures
        addr == ssdp_group(),
{
    SocketAddr::new(IpAddr::V4(0xefff_fffa), UPNP_PORT)
}

/// How one protocol of the gateway behaves.
#[derive(Clone, Copy, Debug, PartialEq, Eq, Structural)]
pub enum TierMode {
    /// There is no such protocol: requests get no answer.
    Off,
    /// It grants, and does what it grants.
    Grant,
    /// It is there but refuses.
    Deny,
    /// It lies: it answers that it granted, and does nothing, so that the
    /// granted port cannot be reached.
    GrantFake,
    /// It answers junk.
    Malformed,
}

#[derive(Clone, Copy, Debug)]
pub struct GatewayConfig {
    pub pcp: TierMode,
    pub natpmp: TierMode,
    pub upnp: TierMode,
    /// How PCP treats IPv6 pinholes; `None` follows `pcp`.
    pub pcp_v6_pinhole: Option<TierMode>,
    /// The longest lease that is granted; shorter requests are honored.
    pub lease: Duration,
}

/// A gateway whose three protocols behave so, with leases of two minutes.
pub open spec fn tiers_config(pcp: TierMode, natpmp: TierMode, upnp: TierMode) -> GatewayConfig {
    GatewayConfig {
        pcp,
        natpmp,
        upnp,
        pcp_v6_pinhole: None,
        lease: Duration { nanos: 120_000_000_000 },
    }
}

impl GatewayConfig {
    fn tiers(pcp: TierMode, natpmp: TierMode, upnp: TierMode) -> (config: Self)
        ensures
            config == tiers_config(pcp, natpmp, upnp),
    {
        GatewayConfig { pcp, natpmp, upnp, pcp_v6_pinhole: None, lease: Duration::from_secs(120) }
    }

    /// A current gateway that works: all protocols grant.
    pub fn granting() -> (config: Self)
        ensures
            config == tiers_config(TierMode::Grant, TierMode::Grant, TierMode::Grant),
    {
        Self::tiers(TierMode::Grant, TierMode::Grant, TierMode::Grant)
    }

    /// No mapping protocol at all.
    pub fn absent() -> (config: Self)
        ensures
            config == tiers_config(TierMode::Off, TierMode::Off, TierMode::Off),
    {
        Self::tiers(TierMode::Off, TierMode::Off, TierMode::Off)
    }

    /// All protocols are there and refuse.
    pub fn denying() -> (config: Self)
        ensures
            config == tiers_config(TierMode::Deny, TierMode::Deny, TierMode::Deny),
    {
        Self::tiers(TierMode::Deny, TierMode::Deny, TierMode::Deny)
    }

    /// All protocols say that they grant and do nothing.
    pub fn grant_fake() -> (config: Self)
        ensures
            config == tiers_config(TierMode::GrantFake, TierMode::GrantFake, TierMode::GrantFake),
    {
        Self::tiers(TierMode::GrantFake, TierMode::GrantFake, TierMode::GrantFake)
    }

    /// NAT-PMP alone works, as on routers from before PCP.
    pub fn natpmp_only() -> (config: Self)
        ensures
            config == tiers_config(TierMode::Off, TierMode::Grant, TierMode::Off),
    {
        Self::tiers(TierMode::Off, TierMode::Grant, TierMode::Off)
    }

    /// UPnP alone works, as on most older home routers.
    pub fn upnp_only() -> (config: Self)
        ensures
            config == tiers_config(TierMode::Off, TierMode::Off, TierMode::Grant),
    {
        Self::tiers(TierMode::Off, TierMode::Off, TierMode::Grant)
    }

    /// All protocols answer junk.
    pub fn malformed() -> (config: Self)
        ensures
            config == tiers_config(TierMode::Malformed, TierMode::Malformed, TierMode::Malformed),
    {
        Self::tiers(TierMode::Malformed, TierMode::Malformed, TierMode::Malformed)
    }

    pub fn lease(self, lease: Duration) -> (config: Self)
        ensures
            config == (GatewayConfig { lease, ..self }),
    {
        let mut config = self;
        config.lease = lease;
        config
    }

    pub fn v6_pinhole(self, mode: TierMode) -> (config: Self)
        ensures
            config == (GatewayConfig { pcp_v6_pinhole: Some(mode), ..self }),
    {
        let mut config = self;
        config.pcp_v6_pinhole = Some(mode);
        config
    }
}

#[derive(Clone, Copy, Debug, PartialEq, Eq, Structural)]
pub struct GatewayStats {
    pub pcp_requests: u64,
    pub natpmp_requests: u64,
    pub ssdp_requests: u64,
    pub http_requests: u64,
    pub grants: u64,
    pub denials: u64,
}

impl GatewayStats {
    pub open spec fn zero() -> Self {
        GatewayStats {
            pcp_requests: 0,
            natpmp_requests: 0,
            ssdp_requests: 0,
            http_requests: 0,
            grants: 0,
            denials: 0,
        }
    }

    pub open spec fn granted(self) -> Self {
        GatewayStats { grants: bumped(self.grants), ..self }
    }

    pub open spec fn denied(self) -> Self {
        GatewayStats { denials: bumped(self.denials), ..self }
    }
}

impl Default for GatewayStats {
    fn default() -> (stats: Self)
        ensures
            stats == GatewayStats::zero(),
    {
        GatewayStats {
            pcp_requests: 0,
            natpmp_requests: 0,
            ssdp_requests: 0,
            http_requests: 0,
            grants: 0,
            denials: 0,
        }
    }
}

/// An address in the 16 bytes of a PCP field, where IPv4 addresses are mapped.
pub open spec fn ip_in_16(n: u128) -> IpAddr {
    if n / 0x1_0000_0000 == 0xffff {
        IpAddr::V4((n % 0x1_0000_0000) as u32)
    } else {
        IpAddr::V6(n)
    }
}

pub open spec fn ip_as_16(ip: IpAddr) -> u128 {
    match ip {
        IpAddr::V4(n) => (0xffff_0000_0000 + n) as u128,
        IpAddr::V6(n) => n,
    }
}

fn ip_from_16(bytes: &[u8], at: usize) -> (ip: IpAddr)
    requires
        at + 16 <= bytes@.len(),
    ensures
        ip == ip_in_16(from_be(bytes@.subrange(at as int, at + 16)) as u128),
{
    let n: u128 = get_be(bytes, at, 16);
    if n / 0x1_0000_0000 == 0xffff {
        IpAddr::V4((n % 0x1_0000_0000) as u32)
    } else {
        IpAddr::V6(n)
    }
}

fn ip_to_16(ip: IpAddr) -> (n: u128)
    ensures
        n == ip_as_16(ip),
{
    match ip {
        IpAddr::V4(n) => 0xffff_0000_0000 + n as u128,
        IpAddr::V6(n) => n,
    }
}

/// A field of a request, most significant byte first.
pub open spec fn field(payload: Seq<u8>, at: int, n: int) -> nat {
    from_be(payload.subrange(at, at + n))
}

fn get_field(payload: &[u8], at: usize, n: usize) -> (x: u32)
    requires
        at + n <= payload@.len(),
        n <= 4,
    ensures
        x == field(payload@, at as int, n as int),
        n <= 2 ==> x <= u16::MAX,
{
    proof {
        lemma_byte_spans();
        lemma_from_be_bound(payload@.subrange(at as int, at + n));
        crate::codec::lemma_byte_span_mono(n as nat, 4);
        if n <= 2 {
            crate::codec::lemma_byte_span_mono(n as nat, 2);
        }
    }
    get_be(payload, at, n) as u32
}

/// Junk that begins with a plausible version byte.
pub open spec fn junk(version: u8) -> Seq<u8> {
    seq![version, 0xde, 0xad, 0xbe, 0xef, 0x00, 0x01]
}

fn garbage(version: u8) -> (bytes: Vec<u8>)
    ensures
        bytes@ == junk(version),
{
    let bytes: Vec<u8> = vec![version, 0xde, 0xad, 0xbe, 0xef, 0x00, 0x01];
    assert(bytes@ =~= junk(version));
    bytes
}

/// Seconds of the gateway's clock, as 32 bits hold them.
pub open spec fn epoch_of(now: u64) -> nat {
    ((now / NANOS_PER_SEC) % 0x1_0000_0000) as nat
}

fn epoch(now: u64) -> (secs: u64)
    ensures
        secs == epoch_of(now),
{
    (now / NANOS_PER_SEC) % 0x1_0000_0000
}

/// The answer to a PCP request to map a port, 60 bytes. The nonce, the
/// protocol and the internal port are the request's.
pub open spec fn pcp_answer(
    request: Seq<u8>,
    result: u8,
    lifetime: nat,
    now: u64,
    port: u16,
    ip: IpAddr,
) -> Seq<u8> {
    seq![PCP_VERSION, 0x81, 0, result] + be_bytes(lifetime, 4) + be_bytes(epoch_of(now), 4)
        + Seq::new(12, |i: int| 0u8) + request.subrange(24, 36) + seq![request[36], 0, 0, 0]
        + request.subrange(40, 42) + be_bytes(port as nat, 2) + be_bytes(ip_as_16(ip) as nat, 16)
}

fn pcp_map_response(
    request: &[u8],
    result: u8,
    lifetime: u64,
    now: u64,
    port: u16,
    ip: IpAddr,
) -> (resp: Vec<u8>)
    requires
        request@.len() == 60,
    ensures
        resp@ == pcp_answer(request@, result, lifetime as nat, now, port, ip),
{
    let mut resp: Vec<u8> = vec![PCP_VERSION, 0x81, 0, result];
    put_be(&mut resp, lifetime as u128, 4);
    put_be(&mut resp, epoch(now) as u128, 4);
    let mut i: usize = 0;
    let ghost head = resp@;
    while i < 12
        invariant
            i <= 12,
            resp@ == head + Seq::new(i as nat, |k: int| 0u8),
        decreases 12 - i,
    {
        resp.push(0);
        i += 1;
        assert(resp@ =~= head + Seq::new(i as nat, |k: int| 0u8));
    }
    put_bytes(&mut resp, &copy_range(request, 24, 36));
    resp.push(request[36]);
    resp.push(0);
    resp.push(0);
    resp.push(0);
    put_bytes(&mut resp, &copy_range(request, 40, 42));
    put_be(&mut resp, port as u128, 2);
    put_be(&mut resp, ip_to_16(ip), 16);
    assert(resp@ =~= pcp_answer(request@, result, lifetime as nat, now, port, ip));
    resp
}

/// The answer to a NAT-PMP request for the external address.
pub open spec fn natpmp_external(result: u16, now: u64, ip: u32) -> Seq<u8> {
    seq![NATPMP_VERSION, 128u8] + be_bytes(result as nat, 2) + be_bytes(epoch_of(now), 4)
        + be_bytes(ip as nat, 4)
}

/// The answer to a NAT-PMP request to map a port.
pub open spec fn natpmp_mapped(
    result: u16,
    now: u64,
    internal_port: u16,
    mapped: u16,
    lease_secs: nat,
) -> Seq<u8> {
    seq![NATPMP_VERSION, 129u8] + be_bytes(result as nat, 2) + be_bytes(epoch_of(now), 4)
        + be_bytes(internal_port as nat, 2) + be_bytes(mapped as nat, 2) + be_bytes(lease_secs, 4)
}

/// The gateway as the contracts speak of it.
#[verifier::ext_equal]
pub struct GatewayView {
    pub config: GatewayConfig,
    pub lan_ip: IpAddr,
    /// What has arrived on each HTTP connection and not been answered.
    pub bufs: Map<u64, Seq<u8>>,
    pub stats: GatewayStats,
}

/// What a gateway does: the answer it gives, if any, and the gateway, the NAT
/// box and the firewall after it.
pub struct Outcome {
    pub answer: Option<Seq<u8>>,
    pub gateway: GatewayView,
    pub nat_box: NatView,
    pub firewall: Option<FirewallView>,
}

impl GatewayView {
    /// The lease that a request for `secs` seconds gets.
    pub open spec fn granted_lease(self, secs: nat) -> Duration {
        let asked = Duration { nanos: (secs * NANOS_PER_SEC) as u64 };
        if self.config.lease.nanos < asked.nanos {
            self.config.lease
        } else {
            asked
        }
    }

    /// How PCP treats a client at `ip`.
    pub open spec fn pcp_mode(self, ip: IpAddr) -> TierMode {
        if ip is V6 && self.config.pcp_v6_pinhole is Some {
            self.config.pcp_v6_pinhole->0
        } else {
            self.config.pcp
        }
    }

    /// The gateway with these counters, and everything else as it was.
    pub open spec fn with_stats(self, stats: GatewayStats) -> Self {
        GatewayView { stats, ..self }
    }

    /// What becomes of a PCP request.
    pub open spec fn pcp(
        self,
        now: u64,
        src: SocketAddr,
        payload: Seq<u8>,
        st: NatView,
        firewall: Option<FirewallView>,
    ) -> Outcome {
        let counted = GatewayStats { pcp_requests: bumped(self.stats.pcp_requests), ..self.stats };
        let silent = Outcome {
            answer: None,
            gateway: self.with_stats(counted),
            nat_box: st,
            firewall,
        };
        if payload.len() != 60 || payload[1] % 128 != PCP_OP_MAP {
            silent
        } else {
            let client = ip_in_16(field(payload, 8, 16) as u128);
            let requested = field(payload, 4, 4);
            let internal_port = field(payload, 40, 2) as u16;
            let suggested = field(payload, 42, 2) as u16;
            let lease = self.granted_lease(requested);
            let secs = (lease.nanos / NANOS_PER_SEC) as nat;
            let granted = Outcome { gateway: self.with_stats(counted.granted()), ..silent };
            let denied = Outcome { gateway: self.with_stats(counted.denied()), ..silent };
            match self.pcp_mode(client) {
                TierMode::Off => silent,
                TierMode::Malformed => Outcome { answer: Some(junk(PCP_VERSION)), ..silent },
                TierMode::Deny => Outcome {
                    answer: Some(
                        pcp_answer(payload, PCP_RESULT_NOT_AUTHORIZED, 0, now, 0, client),
                    ),
                    ..denied
                },
                TierMode::GrantFake => if client is V6 {
                    Outcome {
                        answer: Some(
                            pcp_answer(
                                payload,
                                PCP_RESULT_SUCCESS,
                                secs,
                                now,
                                internal_port,
                                client,
                            ),
                        ),
                        ..granted
                    }
                } else {
                    Outcome {
                        answer: Some(
                            pcp_answer(
                                payload,
                                PCP_RESULT_SUCCESS,
                                secs,
                                now,
                                if suggested != 0 {
                                    suggested
                                } else {
                                    internal_port
                                },
                                st.external_ip,
                            ),
                        ),
                        ..granted
                    }
                },
                TierMode::Grant => if client is V6 {
                    Outcome {
                        answer: Some(
                            pcp_answer(
                                payload,
                                PCP_RESULT_SUCCESS,
                                secs,
                                now,
                                internal_port,
                                client,
                            ),
                        ),
                        firewall: match firewall {
                            Some(f) => Some(
                                FirewallView {
                                    pinholes: f.pinholes.insert(
                                        internal_port,
                                        sat_u64(now + lease.nanos),
                                    ),
                                    stats: FirewallStats {
                                        pinholes_installed: bumped(f.stats.pinholes_installed),
                                        ..f.stats
                                    },
                                    ..f
                                },
                            ),
                            None => None,
                        },
                        ..granted
                    }
                } else {
                    let internal = SocketAddr { ip: src.ip, port: internal_port };
                    let (assigned, after) = st.leased(now, internal, suggested, lease);
                    match assigned {
                        Some(port) => Outcome {
                            answer: Some(
                                pcp_answer(
                                    payload,
                                    PCP_RESULT_SUCCESS,
                                    secs,
                                    now,
                                    port,
                                    st.external_ip,
                                ),
                            ),
                            nat_box: after,
                            ..granted
                        },
                        None => Outcome {
                            answer: Some(
                                pcp_answer(
                                    payload,
                                    PCP_RESULT_NO_RESOURCES,
                                    0,
                                    now,
                                    0,
                                    st.external_ip,
                                ),
                            ),
                            nat_box: after,
                            ..denied
                        },
                    }
                },
            }
        }
    }

    /// What becomes of a NAT-PMP request.
    pub open spec fn natpmp(
        self,
        now: u64,
        src: SocketAddr,
        payload: Seq<u8>,
        st: NatView,
    ) -> Outcome {
        let counted = GatewayStats {
            natpmp_requests: bumped(self.stats.natpmp_requests),
            ..self.stats
        };
        let silent = Outcome {
            answer: None,
            gateway: self.with_stats(counted),
            nat_box: st,
            firewall: None,
        };
        let granted = Outcome { gateway: self.with_stats(counted.granted()), ..silent };
        let denied = Outcome { gateway: self.with_stats(counted.denied()), ..silent };
        let mode = self.config.natpmp;
        if mode is Off {
            silent
        } else if mode is Malformed {
            Outcome { answer: Some(junk(NATPMP_VERSION)), ..silent }
        } else if payload.len() == 2 && payload[1] == NATPMP_OP_EXTERNAL {
            if mode is Deny {
                Outcome { answer: Some(natpmp_external(NATPMP_RESULT_REFUSED, now, 0)), ..denied }
            } else {
                let ip = match st.external_ip {
                    IpAddr::V4(ip) => ip,
                    IpAddr::V6(_) => 0,
                };
                Outcome { answer: Some(natpmp_external(NATPMP_RESULT_SUCCESS, now, ip)), ..silent }
            }
        } else if payload.len() == 12 && payload[1] == NATPMP_OP_MAP_UDP {
            let internal_port = field(payload, 4, 2) as u16;
            let suggested = field(payload, 6, 2) as u16;
            let requested = field(payload, 8, 4);
            let lease = self.granted_lease(requested);
            let secs = (lease.nanos / NANOS_PER_SEC) as nat;
            let refused = natpmp_mapped(NATPMP_RESULT_REFUSED, now, internal_port, 0, 0);
            match mode {
                TierMode::Deny => Outcome { answer: Some(refused), ..denied },
                TierMode::Grant => {
                    let internal = SocketAddr { ip: src.ip, port: internal_port };
                    let (assigned, after) = st.leased(now, internal, suggested, lease);
                    match assigned {
                        Some(port) => Outcome {
                            answer: Some(
                                natpmp_mapped(
                                    NATPMP_RESULT_SUCCESS,
                                    now,
                                    internal_port,
                                    port,
                                    secs,
                                ),
                            ),
                            nat_box: after,
                            ..granted
                        },
                        None => Outcome { answer: Some(refused), nat_box: after, ..denied },
                    }
                },
                _ => Outcome {
                    answer: Some(
                        natpmp_mapped(
                            NATPMP_RESULT_SUCCESS,
                            now,
                            internal_port,
                            if suggested != 0 {
                                suggested
                            } else {
                                internal_port
                            },
                            secs,
                        ),
                    ),
                    ..granted
                },
            }
        } else {
            silent
        }
    }
}

/// A home gateway, which programs the innermost NAT box of its host.
pub struct Gateway {
    pub config: GatewayConfig,
    lan_ip: IpAddr,
    /// What has arrived on each HTTP connection.
    tcp_bufs: BTreeMap<u64, Vec<u8>>,
    pub stats: GatewayStats,
}

impl Gateway {
    pub closed spec fn view(&self) -> GatewayView {
        GatewayView {
            config: self.config,
            lan_ip: self.lan_ip,
            bufs: self.tcp_bufs@.map_values(|buf: Vec<u8>| buf@),
            stats: self.stats,
        }
    }

    /// There are no more connections than are allowed, and none keeps more than
    /// a request can have.
    pub closed spec fn wf(&self) -> bool {
        &&& self.tcp_bufs@.dom().len() <= MAX_TCP_CONNS
        &&& forall|conn: u64| #[trigger]
            self.tcp_bufs@.dom().contains(conn) ==> self.tcp_bufs@[conn]@.len() <= MAX_HTTP_REQUEST
    }

    /// What a consistent gateway gives its callers.
    pub proof fn lemma_wf(&self)
        requires
            self.wf(),
        ensures
            self.conns() <= MAX_TCP_CONNS,
            forall|conn: u64| #[trigger]
                self@.bufs.dom().contains(conn) ==> self@.bufs[conn].len() <= MAX_HTTP_REQUEST,
    {
        assert(self@.bufs.dom() =~= self.tcp_bufs@.dom());
    }

    pub fn new(config: GatewayConfig, lan_ip: IpAddr) -> (gateway: Self)
        ensures
            gateway.wf(),
            gateway@ == (GatewayView {
                config,
                lan_ip,
                bufs: Map::empty(),
                stats: GatewayStats::zero(),
            }),
    {
        let gateway = Gateway {
            config,
            lan_ip,
            tcp_bufs: BTreeMap::new(),
            stats: GatewayStats::default(),
        };
        assert(gateway@.bufs =~= Map::<u64, Seq<u8>>::empty());
        gateway
    }

    pub fn lan_ip(&self) -> (ip: IpAddr)
        ensures
            ip == self@.lan_ip,
    {
        self.lan_ip
    }

    /// Where clients of PCP and NAT-PMP send to.
    pub fn udp_endpoint(&self) -> (addr: SocketAddr)
        ensures
            addr == (SocketAddr { ip: self@.lan_ip, port: PCP_PORT }),
    {
        SocketAddr::new(self.lan_ip, PCP_PORT)
    }

    /// The HTTP endpoint that SSDP advertises.
    fn http_endpoint(&self) -> (addr: SocketAddr)
        ensures
            addr == (SocketAddr { ip: self@.lan_ip, port: UPNP_PORT }),
    {
        SocketAddr::new(self.lan_ip, UPNP_PORT)
    }

    /// Whether `dst` addresses this gateway: its own address, or the SSDP
    /// group that it listens to.
    pub fn is_gateway_dst(&self, dst: SocketAddr) -> (r: bool)
        ensures
            r == (dst.ip == self@.lan_ip || dst == ssdp_group()),
    {
        dst.ip() == self.lan_ip || dst == ssdp_multicast()
    }

    fn granted_lease(&self, requested_secs: u32) -> (lease: Duration)
        ensures
            lease == self@.granted_lease(requested_secs as nat),
    {
        Duration::from_secs(requested_secs as u64).min(self.config.lease)
    }

    fn handle_pcp(
        &mut self,
        now: u64,
        src: SocketAddr,
        payload: &[u8],
        nat_box: &mut NatBox,
        firewall: Option<&mut FirewallBox>,
    ) -> (answer: Option<Vec<u8>>)
        requires
            old(self).wf(),
            old(nat_box).wf(),
            firewall matches Some(f) ==> f.wf(),
        ensures
            final(self).wf(),
            final(nat_box).wf(),
            ({
                let before = match firewall {
                    Some(f) => Some(f@),
                    None => None,
                };
                let want = old(self)@.pcp(now, src, payload@, old(nat_box)@, before);
                &&& answer_view(answer) == want.answer
                &&& final(self)@ == want.gateway
                &&& final(nat_box)@ == want.nat_box
                &&& match firewall {
                    Some(f) => final(f).wf() && want.firewall == Some(final(f)@),
                    None => true,
                }
            }),
    {
        let ghost st = nat_box@;
        self.stats.pcp_requests = bump(self.stats.pcp_requests);
        if payload.len() != 60 || payload[1] % 128 != PCP_OP_MAP {
            return None;
        }
        let client = ip_from_16(payload, 8);
        let mode = match (client.is_ipv6(), self.config.pcp_v6_pinhole) {
            (true, Some(mode)) => mode,
            _ => self.config.pcp,
        };
        assert(mode == old(self)@.pcp_mode(client));
        match mode {
            TierMode::Off => None,
            TierMode::Malformed => Some(garbage(PCP_VERSION)),
            TierMode::Deny => {
                self.stats.denials = bump(self.stats.denials);
                Some(pcp_map_response(payload, PCP_RESULT_NOT_AUTHORIZED, 0, now, 0, client))
            },
            _ => {
                let requested: u32 = get_field(payload, 4, 4);
                let internal_port: u16 = get_field(payload, 40, 2) as u16;
                let suggested: u16 = get_field(payload, 42, 2) as u16;
                let lease = self.granted_lease(requested);
                let secs: u64 = lease.as_secs();
                if client.is_ipv6() {
                    if mode == TierMode::Grant {
                        if let Some(firewall) = firewall {
                            firewall.install_pinhole(now, internal_port, lease);
                        }
                    }
                    self.stats.grants = bump(self.stats.grants);
                    return Some(
                        pcp_map_response(
                            payload,
                            PCP_RESULT_SUCCESS,
                            secs,
                            now,
                            internal_port,
                            client,
                        ),
                    );
                }
                let external_ip = nat_box.external_ip();
                let internal = SocketAddr::new(src.ip(), internal_port);
                let assigned: Option<u16> = if mode == TierMode::Grant {
                    nat_box.install_static(now, internal, suggested, lease)
                } else if suggested != 0 {
                    Some(suggested)
                } else {
                    Some(internal_port)
                };
                match assigned {
                    Some(port) => {
                        self.stats.grants = bump(self.stats.grants);
                        Some(
                            pcp_map_response(
                                payload,
                                PCP_RESULT_SUCCESS,
                                secs,
                                now,
                                port,
                                external_ip,
                            ),
                        )
                    },
                    None => {
                        self.stats.denials = bump(self.stats.denials);
                        Some(
                            pcp_map_response(
                                payload,
                                PCP_RESULT_NO_RESOURCES,
                                0,
                                now,
                                0,
                                external_ip,
                            ),
                        )
                    },
                }
            },
        }
    }
}

pub open spec fn answer_view(answer: Option<Vec<u8>>) -> Option<Seq<u8>> {
    match answer {
        Some(bytes) => Some(bytes@),
        None => None,
    }
}

/// How the standard library writes an IPv6 address.
pub uninterp spec fn ipv6_text(n: u128) -> Seq<char>;

/// What the standard library reads an IP address from a text as.
pub uninterp spec fn ip_parsed(text: Seq<char>) -> Option<IpAddr>;

/// `Ipv6Addr`'s text: a function of the address.
#[verifier::external_body]
fn ipv6_to_text(n: u128) -> (text: String)
    ensures
        text@ == ipv6_text(n),
{
    core::net::Ipv6Addr::from(n).to_string()
}

/// `IpAddr::from_str`: the address that a text spells, if it does, is a
/// function of the text.
#[verifier::external_body]
fn parse_ip(text: &str) -> (ip: Option<IpAddr>)
    ensures
        ip == ip_parsed(text@),
{
    match text.parse::<core::net::IpAddr>().ok()? {
        core::net::IpAddr::V4(ip) => Some(IpAddr::V4(u32::from(ip))),
        core::net::IpAddr::V6(ip) => Some(IpAddr::V6(u128::from(ip))),
    }
}

/// An address as text.
pub open spec fn ip_text(ip: IpAddr) -> Seq<u8> {
    match ip {
        IpAddr::V4(n) => decimal_of((n / 0x100_0000) as nat) + lit("."@) + decimal_of(
            (n / 0x1_0000 % 0x100) as nat,
        ) + lit("."@) + decimal_of((n / 0x100 % 0x100) as nat) + lit("."@) + decimal_of(
            (n % 0x100) as nat,
        ),
        IpAddr::V6(n) => lit(ipv6_text(n)),
    }
}

/// An endpoint as text.
pub open spec fn socket_text(addr: SocketAddr) -> Seq<u8> {
    match addr.ip {
        IpAddr::V4(_) => ip_text(addr.ip) + lit(":"@) + decimal_of(addr.port as nat),
        IpAddr::V6(_) => lit("["@) + ip_text(addr.ip) + lit("]:"@) + decimal_of(addr.port as nat),
    }
}

fn put_ip(buf: &mut Vec<u8>, ip: IpAddr)
    ensures
        final(buf)@ == old(buf)@ + ip_text(ip),
{
    let ghost start = buf@;
    match ip {
        IpAddr::V4(n) => {
            put_decimal(buf, (n / 0x100_0000) as u64);
            put_text(buf, ".");
            put_decimal(buf, (n / 0x1_0000 % 0x100) as u64);
            put_text(buf, ".");
            put_decimal(buf, (n / 0x100 % 0x100) as u64);
            put_text(buf, ".");
            put_decimal(buf, (n % 0x100) as u64);
        },
        IpAddr::V6(n) => {
            let text = ipv6_to_text(n);
            put_text(buf, text.as_str());
        },
    }
    assert(buf@ =~= start + ip_text(ip));
}

fn put_socket(buf: &mut Vec<u8>, addr: SocketAddr)
    ensures
        final(buf)@ == old(buf)@ + socket_text(addr),
{
    let ghost start = buf@;
    match addr.ip() {
        IpAddr::V4(_) => {
            put_ip(buf, addr.ip());
            put_text(buf, ":");
        },
        IpAddr::V6(_) => {
            put_text(buf, "[");
            put_ip(buf, addr.ip());
            put_text(buf, "]:");
        },
    }
    put_decimal(buf, addr.port() as u64);
    assert(buf@ =~= start + socket_text(addr));
}

/// The answer to an SSDP search: where the device is described.
pub open spec fn ssdp_answer(endpoint: SocketAddr) -> Seq<u8> {
    lit("HTTP/1.1 200 OK\r\nCACHE-CONTROL: max-age=120\r\n"@) + lit(
        "ST: urn:schemas-upnp-org:device:InternetGatewayDevice:1\r\n"@,
    ) + lit(
        "USN: uuid:sim-gateway::urn:schemas-upnp-org:device:InternetGatewayDevice:1\r\n"@,
    ) + lit("LOCATION: http://"@) + socket_text(endpoint) + lit("/rootDesc.xml\r\n\r\n"@)
}

pub open spec fn ssdp_junk() -> Seq<u8> {
    lit("HTTP/1.1 200 OK\r\nLOCATION:"@) + seq![0u8, 0xff, 0xfe] + lit("\r\n"@)
}

/// A response with an XML body.
pub open spec fn http_ok(body: Seq<u8>) -> Seq<u8> {
    lit("HTTP/1.1 200 OK\r\nCONTENT-TYPE: text/xml; charset=\"utf-8\"\r\nCONTENT-LENGTH: "@)
        + decimal_of(body.len()) + lit("\r\n\r\n"@) + body
}

fn make_http_ok(body: &Vec<u8>) -> (out: Vec<u8>)
    ensures
        out@ == http_ok(body@),
{
    let mut out: Vec<u8> = Vec::new();
    put_text(
        &mut out,
        "HTTP/1.1 200 OK\r\nCONTENT-TYPE: text/xml; charset=\"utf-8\"\r\nCONTENT-LENGTH: ",
    );
    put_decimal(&mut out, body.len() as u64);
    put_text(&mut out, "\r\n\r\n");
    put_bytes(&mut out, body);
    assert(out@ =~= http_ok(body@));
    out
}

/// The body that answers an action.
pub open spec fn soap_body(action: Seq<char>, fields: Seq<u8>) -> Seq<u8> {
    lit("<?xml version=\"1.0\"?>"@) + lit(
        "<s:Envelope xmlns:s=\"http://schemas.xmlsoap.org/soap/envelope/\"><s:Body><u:"@,
    ) + lit(action) + lit(" xmlns:u=\"urn:schemas-upnp-org:service:WANIPConnection:1\">"@) + fields
        + lit("</u:"@) + lit(action) + lit("></s:Body></s:Envelope>"@)
}

fn make_soap_body(action: &str, fields: &Vec<u8>) -> (out: Vec<u8>)
    ensures
        out@ == soap_body(action@, fields@),
{
    let mut out: Vec<u8> = Vec::new();
    put_text(&mut out, "<?xml version=\"1.0\"?>");
    put_text(
        &mut out,
        "<s:Envelope xmlns:s=\"http://schemas.xmlsoap.org/soap/envelope/\"><s:Body><u:",
    );
    put_text(&mut out, action);
    put_text(&mut out, " xmlns:u=\"urn:schemas-upnp-org:service:WANIPConnection:1\">");
    put_bytes(&mut out, fields);
    put_text(&mut out, "</u:");
    put_text(&mut out, action);
    put_text(&mut out, "></s:Body></s:Envelope>");
    assert(out@ =~= soap_body(action@, fields@));
    out
}

/// The body of a UPnP error.
pub open spec fn soap_fault(code: u32, description: Seq<char>) -> Seq<u8> {
    lit("<?xml version=\"1.0\"?>"@) + lit(
        "<s:Envelope xmlns:s=\"http://schemas.xmlsoap.org/soap/envelope/\">"@,
    ) + lit("<s:Body><s:Fault><detail><UPnPError><errorCode>"@) + decimal_of(code as nat) + lit(
        "</errorCode><errorDescription>"@,
    ) + lit(description) + lit(
        "</errorDescription></UPnPError></detail></s:Fault></s:Body></s:Envelope>"@,
    )
}

/// A UPnP error.
pub open spec fn soap_error(code: u32, description: Seq<char>) -> Seq<u8> {
    lit("HTTP/1.1 500 Internal Server Error\r\nCONTENT-TYPE: text/xml\r\nCONTENT-LENGTH: "@)
        + decimal_of(soap_fault(code, description).len()) + lit("\r\n\r\n"@) + soap_fault(
        code,
        description,
    )
}

fn make_soap_error(code: u32, description: &str) -> (out: Vec<u8>)
    ensures
        out@ == soap_error(code, description@),
{
    let mut body: Vec<u8> = Vec::new();
    put_text(&mut body, "<?xml version=\"1.0\"?>");
    put_text(&mut body, "<s:Envelope xmlns:s=\"http://schemas.xmlsoap.org/soap/envelope/\">");
    put_text(&mut body, "<s:Body><s:Fault><detail><UPnPError><errorCode>");
    put_decimal(&mut body, code as u64);
    put_text(&mut body, "</errorCode><errorDescription>");
    put_text(&mut body, description);
    put_text(
        &mut body,
        "</errorDescription></UPnPError></detail></s:Fault></s:Body></s:Envelope>",
    );
    assert(body@ =~= soap_fault(code, description@));
    let mut out: Vec<u8> = Vec::new();
    put_text(
        &mut out,
        "HTTP/1.1 500 Internal Server Error\r\nCONTENT-TYPE: text/xml\r\nCONTENT-LENGTH: ",
    );
    put_decimal(&mut out, body.len() as u64);
    put_text(&mut out, "\r\n\r\n");
    put_bytes(&mut out, &body);
    assert(out@ =~= soap_error(code, description@));
    out
}

/// What the gateway says it is.
pub open spec fn device_description() -> Seq<u8> {
    lit("<?xml version=\"1.0\"?><root xmlns=\"urn:schemas-upnp-org:device-1-0\">"@) + lit(
        "<device><deviceType>urn:schemas-upnp-org:device:InternetGatewayDevice:1</deviceType>"@,
    ) + lit(
        "<deviceList><device><deviceType>urn:schemas-upnp-org:device:WANDevice:1</deviceType>"@,
    ) + lit(
        "<deviceList><device><deviceType>urn:schemas-upnp-org:device:WANConnectionDevice:1</deviceType>"@,
    ) + lit(
        "<serviceList><service><serviceType>urn:schemas-upnp-org:service:WANIPConnection:1</serviceType>"@,
    ) + lit("<controlURL>/ctl/IPConn</controlURL></service></serviceList>"@) + lit(
        "</device></deviceList></device></deviceList></device></root>"@,
    )
}

fn make_device_description() -> (out: Vec<u8>)
    ensures
        out@ == device_description(),
{
    let mut out: Vec<u8> = Vec::new();
    put_text(&mut out, "<?xml version=\"1.0\"?><root xmlns=\"urn:schemas-upnp-org:device-1-0\">");
    put_text(
        &mut out,
        "<device><deviceType>urn:schemas-upnp-org:device:InternetGatewayDevice:1</deviceType>",
    );
    put_text(
        &mut out,
        "<deviceList><device><deviceType>urn:schemas-upnp-org:device:WANDevice:1</deviceType>",
    );
    put_text(
        &mut out,
        "<deviceList><device><deviceType>urn:schemas-upnp-org:device:WANConnectionDevice:1</deviceType>",
    );
    put_text(
        &mut out,
        "<serviceList><service><serviceType>urn:schemas-upnp-org:service:WANIPConnection:1</serviceType>",
    );
    put_text(&mut out, "<controlURL>/ctl/IPConn</controlURL></service></serviceList>");
    put_text(&mut out, "</device></deviceList></device></deviceList></device></root>");
    assert(out@ =~= device_description());
    out
}

/// What stands between the first `<tag>` and the `</tag>` that follows it,
/// without white space around it.
pub open spec fn xml_value(body: Seq<u8>, tag: Seq<char>) -> Option<Seq<u8>> {
    let open = lit("<"@) + lit(tag) + lit(">"@);
    let close = lit("</"@) + lit(tag) + lit(">"@);
    match find_from(body, open, 0) {
        None => None,
        Some(at) => {
            let start = at + open.len();
            match find_from(body, close, start) {
                None => None,
                Some(end) => Some(trimmed(body.subrange(start, end))),
            }
        },
    }
}

fn xml_field(body: &[u8], tag: &str) -> (value: Option<Vec<u8>>)
    ensures
        answer_view(value) == xml_value(body@, tag@),
{
    let mut open: Vec<u8> = Vec::new();
    put_text(&mut open, "<");
    put_text(&mut open, tag);
    put_text(&mut open, ">");
    let mut close: Vec<u8> = Vec::new();
    put_text(&mut close, "</");
    put_text(&mut close, tag);
    put_text(&mut close, ">");
    proof {
        assert(open@ =~= lit("<"@) + lit(tag@) + lit(">"@));
        assert(close@ =~= lit("</"@) + lit(tag@) + lit(">"@));
    }
    let len: usize = body.len();
    let at: usize = match find(body, &open, 0) {
        Some(at) => at,
        None => {
            return None;
        },
    };
    let start: usize = at + open.len();
    match find(body, &close, start) {
        Some(end) => {
            let value = copy_range(body, start, end);
            Some(trim(&value))
        },
        None => None,
    }
}

/// A number in a field.
pub open spec fn xml_number(body: Seq<u8>, tag: Seq<char>, max: nat) -> Option<nat> {
    match xml_value(body, tag) {
        Some(value) => number(value, max),
        None => None,
    }
}

fn xml_parse(body: &[u8], tag: &str, max: u64) -> (n: Option<u64>)
    ensures
        match n {
            Some(n) => xml_number(body@, tag@, max as nat) == Some(n as nat) && n <= max,
            None => xml_number(body@, tag@, max as nat) is None,
        },
{
    match xml_field(body, tag) {
        Some(value) => parse_number(&value, max),
        None => None,
    }
}

/// An address in a field. The value is read as text.
pub open spec fn xml_ip(body: Seq<u8>, tag: Seq<char>) -> Option<IpAddr> {
    match xml_value(body, tag) {
        Some(value) => if vstd::utf8::valid_utf8(value) {
            ip_parsed(vstd::utf8::decode_utf8(value))
        } else {
            None
        },
        None => None,
    }
}

fn xml_parse_ip(body: &[u8], tag: &str) -> (ip: Option<IpAddr>)
    ensures
        ip == xml_ip(body@, tag@),
{
    match xml_field(body, tag) {
        Some(value) => match text_of(value) {
            Some(text) => parse_ip(text.as_str()),
            None => None,
        },
        None => None,
    }
}

/// An HTTP request, as far as the gateway reads it.
pub struct HttpView {
    pub method: Seq<u8>,
    pub path: Seq<u8>,
    pub body: Seq<u8>,
}

/// An HTTP request, without its headers.
#[derive(Debug)]
pub struct HttpRequest {
    pub method: Vec<u8>,
    pub path: Vec<u8>,
    pub body: Vec<u8>,
}

impl HttpRequest {
    pub open spec fn view(&self) -> HttpView {
        HttpView { method: self.method@, path: self.path@, body: self.body@ }
    }
}

/// The first `content-length` header of the lines from `from` on.
pub open spec fn length_header(headers: Seq<u8>, from: int) -> Option<Seq<u8>>
    decreases headers.len() + 1 - from,
{
    if from > headers.len() || from < 0 {
        None
    } else {
        let e = find_from(headers, lit("\r\n"@), from);
        let end = match e {
            Some(end) => end,
            None => headers.len() as int,
        };
        let line = headers.subrange(from, end);
        let colon = find_from(line, lit(":"@), 0);
        if colon is Some && same_ignoring_case(line.take(colon->0), lit("content-length"@)) {
            Some(line.skip(colon->0 + 1))
        } else if e is Some && from <= end && end + 2 <= headers.len() {
            length_header(headers, end + 2)
        } else {
            None
        }
    }
}

/// The length that the headers announce; none, or one that is no number,
/// counts as zero.
pub open spec fn announced(headers: Seq<u8>, from: int) -> nat {
    match length_header(headers, from) {
        Some(value) => match number(trimmed(value), usize::MAX as nat) {
            Some(n) => n,
            None => 0,
        },
        None => 0,
    }
}

/// The request at the front of `buf`, and how long it is, once all of it has
/// arrived.
pub open spec fn http_request(buf: Seq<u8>) -> Option<(HttpView, int)> {
    let blank = find_from(buf, lit("\r\n\r\n"@), 0);
    if !vstd::utf8::valid_utf8(buf) || blank is None {
        None
    } else {
        let header_end = blank->0 + 4;
        let headers = buf.take(header_end);
        let first = find_from(headers, lit("\r\n"@), 0)->0;
        let words = two_words(headers.take(first));
        let n = announced(headers, first + 2);
        if words is None || n > buf.len() - header_end {
            None
        } else {
            let body = buf.subrange(header_end, header_end + n);
            if vstd::utf8::valid_utf8(body) {
                Some(
                    (
                        HttpView { method: (words->0).0, path: (words->0).1, body },
                        header_end + n,
                    ),
                )
            } else {
                None
            }
        }
    }
}

pub open spec fn request_view(r: Option<(HttpRequest, usize)>) -> Option<(HttpView, int)> {
    match r {
        Some((request, consumed)) => Some((request.view(), consumed as int)),
        None => None,
    }
}

/// What `find` finds lies within, and the text stands there.
proof fn lemma_found(hay: Seq<u8>, needle: Seq<u8>, from: int)
    requires
        0 <= from,
    ensures
        find_from(hay, needle, from) matches Some(at) ==> from <= at && stands_at(hay, needle, at),
    decreases hay.len() + 1 - from,
{
    if from + needle.len() <= hay.len() && !stands_at(hay, needle, from) {
        lemma_found(hay, needle, from + 1);
    }
}

/// If the text stands at `at`, it is found there or before.
proof fn lemma_finds(hay: Seq<u8>, needle: Seq<u8>, from: int, at: int)
    requires
        0 <= from <= at,
        stands_at(hay, needle, at),
    ensures
        find_from(hay, needle, from) is Some,
        find_from(hay, needle, from)->0 <= at,
    decreases at - from,
{
    if from < at && !stands_at(hay, needle, from) {
        lemma_finds(hay, needle, from + 1, at);
    }
}

fn find_length(headers: &[u8], from: usize) -> (value: Option<Vec<u8>>)
    requires
        from <= headers@.len(),
    ensures
        answer_view(value) == length_header(headers@, from as int),
{
    let crlf = "\r\n".as_bytes();
    let len: usize = headers.len();
    let mut at: usize = from;
    proof {
        lemma_lit_lens();
    }
    loop
        invariant
            at <= headers@.len(),
            headers@.len() == len,
            crlf@ == lit("\r\n"@),
            crlf@.len() == 2,
            lit(":"@).len() == 1,
            length_header(headers@, from as int) == length_header(headers@, at as int),
        decreases headers@.len() + 1 - at,
    {
        let e = find(headers, crlf, at);
        let end: usize = match e {
            Some(end) => end,
            None => headers.len(),
        };
        let line = copy_range(headers, at, end);
        if let Some(colon) = find(&line, ":".as_bytes(), 0) {
            let name = copy_range(&line, 0, colon);
            assert(name@ =~= line@.take(colon as int));
            if eq_ignoring_case(&name, "content-length".as_bytes()) {
                let value = copy_range(&line, colon + 1, line.len());
                assert(value@ =~= line@.skip(colon + 1));
                return Some(value);
            }
        }
        match e {
            Some(end) => {
                at = end + 2;
            },
            None => {
                return None;
            },
        }
    }
}

pub proof fn lemma_lit_lens()
    ensures
        lit("\r\n"@).len() == 2,
        lit("\r\n\r\n"@).len() == 4,
        lit(":"@).len() == 1,
        lit("\r\n\r\n"@).subrange(0, 2) == lit("\r\n"@),
{
    reveal_strlit("\r\n");
    reveal_strlit("\r\n\r\n");
    reveal_strlit(":");
    vstd::utf8::is_ascii_chars_encode_utf8("\r\n"@);
    vstd::utf8::is_ascii_chars_encode_utf8("\r\n\r\n"@);
    vstd::utf8::is_ascii_chars_encode_utf8(":"@);
    assert(lit("\r\n\r\n"@).subrange(0, 2) =~= lit("\r\n"@));
}

/// Reads one complete request off the front of `buf`, with its length; nothing
/// while it is incomplete.
pub fn parse_http_request(buf: &[u8]) -> (r: Option<(HttpRequest, usize)>)
    ensures
        request_view(r) == http_request(buf@),
        r matches Some((_, consumed)) ==> consumed <= buf@.len(),
{
    if !is_utf8(buf) {
        return None;
    }
    let len: usize = buf.len();
    proof {
        lemma_lit_lens();
        lemma_found(buf@, lit("\r\n\r\n"@), 0);
    }
    let blank: usize = match find(buf, "\r\n\r\n".as_bytes(), 0) {
        Some(blank) => blank,
        None => {
            return None;
        },
    };
    let header_end: usize = blank + 4;
    let headers = copy_range(buf, 0, header_end);
    proof {
        assert(headers@ =~= buf@.take(header_end as int));
        assert(stands_at(headers@, lit("\r\n"@), blank as int)) by {
            assert(headers@.subrange(blank as int, blank + 2) =~= buf@.subrange(
                blank as int,
                blank + 4,
            ).subrange(0, 2));
        }
        lemma_finds(headers@, lit("\r\n"@), 0, blank as int);
    }
    let first: usize = match find(&headers, "\r\n".as_bytes(), 0) {
        Some(first) => first,
        None => {
            return None;
        },
    };
    let line = copy_range(&headers, 0, first);
    proof {
        lemma_found(headers@, lit("\r\n"@), 0);
    }
    assert(line@ =~= headers@.take(first as int));
    let length: u64 = match find_length(&headers, first + 2) {
        Some(value) => match parse_number(&trim(&value), usize::MAX as u64) {
            Some(n) => n,
            None => 0,
        },
        None => 0,
    };
    assert(length == announced(headers@, first + 2));
    let (method, path) = match first_two_words(&line) {
        Some(words) => words,
        None => {
            return None;
        },
    };
    if length > (buf.len() - header_end) as u64 {
        return None;
    }
    let n: usize = length as usize;
    let body = copy_range(buf, header_end, header_end + n);
    if !is_utf8(&body) {
        return None;
    }
    Some((HttpRequest { method, path, body }, header_end + n))
}

impl GatewayView {
    /// What becomes of an SSDP datagram.
    pub open spec fn ssdp(self, payload: Seq<u8>) -> (Option<Seq<u8>>, Self) {
        let counted = self.with_stats(
            GatewayStats { ssdp_requests: bumped(self.stats.ssdp_requests), ..self.stats },
        );
        let endpoint = SocketAddr { ip: self.lan_ip, port: UPNP_PORT };
        if self.config.upnp is Off || !vstd::utf8::valid_utf8(payload) || !stands_at(
            payload,
            lit("M-SEARCH"@),
            0,
        ) {
            (None, counted)
        } else if self.config.upnp is Malformed {
            (Some(ssdp_junk()), counted)
        } else {
            (Some(ssdp_answer(endpoint)), counted)
        }
    }

    /// What becomes of a datagram to `dst`.
    pub open spec fn udp(
        self,
        now: u64,
        src: SocketAddr,
        dst: SocketAddr,
        payload: Seq<u8>,
        st: NatView,
        firewall: Option<FirewallView>,
    ) -> Outcome {
        let silent = Outcome { answer: None, gateway: self, nat_box: st, firewall };
        if dst.port == PCP_PORT && payload.len() > 0 && payload[0] == PCP_VERSION {
            self.pcp(now, src, payload, st, firewall)
        } else if dst.port == PCP_PORT && payload.len() > 0 && payload[0] == NATPMP_VERSION {
            Outcome { firewall, ..self.natpmp(now, src, payload, st) }
        } else if dst.port == UPNP_PORT {
            let (answer, gateway) = self.ssdp(payload);
            Outcome { answer, gateway, ..silent }
        } else {
            silent
        }
    }

    /// What becomes of a request to add a port mapping.
    pub open spec fn add_mapping(self, now: u64, body: Seq<u8>, st: NatView) -> Outcome {
        let silent = Outcome { answer: None, gateway: self, nat_box: st, firewall: None };
        let refused = Outcome {
            answer: Some(soap_error(718, "ConflictInMappingEntry"@)),
            gateway: self.with_stats(self.stats.denied()),
            ..silent
        };
        let done = Outcome {
            answer: Some(http_ok(soap_body("AddPortMappingResponse"@, Seq::empty()))),
            gateway: self.with_stats(self.stats.granted()),
            ..silent
        };
        let external = xml_number(body, "NewExternalPort"@, 0xffff);
        let internal_port = xml_number(body, "NewInternalPort"@, 0xffff);
        let client = xml_ip(body, "NewInternalClient"@);
        let secs = xml_number(body, "NewLeaseDuration"@, 0xffff_ffff);
        if self.config.upnp is Deny {
            refused
        } else if external is None || internal_port is None || client is None {
            Outcome { answer: Some(soap_error(402, "Invalid Args"@)), ..silent }
        } else if self.config.upnp is Grant {
            let lease = if secs is None || secs->0 == 0 {
                self.config.lease
            } else {
                self.granted_lease(secs->0)
            };
            let internal = SocketAddr { ip: client->0, port: internal_port->0 as u16 };
            let wanted = external->0 as u16;
            let (assigned, after) = st.leased(now, internal, wanted, lease);
            if assigned == Some(wanted) {
                Outcome { nat_box: after, ..done }
            } else {
                Outcome {
                    nat_box: match assigned {
                        Some(port) => NatView { statics: after.statics.remove(port), ..after },
                        None => after,
                    },
                    ..refused
                }
            }
        } else {
            done
        }
    }

    /// The answer to an HTTP request.
    pub open spec fn http(self, now: u64, request: HttpView, st: NatView) -> Outcome {
        let silent = Outcome { answer: None, gateway: self, nat_box: st, firewall: None };
        if self.config.upnp is Malformed {
            Outcome { answer: Some(http_junk()), ..silent }
        } else if request.method == lit("GET"@) && request.path == lit("/rootDesc.xml"@) {
            Outcome { answer: Some(http_ok(device_description())), ..silent }
        } else if request.method == lit("POST"@) && request.path == lit("/ctl/IPConn"@) {
            if find_from(request.body, lit("GetExternalIPAddress"@), 0) is Some {
                let field = lit("<NewExternalIPAddress>"@) + ip_text(st.external_ip) + lit(
                    "</NewExternalIPAddress>"@,
                );
                Outcome {
                    answer: Some(http_ok(soap_body("GetExternalIPAddressResponse"@, field))),
                    ..silent
                }
            } else if find_from(request.body, lit("AddPortMapping"@), 0) is Some {
                self.add_mapping(now, request.body, st)
            } else {
                Outcome { answer: Some(soap_error(401, "Invalid Action"@)), ..silent }
            }
        } else {
            Outcome { answer: Some(http_missing()), ..silent }
        }
    }

    /// What becomes of bytes on an HTTP connection.
    pub open spec fn received(self, now: u64, conn: u64, bytes: Seq<u8>, st: NatView) -> Outcome {
        let silent = Outcome { answer: None, gateway: self, nat_box: st, firewall: None };
        let buf = self.bufs[conn] + bytes;
        if !self.bufs.dom().contains(conn) {
            silent
        } else if buf.len() > MAX_HTTP_REQUEST {
            Outcome {
                gateway: GatewayView { bufs: self.bufs.remove(conn), ..self },
                ..silent
            }
        } else {
            match http_request(buf) {
                None => Outcome {
                    gateway: GatewayView { bufs: self.bufs.insert(conn, buf), ..self },
                    ..silent
                },
                Some((request, consumed)) => (GatewayView {
                    bufs: self.bufs.insert(conn, buf.skip(consumed)),
                    stats: GatewayStats {
                        http_requests: bumped(self.stats.http_requests),
                        ..self.stats
                    },
                    ..self
                }).http(now, request, st),
            }
        }
    }
}

pub open spec fn http_junk() -> Seq<u8> {
    lit("HTTP"@) + seq![0u8] + lit("/1.1 garbage\r\n\r\n<not-xml"@)
}

pub open spec fn http_missing() -> Seq<u8> {
    lit("HTTP/1.1 404 Not Found\r\nCONTENT-LENGTH: 0\r\n\r\n"@)
}

/// What a UDP answer looks like to the host: from where, and what.
pub open spec fn sent_from(answer: Option<Seq<u8>>, from: SocketAddr) -> Seq<(SocketAddr, Seq<u8>)> {
    match answer {
        Some(bytes) => seq![(from, bytes)],
        None => Seq::empty(),
    }
}

/// What an HTTP answer looks like to the host.
pub open spec fn chunks_of(answer: Option<Seq<u8>>) -> Seq<Seq<u8>> {
    match answer {
        Some(bytes) => seq![bytes],
        None => Seq::empty(),
    }
}

impl Gateway {
    fn handle_natpmp(&mut self, now: u64, src: SocketAddr, payload: &[u8], nat_box: &mut NatBox) -> (
    answer: Option<Vec<u8>>)
        requires
            old(self).wf(),
            old(nat_box).wf(),
        ensures
            final(self).wf(),
            final(nat_box).wf(),
            ({
                let want = old(self)@.natpmp(now, src, payload@, old(nat_box)@);
                &&& answer_view(answer) == want.answer
                &&& final(self)@ == want.gateway
                &&& final(nat_box)@ == want.nat_box
            }),
    {
        self.stats.natpmp_requests = bump(self.stats.natpmp_requests);
        let mode = self.config.natpmp;
        if mode == TierMode::Off {
            return None;
        }
        if mode == TierMode::Malformed {
            return Some(garbage(NATPMP_VERSION));
        }
        if payload.len() == 2 && payload[1] == NATPMP_OP_EXTERNAL {
            let mut ip: u32 = 0;
            let mut result: u16 = NATPMP_RESULT_SUCCESS;
            if mode == TierMode::Deny {
                self.stats.denials = bump(self.stats.denials);
                result = NATPMP_RESULT_REFUSED;
            } else if let IpAddr::V4(external) = nat_box.external_ip() {
                ip = external;
            }
            let mut resp: Vec<u8> = vec![NATPMP_VERSION, 128];
            put_be(&mut resp, result as u128, 2);
            put_be(&mut resp, epoch(now) as u128, 4);
            put_be(&mut resp, ip as u128, 4);
            assert(resp@ =~= natpmp_external(result, now, ip));
            return Some(resp);
        }
        if payload.len() == 12 && payload[1] == NATPMP_OP_MAP_UDP {
            let internal_port: u16 = get_field(payload, 4, 2) as u16;
            let suggested: u16 = get_field(payload, 6, 2) as u16;
            let requested: u32 = get_field(payload, 8, 4);
            let lease = self.granted_lease(requested);
            let mut result: u16 = NATPMP_RESULT_REFUSED;
            let mut mapped: u16 = 0;
            let mut secs: u64 = 0;
            match mode {
                TierMode::Deny => {
                    self.stats.denials = bump(self.stats.denials);
                },
                TierMode::Grant => {
                    let internal = SocketAddr::new(src.ip(), internal_port);
                    match nat_box.install_static(now, internal, suggested, lease) {
                        Some(port) => {
                            self.stats.grants = bump(self.stats.grants);
                            result = NATPMP_RESULT_SUCCESS;
                            mapped = port;
                            secs = lease.as_secs();
                        },
                        None => {
                            self.stats.denials = bump(self.stats.denials);
                        },
                    }
                },
                _ => {
                    self.stats.grants = bump(self.stats.grants);
                    result = NATPMP_RESULT_SUCCESS;
                    mapped = if suggested != 0 {
                        suggested
                    } else {
                        internal_port
                    };
                    secs = lease.as_secs();
                },
            }
            let mut resp: Vec<u8> = vec![NATPMP_VERSION, 129];
            put_be(&mut resp, result as u128, 2);
            put_be(&mut resp, epoch(now) as u128, 4);
            put_be(&mut resp, internal_port as u128, 2);
            put_be(&mut resp, mapped as u128, 2);
            put_be(&mut resp, secs as u128, 4);
            assert(resp@ =~= natpmp_mapped(result, now, internal_port, mapped, secs as nat));
            return Some(resp);
        }
        None
    }

    fn handle_ssdp(&mut self, payload: &[u8]) -> (answer: Option<Vec<u8>>)
        requires
            old(self).wf(),
        ensures
            final(self).wf(),
            (answer_view(answer), final(self)@) == old(self)@.ssdp(payload@),
    {
        self.stats.ssdp_requests = bump(self.stats.ssdp_requests);
        if self.config.upnp == TierMode::Off {
            return None;
        }
        if !is_utf8(payload) || !text_at(payload, "M-SEARCH".as_bytes(), 0) {
            return None;
        }
        let mut resp: Vec<u8> = Vec::new();
        if self.config.upnp == TierMode::Malformed {
            put_text(&mut resp, "HTTP/1.1 200 OK\r\nLOCATION:");
            resp.push(0);
            resp.push(0xff);
            resp.push(0xfe);
            put_text(&mut resp, "\r\n");
            assert(resp@ =~= ssdp_junk());
            return Some(resp);
        }
        put_text(&mut resp, "HTTP/1.1 200 OK\r\nCACHE-CONTROL: max-age=120\r\n");
        put_text(&mut resp, "ST: urn:schemas-upnp-org:device:InternetGatewayDevice:1\r\n");
        put_text(
            &mut resp,
            "USN: uuid:sim-gateway::urn:schemas-upnp-org:device:InternetGatewayDevice:1\r\n",
        );
        put_text(&mut resp, "LOCATION: http://");
        put_socket(&mut resp, self.http_endpoint());
        put_text(&mut resp, "/rootDesc.xml\r\n\r\n");
        assert(resp@ =~= ssdp_answer(SocketAddr { ip: self@.lan_ip, port: UPNP_PORT }));
        Some(resp)
    }

    /// Handles a datagram from host `src` to `dst`. Gives the answers, each
    /// with the address that it comes from.
    pub fn handle_udp(
        &mut self,
        now: u64,
        src: SocketAddr,
        dst: SocketAddr,
        payload: &[u8],
        nat_box: &mut NatBox,
        firewall: Option<&mut FirewallBox>,
    ) -> (answers: Vec<(SocketAddr, Vec<u8>)>)
        requires
            old(self).wf(),
            old(nat_box).wf(),
            firewall matches Some(f) ==> f.wf(),
        ensures
            final(self).wf(),
            final(nat_box).wf(),
            ({
                let before = match firewall {
                    Some(f) => Some(f@),
                    None => None,
                };
                let want = old(self)@.udp(now, src, dst, payload@, old(nat_box)@, before);
                let port = if dst.port == UPNP_PORT {
                    UPNP_PORT
                } else {
                    PCP_PORT
                };
                &&& addressed(answers@) == sent_from(
                    want.answer,
                    SocketAddr { ip: old(self)@.lan_ip, port },
                )
                &&& final(self)@ == want.gateway
                &&& final(nat_box)@ == want.nat_box
                &&& match firewall {
                    Some(f) => final(f).wf() && want.firewall == Some(final(f)@),
                    None => true,
                }
            }),
    {
        let ghost start = *self;
        let mut answers: Vec<(SocketAddr, Vec<u8>)> = Vec::new();
        let from = if dst.port() == UPNP_PORT {
            self.http_endpoint()
        } else {
            self.udp_endpoint()
        };
        let answer: Option<Vec<u8>> = if dst.port() == PCP_PORT && payload.len() > 0 && payload[0]
            == PCP_VERSION {
            self.handle_pcp(now, src, payload, nat_box, firewall)
        } else if dst.port() == PCP_PORT && payload.len() > 0 && payload[0] == NATPMP_VERSION {
            self.handle_natpmp(now, src, payload, nat_box)
        } else if dst.port() == UPNP_PORT {
            self.handle_ssdp(payload)
        } else {
            None
        };
        let ghost said = answer_view(answer);
        if let Some(bytes) = answer {
            answers.push((from, bytes));
        }
        assert(addressed(answers@) =~= sent_from(said, from));
        answers
    }

    /// A host opens a connection to `to`. Only the HTTP endpoint of a UPnP
    /// that is there takes it, and only so many at once.
    pub fn tcp_open(&mut self, conn: u64, to: SocketAddr) -> (ok: bool)
        requires
            old(self).wf(),
        ensures
            final(self).wf(),
            ok == (!(old(self)@.config.upnp is Off) && to == (SocketAddr {
                ip: old(self)@.lan_ip,
                port: UPNP_PORT,
            }) && old(self).conns() < MAX_TCP_CONNS),
            final(self)@ == (GatewayView {
                bufs: if ok {
                    old(self)@.bufs.insert(conn, Seq::empty())
                } else {
                    old(self)@.bufs
                },
                ..old(self)@
            }),
    {
        let ghost before = *self;
        if self.config.upnp == TierMode::Off || to != self.http_endpoint() {
            return false;
        }
        assert(self@.bufs.dom() =~= self.tcp_bufs@.dom());
        if self.tcp_bufs.len() >= MAX_TCP_CONNS {
            return false;
        }
        self.tcp_bufs.insert(conn, Vec::new());
        assert(self@.bufs =~= before@.bufs.insert(conn, Seq::empty()));
        true
    }

    /// How many connections are open.
    pub open spec fn conns(&self) -> nat {
        self@.bufs.dom().len()
    }

    pub fn tcp_closed(&mut self, conn: u64)
        requires
            old(self).wf(),
        ensures
            final(self).wf(),
            final(self)@ == (GatewayView { bufs: old(self)@.bufs.remove(conn), ..old(self)@ }),
    {
        let ghost before = *self;
        self.tcp_bufs.remove(&conn);
        assert(self@.bufs =~= before@.bufs.remove(conn));
    }

    /// Bytes arrived on a connection. Gives the answer once a complete request
    /// has.
    pub fn tcp_bytes(&mut self, now: u64, conn: u64, bytes: &[u8], nat_box: &mut NatBox) -> (chunks:
        Vec<Vec<u8>>)
        requires
            old(self).wf(),
            old(nat_box).wf(),
        ensures
            final(self).wf(),
            final(nat_box).wf(),
            ({
                let want = old(self)@.received(now, conn, bytes@, old(nat_box)@);
                &&& bytes_views(chunks@) == chunks_of(want.answer)
                &&& final(self)@ == want.gateway
                &&& final(nat_box)@ == want.nat_box
            }),
    {
        let ghost before = *self;
        let mut chunks: Vec<Vec<u8>> = Vec::new();
        let mut buf: Vec<u8> = match self.tcp_bufs.get(&conn) {
            Some(buf) => copy_range(buf, 0, buf.len()),
            None => {
                assert(bytes_views(chunks@) =~= Seq::<Seq<u8>>::empty());
                return chunks;
            },
        };
        assert(buf@ =~= before@.bufs[conn]);
        put_bytes(&mut buf, bytes);
        if buf.len() > MAX_HTTP_REQUEST {
            self.tcp_bufs.remove(&conn);
            proof {
                assert(self@.bufs =~= before@.bufs.remove(conn));
                assert(bytes_views(chunks@) =~= Seq::<Seq<u8>>::empty());
            }
            return chunks;
        }
        match parse_http_request(&buf) {
            None => {
                let ghost whole = buf@;
                self.tcp_bufs.insert(conn, buf);
                proof {
                    assert(self@.bufs =~= before@.bufs.insert(conn, whole));
                    assert(bytes_views(chunks@) =~= Seq::<Seq<u8>>::empty());
                }
                chunks
            },
            Some((request, consumed)) => {
                let rest = copy_range(&buf, consumed, buf.len());
                let ghost left = rest@;
                assert(left =~= buf@.skip(consumed as int));
                self.tcp_bufs.insert(conn, rest);
                self.stats.http_requests = bump(self.stats.http_requests);
                assert(self@.bufs =~= before@.bufs.insert(conn, left));
                let ghost mid = *self;
                assert(mid@ =~= GatewayView {
                    bufs: before@.bufs.insert(conn, left),
                    stats: mid@.stats,
                    ..before@
                });
                let answer = self.dispatch_http(now, &request, nat_box);
                let ghost said = answer@;
                chunks.push(answer);
                assert(bytes_views(chunks@) =~= seq![said]);
                chunks
            },
        }
    }

    fn dispatch_http(&mut self, now: u64, request: &HttpRequest, nat_box: &mut NatBox) -> (answer:
        Vec<u8>)
        requires
            old(self).wf(),
            old(nat_box).wf(),
        ensures
            final(self).wf(),
            final(nat_box).wf(),
            ({
                let want = old(self)@.http(now, request.view(), old(nat_box)@);
                &&& want.answer == Some(answer@)
                &&& final(self)@ == want.gateway
                &&& final(nat_box)@ == want.nat_box
            }),
    {
        let mut answer: Vec<u8> = Vec::new();
        if self.config.upnp == TierMode::Malformed {
            put_text(&mut answer, "HTTP");
            answer.push(0);
            put_text(&mut answer, "/1.1 garbage\r\n\r\n<not-xml");
            assert(answer@ =~= http_junk());
            return answer;
        }
        if bytes_eq(&request.method, "GET".as_bytes()) && bytes_eq(
            &request.path,
            "/rootDesc.xml".as_bytes(),
        ) {
            let description = make_device_description();
            return make_http_ok(&description);
        }
        if bytes_eq(&request.method, "POST".as_bytes()) && bytes_eq(
            &request.path,
            "/ctl/IPConn".as_bytes(),
        ) {
            if find(&request.body, "GetExternalIPAddress".as_bytes(), 0).is_some() {
                let mut fields: Vec<u8> = Vec::new();
                put_text(&mut fields, "<NewExternalIPAddress>");
                put_ip(&mut fields, nat_box.external_ip());
                put_text(&mut fields, "</NewExternalIPAddress>");
                assert(fields@ =~= lit("<NewExternalIPAddress>"@) + ip_text(nat_box@.external_ip)
                    + lit("</NewExternalIPAddress>"@));
                let body = make_soap_body("GetExternalIPAddressResponse", &fields);
                return make_http_ok(&body);
            }
            if find(&request.body, "AddPortMapping".as_bytes(), 0).is_some() {
                return self.add_port_mapping(now, &request.body, nat_box);
            }
            return make_soap_error(401, "Invalid Action");
        }
        put_text(&mut answer, "HTTP/1.1 404 Not Found\r\nCONTENT-LENGTH: 0\r\n\r\n");
        assert(answer@ =~= http_missing());
        answer
    }

    fn add_port_mapping(&mut self, now: u64, body: &Vec<u8>, nat_box: &mut NatBox) -> (answer: Vec<
        u8,
    >)
        requires
            old(self).wf(),
            old(nat_box).wf(),
        ensures
            final(self).wf(),
            final(nat_box).wf(),
            ({
                let want = old(self)@.add_mapping(now, body@, old(nat_box)@);
                &&& want.answer == Some(answer@)
                &&& final(self)@ == want.gateway
                &&& final(nat_box)@ == want.nat_box
            }),
    {
        if self.config.upnp == TierMode::Deny {
            self.stats.denials = bump(self.stats.denials);
            return make_soap_error(718, "ConflictInMappingEntry");
        }
        let external = xml_parse(body, "NewExternalPort", 0xffff);
        let internal_port = xml_parse(body, "NewInternalPort", 0xffff);
        let client = xml_parse_ip(body, "NewInternalClient");
        let lease_secs: u64 = match xml_parse(body, "NewLeaseDuration", 0xffff_ffff) {
            Some(secs) => secs,
            None => 0,
        };
        let (external, internal_port, client) = match (external, internal_port, client) {
            (Some(external), Some(internal_port), Some(client)) => (
                external as u16,
                internal_port as u16,
                client,
            ),
            _ => {
                return make_soap_error(402, "Invalid Args");
            },
        };
        let lease = if lease_secs == 0 {
            self.config.lease
        } else {
            self.granted_lease(lease_secs as u32)
        };
        if self.config.upnp == TierMode::Grant {
            let internal = SocketAddr::new(client, internal_port);
            let ghost st = nat_box@;
            let assigned = nat_box.install_static(now, internal, external, lease);
            let ghost after = nat_box@;
            let mut granted = false;
            if let Some(port) = assigned {
                if port == external {
                    granted = true;
                } else {
                    nat_box.remove_static(internal, port);
                    assert(after.statics.dom().contains(port) && after.statics[port].internal
                        == internal);
                }
            }
            if !granted {
                self.stats.denials = bump(self.stats.denials);
                return make_soap_error(718, "ConflictInMappingEntry");
            }
        }
        self.stats.grants = bump(self.stats.grants);
        let none: Vec<u8> = Vec::new();
        assert(none@ =~= Seq::<u8>::empty());
        let body = make_soap_body("AddPortMappingResponse", &none);
        make_http_ok(&body)
    }
}

/// A gateway that refuses, lies or is not there opens nothing: the NAT box and
/// the firewall stay as they are, whatever it is sent.
pub proof fn law_only_grants_install(
    gateway: GatewayView,
    now: u64,
    src: SocketAddr,
    dst: SocketAddr,
    payload: Seq<u8>,
    st: NatView,
    firewall: Option<FirewallView>,
)
    requires
        !(gateway.config.pcp is Grant),
        !(gateway.config.natpmp is Grant),
        !(gateway.config.pcp_v6_pinhole matches Some(mode) && mode is Grant),
    ensures
        gateway.udp(now, src, dst, payload, st, firewall).nat_box == st,
        gateway.udp(now, src, dst, payload, st, firewall).firewall == firewall,
{
}

/// A protocol that is off stays silent, and changes nothing but its counter.
pub proof fn law_absent_is_silent(
    gateway: GatewayView,
    now: u64,
    src: SocketAddr,
    dst: SocketAddr,
    payload: Seq<u8>,
    st: NatView,
    firewall: Option<FirewallView>,
)
    requires
        gateway.config.pcp is Off,
        gateway.config.natpmp is Off,
        gateway.config.upnp is Off,
        gateway.config.pcp_v6_pinhole is None,
    ensures
        gateway.udp(now, src, dst, payload, st, firewall).answer is None,
{
}

/// A lease is never longer than was asked for, nor than the gateway gives.
pub proof fn law_lease_is_clamped(gateway: GatewayView, secs: nat)
    requires
        secs <= 0xffff_ffff,
    ensures
        gateway.granted_lease(secs).nanos <= gateway.config.lease.nanos,
        gateway.granted_lease(secs).nanos <= secs * NANOS_PER_SEC,
{
}

/// A mapped address field gives back the address that was put in, unless it
/// is an IPv6 address of the range that IPv4 is mapped to.
pub proof fn law_ip_field_roundtrip(ip: IpAddr)
    requires
        ip matches IpAddr::V6(n) ==> n / 0x1_0000_0000 != 0xffff,
    ensures
        ip_in_16(ip_as_16(ip)) == ip,
{
}

/// Bytes on the wire that are no complete request, however they come, install
/// nothing.
pub proof fn law_incomplete_request_waits(
    gateway: GatewayView,
    now: u64,
    conn: u64,
    bytes: Seq<u8>,
    st: NatView,
)
    requires
        gateway.bufs.dom().contains(conn) ==> http_request(gateway.bufs[conn] + bytes) is None,
    ensures
        gateway.received(now, conn, bytes, st).answer is None,
        gateway.received(now, conn, bytes, st).nat_box == st,
{
}

/// What is found in a text is found in every text that agrees with it that
/// far.
proof fn lemma_find_agrees(a: Seq<u8>, b: Seq<u8>, needle: Seq<u8>, from: int, at: int)
    requires
        0 <= from,
        find_from(a, needle, from) == Some(at),
        at + needle.len() <= a.len(),
        at + needle.len() <= b.len(),
        a.take(at + needle.len()) == b.take(at + needle.len()),
    ensures
        find_from(b, needle, from) == Some(at),
    decreases a.len() + 1 - from,
{
    lemma_found(a, needle, from);
    let n = needle.len() as int;
    assert(a.subrange(from, from + n) =~= a.take(at + n).subrange(from, from + n));
    assert(b.subrange(from, from + n) =~= b.take(at + n).subrange(from, from + n));
    if !stands_at(a, needle, from) {
        lemma_find_agrees(a, b, needle, from + 1, at);
    }
}

/// What is found in a text is not found in a part of it that ends before it.
proof fn lemma_find_cut(a: Seq<u8>, k: int, needle: Seq<u8>, from: int, at: int)
    requires
        0 <= from,
        0 <= k <= a.len(),
        k < at + needle.len(),
        find_from(a, needle, from) == Some(at),
    ensures
        find_from(a.take(k), needle, from) is None,
    decreases k + 1 - from,
{
    let n = needle.len() as int;
    if from + n <= k {
        lemma_found(a, needle, from);
        assert(a.take(k).subrange(from, from + n) =~= a.subrange(from, from + n));
        lemma_find_cut(a, k, needle, from + 1, at);
    }
}

/// The head of a request is text by itself.
proof fn lemma_head_is_text(buf: Seq<u8>, blank: int)
    requires
        vstd::utf8::valid_utf8(buf),
        stands_at(buf, lit("\r\n\r\n"@), blank),
    ensures
        vstd::utf8::valid_utf8(buf.take(blank + 4)),
{
    lemma_lit_lens();
    reveal_strlit("\r\n\r\n");
    reveal_strlit("\n");
    vstd::utf8::is_ascii_chars_encode_utf8("\r\n\r\n"@);
    vstd::utf8::is_ascii_chars_encode_utf8("\n"@);
    vstd::utf8::encode_utf8_valid_utf8("\n"@);
    let end = blank + 3;
    assert(buf.subrange(blank, blank + 4)[3] == buf[end]);
    assert("\r\n\r\n"@[3] == '\n');
    assert(lit("\r\n\r\n"@)[3] == '\n' as u8);
    assert(buf[end] == 10);
    assert(!vstd::utf8::is_continuation_byte(10u8)) by (bit_vector);
    vstd::utf8::is_char_boundary_iff_not_is_continuation_byte(buf, end);
    vstd::utf8::valid_utf8_split(buf, end);
    vstd::utf8::valid_utf8_concat(buf.subrange(0, end), lit("\n"@));
    assert("\n"@[0] == '\n');
    assert(lit("\n"@)[0] == 10);
    assert(buf.take(blank + 4) =~= buf.subrange(0, end) + lit("\n"@));
}

/// Exactly one request is taken off the front of what has arrived, and never
/// before it is complete: what is read is a part that reads the same by itself
/// and with any text after it, and no shorter part reads as a request.
pub proof fn law_request_is_a_prefix(buf: Seq<u8>, more: Seq<u8>, k: int)
    requires
        http_request(buf) is Some,
        vstd::utf8::valid_utf8(more),
    ensures
        ({
            let n = (http_request(buf)->0).1;
            &&& 0 <= n <= buf.len()
            &&& http_request(buf.take(n)) == http_request(buf)
            &&& http_request(buf + more) == http_request(buf)
            &&& 0 <= k < n ==> http_request(buf.take(k)) is None
        }),
{
    let (request, n) = http_request(buf)->0;
    let mark = lit("\r\n\r\n"@);
    let blank = find_from(buf, mark, 0)->0;
    let head = blank + 4;
    lemma_lit_lens();
    lemma_found(buf, mark, 0);
    lemma_head_is_text(buf, blank);
    let body = buf.subrange(head, n);
    let part = buf.take(n);
    vstd::utf8::valid_utf8_concat(buf.take(head), body);
    assert(part =~= buf.take(head) + body);
    assert(part.take(head) =~= buf.take(head));
    lemma_find_agrees(buf, part, mark, 0, blank);
    assert(part.subrange(head, n) =~= body);
    let whole = buf + more;
    vstd::utf8::valid_utf8_concat(buf, more);
    assert(whole.take(head) =~= buf.take(head));
    lemma_find_agrees(buf, whole, mark, 0, blank);
    assert(whole.subrange(head, n) =~= body);
    if 0 <= k < n {
        let cut = buf.take(k);
        if k < head {
            lemma_find_cut(buf, k, mark, 0, blank);
        } else {
            assert(cut.take(head) =~= buf.take(head));
            lemma_find_agrees(buf, cut, mark, 0, blank);
        }
    }
}

} // verus!
