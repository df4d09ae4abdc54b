//! Answering the repair requests of others.

use vstd::prelude::*;
use crate::addr::SocketAddr;
use crate::codec::{
    copy_range, from_le, get_le, le_bytes, lemma_byte_spans, lemma_from_le_bound, lemma_le_len,
    lemma_le_roundtrip, put_bytes, put_le,
};
use crate::layout::{field, get_index, OFFSET_OF_INDEX};
use crate::ordmap::OrdMap;
use crate::pubkey::Pubkey;
use crate::repair::peer_manager::RepairRequestHeader;
use crate::time::{bump, bumped, sat_u64, NANOS_PER_SEC};
use crate::types::PACKET_DATA_SIZE;

verus! {

pub const MAX_REQUESTS_PER_SECOND: u32 = 100;

pub const RATE_LIMIT_WINDOW_SECS: u64 = 1;

pub const STATS_REPORT_INTERVAL_SECS: u64 = 10;

/// How often idle peers are forgotten.
pub const CLEANUP_INTERVAL_SECS: u64 = 60;

/// How long a peer may be idle before it is forgotten.
pub const RATE_LIMIT_IDLE_SECS: u64 = 30;

/// How far a request's clock may be off, in milliseconds.
pub const MAX_CLOCK_SKEW_MS: u64 = 600_000;

/// The size of the nonce that a response ends with.
pub const SIZE_OF_NONCE: usize = 4;

/// Whole seconds from `start` to `now`, both in nanoseconds.
pub open spec fn secs_since(start: u64, now: u64) -> int {
    if now >= start {
        (now - start) / NANOS_PER_SEC as int
    } else {
        0
    }
}

fn elapsed_secs(start: u64, now: u64) -> (secs: u64)
    ensures
        secs == secs_since(start, now),
{
    now.saturating_sub(start) / NANOS_PER_SEC
}

/// What a peer may send: so many requests in each window.
#[derive(Clone, Copy, Debug, PartialEq, Eq, Structural)]
pub struct PeerRateLimit {
    pub count: u32,
    pub window_start: u64,
}

impl PeerRateLimit {
    pub open spec fn wf(self) -> bool {
        self.count <= MAX_REQUESTS_PER_SECOND
    }

    /// The limit after a request at `now`, and whether it is let through.
    pub open spec fn checked(self, now: u64) -> (bool, Self) {
        let here = if secs_since(self.window_start, now) >= RATE_LIMIT_WINDOW_SECS {
            PeerRateLimit { count: 0, window_start: now }
        } else {
            self
        };
        if here.count >= MAX_REQUESTS_PER_SECOND {
            (false, here)
        } else {
            (true, PeerRateLimit { count: (here.count + 1) as u32, ..here })
        }
    }

    pub fn new(now: u64) -> (limit: Self)
        ensures
            limit.wf(),
            limit == (PeerRateLimit { count: 0, window_start: now }),
    {
        PeerRateLimit { count: 0, window_start: now }
    }

    pub fn check_and_increment(&mut self, now: u64) -> (r: bool)
        ensures
            (r, *final(self)) == old(self).checked(now),
            old(self).wf() ==> final(self).wf(),
    {
        if elapsed_secs(self.window_start, now) >= RATE_LIMIT_WINDOW_SECS {
            self.count = 0;
            self.window_start = now;
        }
        if self.count >= MAX_REQUESTS_PER_SECOND {
            return false;
        }
        self.count += 1;
        true
    }
}

/// How many of the requests at `times` are let through, and the limit after
/// them.
pub open spec fn let_through(limit: PeerRateLimit, times: Seq<u64>) -> (nat, PeerRateLimit)
    decreases times.len(),
{
    if times.len() == 0 {
        (0, limit)
    } else {
        let (n, mid) = let_through(limit, times.drop_last());
        let (ok, after) = mid.checked(times.last());
        (
            if ok {
                n + 1
            } else {
                n
            },
            after,
        )
    }
}

/// Of the requests within one window, the first hundred are let through and no
/// more.
pub proof fn law_rate_limit(start: u64, times: Seq<u64>)
    requires
        forall|i: int|
            0 <= i < times.len() ==> start <= #[trigger] times[i] && times[i] - start
                < NANOS_PER_SEC,
    ensures
        ({
            let (n, after) = let_through(PeerRateLimit { count: 0, window_start: start }, times);
            &&& n == (if times.len() < MAX_REQUESTS_PER_SECOND {
                times.len()
            } else {
                MAX_REQUESTS_PER_SECOND as nat
            })
            &&& after == (PeerRateLimit { count: n as u32, window_start: start })
        }),
    decreases times.len(),
{
    if times.len() > 0 {
        assert forall|i: int| 0 <= i < times.drop_last().len() implies start
            <= #[trigger] times.drop_last()[i] && times.drop_last()[i] - start < NANOS_PER_SEC by {
            assert(times.drop_last()[i] == times[i]);
        }
        law_rate_limit(start, times.drop_last());
        let t = times[times.len() - 1];
        assert(times.last() == t);
        assert(secs_since(start, t) == 0);
    }
}

#[derive(Clone, Copy, Debug, PartialEq, Eq, Structural)]
pub struct ServeRepairStats {
    // by request type
    pub window_index: u64,
    pub highest_window_index: u64,
    pub orphan: u64,
    pub ancestor_hashes: u64,
    pub pong: u64,
    pub legacy: u64,
    // outcomes
    pub served: u64,
    pub rate_limited: u64,
    // drop reasons
    pub drop_deserialize: u64,
    pub drop_header_invalid: u64,
    pub drop_not_found: u64,
    pub drop_store_error: u64,
    pub drop_oversized: u64,
    pub drop_unsupported: u64,
}

impl ServeRepairStats {
    pub open spec fn zero() -> Self {
        ServeRepairStats {
            window_index: 0,
            highest_window_index: 0,
            orphan: 0,
            ancestor_hashes: 0,
            pong: 0,
            legacy: 0,
            served: 0,
            rate_limited: 0,
            drop_deserialize: 0,
            drop_header_invalid: 0,
            drop_not_found: 0,
            drop_store_error: 0,
            drop_oversized: 0,
            drop_unsupported: 0,
        }
    }

    /// Every dropped request, for whatever reason.
    pub open spec fn dropped(self) -> u64 {
        sat_u64(
            self.drop_deserialize + self.drop_header_invalid + self.drop_not_found
                + self.drop_store_error + self.drop_oversized + self.drop_unsupported,
        )
    }

    pub fn total_dropped(&self) -> (n: u64)
        ensures
            n == self.dropped(),
    {
        let sum: u128 = self.drop_deserialize as u128 + self.drop_header_invalid as u128
            + self.drop_not_found as u128 + self.drop_store_error as u128
            + self.drop_oversized as u128 + self.drop_unsupported as u128;
        if sum > u64::MAX as u128 {
            u64::MAX
        } else {
            sum as u64
        }
    }
}

impl Default for ServeRepairStats {
    fn default() -> (stats: Self)
        ensures
            stats == ServeRepairStats::zero(),
    {
        ServeRepairStats {
            window_index: 0,
            highest_window_index: 0,
            orphan: 0,
            ancestor_hashes: 0,
            pong: 0,
            legacy: 0,
            served: 0,
            rate_limited: 0,
            drop_deserialize: 0,
            drop_header_invalid: 0,
            drop_not_found: 0,
            drop_store_error: 0,
            drop_oversized: 0,
            drop_unsupported: 0,
        }
    }
}

/// A repair request, as far as it is acted on.
#[derive(Clone, Copy, Debug, PartialEq, Eq, Structural)]
pub enum RepairProtocol {
    Legacy,
    Pong,
    WindowIndex { header: RepairRequestHeader, slot: u64, shred_index: u64 },
    HighestWindowIndex { header: RepairRequestHeader, slot: u64, shred_index: u64 },
    Orphan { header: RepairRequestHeader, slot: u64 },
    AncestorHashes { header: RepairRequestHeader, slot: u64 },
}

/// How many bytes a request's header has: a signature, two keys, a time and a
/// nonce.
pub const SIZE_OF_HEADER: usize = 140;

/// The header that begins at the fifth byte of a packet.
pub open spec fn header_of(packet: Seq<u8>) -> RepairRequestHeader {
    RepairRequestHeader {
        sender: Pubkey::of_bytes(packet.subrange(68, 100)),
        recipient: Pubkey::of_bytes(packet.subrange(100, 132)),
        timestamp: from_le(packet.subrange(132, 140)) as u64,
        nonce: from_le(packet.subrange(140, 144)) as u32,
    }
}

/// The request that a packet holds, if it holds one and nothing else. Numbers
/// are in little-endian order, and the first four bytes tell the kind. A legacy
/// request has no more than that; a pong has a key, a digest and a signature.
pub open spec fn request_of(packet: Seq<u8>) -> Option<RepairProtocol> {
    let kind = from_le(packet.subrange(0, 4));
    let len = packet.len();
    let slot = from_le(packet.subrange(144, 152)) as u64;
    let shred_index = from_le(packet.subrange(152, 160)) as u64;
    let header = header_of(packet);
    if len < 4 {
        None
    } else if kind <= 6 && len == 4 {
        Some(RepairProtocol::Legacy)
    } else if kind == 7 && len == 132 {
        Some(RepairProtocol::Pong)
    } else if kind == 8 && len == 160 {
        Some(RepairProtocol::WindowIndex { header, slot, shred_index })
    } else if kind == 9 && len == 160 {
        Some(RepairProtocol::HighestWindowIndex { header, slot, shred_index })
    } else if kind == 10 && len == 152 {
        Some(RepairProtocol::Orphan { header, slot })
    } else if kind == 11 && len == 152 {
        Some(RepairProtocol::AncestorHashes { header, slot })
    } else {
        None
    }
}

fn read_u32(packet: &[u8], at: usize) -> (n: u32)
    requires
        at + 4 <= packet@.len(),
    ensures
        n == from_le(packet@.subrange(at as int, at + 4)),
{
    proof {
        lemma_byte_spans();
        lemma_from_le_bound(packet@.subrange(at as int, at + 4));
    }
    get_le(packet, at, 4) as u32
}

fn read_u64(packet: &[u8], at: usize) -> (n: u64)
    requires
        at + 8 <= packet@.len(),
    ensures
        n == from_le(packet@.subrange(at as int, at + 8)),
{
    proof {
        lemma_byte_spans();
        lemma_from_le_bound(packet@.subrange(at as int, at + 8));
    }
    get_le(packet, at, 8) as u64
}

fn read_header(packet: &[u8]) -> (header: RepairRequestHeader)
    requires
        4 + SIZE_OF_HEADER <= packet@.len(),
    ensures
        header == header_of(packet@),
{
    RepairRequestHeader {
        sender: Pubkey::from_bytes(&copy_range(packet, 68, 100)),
        recipient: Pubkey::from_bytes(&copy_range(packet, 100, 132)),
        timestamp: read_u64(packet, 132),
        nonce: read_u32(packet, 140),
    }
}

/// Reads a request off a packet, which must hold nothing else.
pub fn deserialize_request(packet: &[u8]) -> (request: Option<RepairProtocol>)
    ensures
        request == request_of(packet@),
{
    let len: usize = packet.len();
    if len < 4 {
        return None;
    }
    let kind: u32 = read_u32(packet, 0);
    if kind <= 6 && len == 4 {
        Some(RepairProtocol::Legacy)
    } else if kind == 7 && len == 132 {
        Some(RepairProtocol::Pong)
    } else if (kind == 8 || kind == 9) && len == 160 {
        let header = read_header(packet);
        let slot: u64 = read_u64(packet, 144);
        let shred_index: u64 = read_u64(packet, 152);
        if kind == 8 {
            Some(RepairProtocol::WindowIndex { header, slot, shred_index })
        } else {
            Some(RepairProtocol::HighestWindowIndex { header, slot, shred_index })
        }
    } else if (kind == 10 || kind == 11) && len == 152 {
        let header = read_header(packet);
        let slot: u64 = read_u64(packet, 144);
        if kind == 10 {
            Some(RepairProtocol::Orphan { header, slot })
        } else {
            Some(RepairProtocol::AncestorHashes { header, slot })
        }
    } else {
        None
    }
}

/// A shred followed by the nonce, if that fits a packet.
pub open spec fn shred_response(shred: Seq<u8>, nonce: u32) -> Option<Seq<u8>> {
    if shred.len() + SIZE_OF_NONCE > PACKET_DATA_SIZE {
        None
    } else {
        Some(shred + le_bytes(nonce as nat, 4))
    }
}

pub open spec fn bytes_of(response: Option<Vec<u8>>) -> Option<Seq<u8>> {
    match response {
        Some(bytes) => Some(bytes@),
        None => None,
    }
}

pub fn build_shred_response(shred_data: &[u8], nonce: u32) -> (response: Option<Vec<u8>>)
    ensures
        bytes_of(response) == shred_response(shred_data@, nonce),
{
    if shred_data.len() > PACKET_DATA_SIZE - SIZE_OF_NONCE {
        return None;
    }
    let mut buf: Vec<u8> = Vec::new();
    put_bytes(&mut buf, shred_data);
    put_le(&mut buf, nonce as u128, 4);
    assert(buf@ =~= shred_data@ + le_bytes(nonce as nat, 4));
    Some(buf)
}

/// A response fits a packet, and the client reads the nonce off it.
pub proof fn law_response_fits(shred: Seq<u8>, nonce: u32)
    ensures
        shred_response(shred, nonce) matches Some(response) ==> response.len() <= PACKET_DATA_SIZE
            && crate::repair::nonce_of(response) == Some(nonce),
{
    lemma_le_len(nonce as nat, 4);
    crate::repair::request::law_nonce_roundtrip(shred, nonce);
}

/// A request is for this node, is not its own, and was made within ten
/// minutes of its clock.
pub open spec fn header_valid(header: RepairRequestHeader, my_id: Pubkey, now_ms: u64) -> bool {
    &&& header.recipient == my_id
    &&& header.sender != my_id
    &&& now_ms - header.timestamp <= MAX_CLOCK_SKEW_MS
    &&& header.timestamp - now_ms <= MAX_CLOCK_SKEW_MS
}

pub fn validate_header(header: &RepairRequestHeader, my_id: &Pubkey, now_ms: u64) -> (r: bool)
    ensures
        r == header_valid(*header, *my_id, now_ms),
{
    if header.recipient != *my_id {
        return false;
    }
    if header.sender == *my_id {
        return false;
    }
    let skew: u64 = if now_ms >= header.timestamp {
        now_ms - header.timestamp
    } else {
        header.timestamp - now_ms
    };
    skew <= MAX_CLOCK_SKEW_MS
}

/// What to do about a request.
#[derive(Clone, Copy, Debug, PartialEq, Eq, Structural)]
pub enum ServeAction {
    /// It was turned down: there is nothing more to do for it.
    Dropped,
    /// It is not one that is answered.
    Nothing,
    /// Look the data shred up and answer with [`ServeRepair::on_shred`].
    LookUpShred { slot: u64, shred_index: u64, nonce: u32 },
    /// Look the slot's shreds up and answer with
    /// [`ServeRepair::on_slot_shreds`].
    LookUpSlot { slot: u64, shred_index: u64, nonce: u32 },
}

/// What a request comes to, and the counters after it. `None` is one that
/// could not be read.
pub open spec fn decided(
    stats: ServeRepairStats,
    my_id: Pubkey,
    now_ms: u64,
    request: Option<RepairProtocol>,
) -> (ServeAction, ServeRepairStats) {
    match request {
        None => (
            ServeAction::Dropped,
            ServeRepairStats { drop_deserialize: bumped(stats.drop_deserialize), ..stats },
        ),
        Some(RepairProtocol::WindowIndex { header, slot, shred_index }) => {
            let stats = ServeRepairStats { window_index: bumped(stats.window_index), ..stats };
            if header_valid(header, my_id, now_ms) {
                (ServeAction::LookUpShred { slot, shred_index, nonce: header.nonce }, stats)
            } else {
                (
                    ServeAction::Dropped,
                    ServeRepairStats {
                        drop_header_invalid: bumped(stats.drop_header_invalid),
                        ..stats
                    },
                )
            }
        },
        Some(RepairProtocol::HighestWindowIndex { header, slot, shred_index }) => {
            let stats = ServeRepairStats {
                highest_window_index: bumped(stats.highest_window_index),
                ..stats
            };
            if header_valid(header, my_id, now_ms) {
                (ServeAction::LookUpSlot { slot, shred_index, nonce: header.nonce }, stats)
            } else {
                (
                    ServeAction::Dropped,
                    ServeRepairStats {
                        drop_header_invalid: bumped(stats.drop_header_invalid),
                        ..stats
                    },
                )
            }
        },
        Some(RepairProtocol::Orphan { .. }) => (
            ServeAction::Nothing,
            ServeRepairStats {
                orphan: bumped(stats.orphan),
                drop_unsupported: bumped(stats.drop_unsupported),
                ..stats
            },
        ),
        Some(RepairProtocol::AncestorHashes { .. }) => (
            ServeAction::Nothing,
            ServeRepairStats {
                ancestor_hashes: bumped(stats.ancestor_hashes),
                drop_unsupported: bumped(stats.drop_unsupported),
                ..stats
            },
        ),
        Some(RepairProtocol::Pong) => (
            ServeAction::Nothing,
            ServeRepairStats { pong: bumped(stats.pong), ..stats },
        ),
        Some(RepairProtocol::Legacy) => (
            ServeAction::Nothing,
            ServeRepairStats {
                legacy: bumped(stats.legacy),
                drop_unsupported: bumped(stats.drop_unsupported),
                ..stats
            },
        ),
    }
}

/// A stored shred and its index, if that can be read.
#[derive(Debug)]
pub struct StoredShred {
    pub index: Option<u32>,
    pub data: Vec<u8>,
}

impl StoredShred {
    /// A shred, with its index read off it.
    pub fn read(data: Vec<u8>) -> (r: Self)
        ensures
            r.data == data,
            r.index == (match field(data@, OFFSET_OF_INDEX as int, 4) {
                Some(x) => Some(x as u32),
                None => None,
            }),
    {
        let index = get_index(&data);
        StoredShred { index, data }
    }
}

/// The shred answers a request for the highest from `shred_index` on.
pub open spec fn serves(shred: StoredShred, shred_index: u64, nonce: u32) -> bool {
    shred.index is Some && shred.index->0 >= shred_index && shred_response(
        shred.data@,
        nonce,
    ) is Some
}

/// The first of the shreds that answers, if any does.
pub open spec fn first_served(shreds: Seq<StoredShred>, shred_index: u64, nonce: u32) -> Option<
    Seq<u8>,
>
    decreases shreds.len(),
{
    if shreds.len() == 0 {
        None
    } else if serves(shreds[0], shred_index, nonce) {
        shred_response(shreds[0].data@, nonce)
    } else {
        first_served(shreds.skip(1), shred_index, nonce)
    }
}

/// What the server tells of itself now and then.
#[derive(Clone, Copy, Debug, PartialEq, Eq, Structural)]
pub struct StatsReport {
    pub stats: ServeRepairStats,
    pub dropped: u64,
}

/// The server's side of repair.
pub struct ServeRepair {
    my_id: Pubkey,
    rate_limits: OrdMap<SocketAddr, PeerRateLimit>,
    stats: ServeRepairStats,
    last_stats_report: u64,
    last_cleanup: u64,
}

/// The server as the contracts speak of it.
#[verifier::ext_equal]
pub struct ServeView {
    pub my_id: Pubkey,
    pub limits: Map<SocketAddr, PeerRateLimit>,
    pub stats: ServeRepairStats,
    pub last_stats_report: u64,
    pub last_cleanup: u64,
}

impl ServeView {
    /// The limit that a request from `from` at `now` meets.
    pub open spec fn limit(self, from: SocketAddr, now: u64) -> PeerRateLimit {
        if self.limits.dom().contains(from) {
            self.limits[from]
        } else {
            PeerRateLimit { count: 0, window_start: now }
        }
    }

    /// Counts a request from `from`, and tells whether it is let through.
    pub open spec fn limited(self, from: SocketAddr, now: u64) -> (bool, Self) {
        let (ok, after) = self.limit(from, now).checked(now);
        (
            ok,
            ServeView {
                limits: self.limits.insert(from, after),
                stats: if ok {
                    self.stats
                } else {
                    ServeRepairStats {
                        rate_limited: bumped(self.stats.rate_limited),
                        ..self.stats
                    }
                },
                ..self
            },
        )
    }
}

impl ServeView {
    /// What a packet from `from` comes to, and the server after it.
    pub open spec fn packet_decided(
        self,
        now: u64,
        now_ms: u64,
        from: SocketAddr,
        packet: Seq<u8>,
    ) -> (ServeAction, Self) {
        let (ok, counted) = self.limited(from, now);
        if ok {
            let (action, stats) = decided(counted.stats, self.my_id, now_ms, request_of(packet));
            (action, ServeView { stats, ..counted })
        } else {
            (ServeAction::Dropped, counted)
        }
    }
}

impl ServeView {
    /// What a shred that was looked up comes to, and the server after it.
    pub open spec fn shred_looked_up(self, found: Result<Option<Vec<u8>>, ()>, nonce: u32) -> (
        Option<Seq<u8>>,
        Self,
    ) {
        let stats = self.stats;
        match found {
            Ok(Some(data)) => (
                shred_response(data@, nonce),
                ServeView {
                    stats: if shred_response(data@, nonce) is Some {
                        ServeRepairStats { served: bumped(stats.served), ..stats }
                    } else {
                        ServeRepairStats { drop_oversized: bumped(stats.drop_oversized), ..stats }
                    },
                    ..self
                },
            ),
            Ok(None) => (
                None,
                ServeView {
                    stats: ServeRepairStats {
                        drop_not_found: bumped(stats.drop_not_found),
                        ..stats
                    },
                    ..self
                },
            ),
            Err(_) => (
                None,
                ServeView {
                    stats: ServeRepairStats {
                        drop_store_error: bumped(stats.drop_store_error),
                        ..stats
                    },
                    ..self
                },
            ),
        }
    }

    /// What the shreds of a slot that were looked up come to, and the server
    /// after it.
    pub open spec fn slot_looked_up(
        self,
        found: Result<Vec<StoredShred>, ()>,
        shred_index: u64,
        nonce: u32,
    ) -> (Option<Seq<u8>>, Self) {
        let stats = self.stats;
        match found {
            Ok(shreds) => (
                first_served(shreds@, shred_index, nonce),
                ServeView {
                    stats: if first_served(shreds@, shred_index, nonce) is Some {
                        ServeRepairStats { served: bumped(stats.served), ..stats }
                    } else {
                        ServeRepairStats { drop_not_found: bumped(stats.drop_not_found), ..stats }
                    },
                    ..self
                },
            ),
            Err(_) => (
                None,
                ServeView {
                    stats: ServeRepairStats {
                        drop_store_error: bumped(stats.drop_store_error),
                        ..stats
                    },
                    ..self
                },
            ),
        }
    }

    /// What the server tells of itself at `now`, and the server after it.
    pub open spec fn reported(self, now: u64) -> (Option<StatsReport>, Self) {
        if secs_since(self.last_stats_report, now) >= STATS_REPORT_INTERVAL_SECS {
            (
                Some(StatsReport { stats: self.stats, dropped: self.stats.dropped() }),
                ServeView {
                    stats: ServeRepairStats::zero(),
                    last_stats_report: now,
                    ..self
                },
            )
        } else {
            (None, self)
        }
    }

    /// The server once idle peers have been forgotten, if it is time for that.
    pub open spec fn cleaned(self, now: u64) -> Self {
        if secs_since(self.last_cleanup, now) >= CLEANUP_INTERVAL_SECS {
            ServeView { limits: still_active(self.limits, now), last_cleanup: now, ..self }
        } else {
            self
        }
    }
}

impl ServeRepair {
    pub closed spec fn view(&self) -> ServeView {
        ServeView {
            my_id: self.my_id,
            limits: self.rate_limits@,
            stats: self.stats,
            last_stats_report: self.last_stats_report,
            last_cleanup: self.last_cleanup,
        }
    }

    pub closed spec fn wf(&self) -> bool {
        self.rate_limits.wf()
    }

    pub fn new(my_id: Pubkey, now: u64) -> (server: Self)
        ensures
            server.wf(),
            server@ == (ServeView {
                my_id,
                limits: Map::empty(),
                stats: ServeRepairStats::zero(),
                last_stats_report: now,
                last_cleanup: now,
            }),
    {
        ServeRepair {
            my_id,
            rate_limits: OrdMap::new(),
            stats: ServeRepairStats::default(),
            last_stats_report: now,
            last_cleanup: now,
        }
    }

    /// Counts a packet from `from`, and tells whether it is to be read.
    pub fn rate_limit(&mut self, from: SocketAddr, now: u64) -> (ok: bool)
        requires
            old(self).wf(),
        ensures
            final(self).wf(),
            (ok, final(self)@) == old(self)@.limited(from, now),
    {
        let ghost before = *self;
        let mut limit = match self.rate_limits.get(&from) {
            Some(limit) => *limit,
            None => PeerRateLimit::new(now),
        };
        let ok = limit.check_and_increment(now);
        self.rate_limits.insert(from, limit);
        if !ok {
            self.stats.rate_limited = bump(self.stats.rate_limited);
        }
        assert(self@ =~= before@.limited(from, now).1);
        ok
    }

    /// Decides what to do about a request; `None` is one that could not be
    /// read.
    pub fn on_request(&mut self, now_ms: u64, request: Option<RepairProtocol>) -> (action:
        ServeAction)
        requires
            old(self).wf(),
        ensures
            final(self).wf(),
            ({
                let (want, stats) = decided(old(self)@.stats, old(self)@.my_id, now_ms, request);
                action == want && final(self)@ == (ServeView { stats, ..old(self)@ })
            }),
    {
        match request {
            None => {
                self.stats.drop_deserialize = bump(self.stats.drop_deserialize);
                ServeAction::Dropped
            },
            Some(RepairProtocol::WindowIndex { header, slot, shred_index }) => {
                self.stats.window_index = bump(self.stats.window_index);
                if validate_header(&header, &self.my_id, now_ms) {
                    ServeAction::LookUpShred { slot, shred_index, nonce: header.nonce }
                } else {
                    self.stats.drop_header_invalid = bump(self.stats.drop_header_invalid);
                    ServeAction::Dropped
                }
            },
            Some(RepairProtocol::HighestWindowIndex { header, slot, shred_index }) => {
                self.stats.highest_window_index = bump(self.stats.highest_window_index);
                if validate_header(&header, &self.my_id, now_ms) {
                    ServeAction::LookUpSlot { slot, shred_index, nonce: header.nonce }
                } else {
                    self.stats.drop_header_invalid = bump(self.stats.drop_header_invalid);
                    ServeAction::Dropped
                }
            },
            Some(RepairProtocol::Orphan { .. }) => {
                self.stats.orphan = bump(self.stats.orphan);
                self.stats.drop_unsupported = bump(self.stats.drop_unsupported);
                ServeAction::Nothing
            },
            Some(RepairProtocol::AncestorHashes { .. }) => {
                self.stats.ancestor_hashes = bump(self.stats.ancestor_hashes);
                self.stats.drop_unsupported = bump(self.stats.drop_unsupported);
                ServeAction::Nothing
            },
            Some(RepairProtocol::Pong) => {
                self.stats.pong = bump(self.stats.pong);
                ServeAction::Nothing
            },
            Some(RepairProtocol::Legacy) => {
                self.stats.legacy = bump(self.stats.legacy);
                self.stats.drop_unsupported = bump(self.stats.drop_unsupported);
                ServeAction::Nothing
            },
        }
    }

    /// Decides what to do about a packet from `from`: it is counted, and read if
    /// its sender has not sent too many.
    pub fn on_packet(&mut self, now: u64, now_ms: u64, from: SocketAddr, packet: &[u8]) -> (action:
        ServeAction)
        requires
            old(self).wf(),
        ensures
            final(self).wf(),
            (action, final(self)@) == old(self)@.packet_decided(now, now_ms, from, packet@),
    {
        if self.rate_limit(from, now) {
            self.on_request(now_ms, deserialize_request(packet))
        } else {
            ServeAction::Dropped
        }
    }

    /// The answer, if any, once the shred has been looked up: found, not
    /// found, or an error of the store.
    pub fn on_shred(&mut self, found: Result<Option<Vec<u8>>, ()>, nonce: u32) -> (response: Option<
        Vec<u8>,
    >)
        requires
            old(self).wf(),
        ensures
            final(self).wf(),
            (bytes_of(response), final(self)@) == old(self)@.shred_looked_up(found, nonce),
    {
        match found {
            Ok(Some(data)) => {
                let response = build_shred_response(&data, nonce);
                if response.is_some() {
                    self.stats.served = bump(self.stats.served);
                } else {
                    self.stats.drop_oversized = bump(self.stats.drop_oversized);
                }
                response
            },
            Ok(None) => {
                self.stats.drop_not_found = bump(self.stats.drop_not_found);
                None
            },
            Err(_) => {
                self.stats.drop_store_error = bump(self.stats.drop_store_error);
                None
            },
        }
    }

    /// The answer, if any, once the slot's shreds have been looked up.
    pub fn on_slot_shreds(
        &mut self,
        found: Result<Vec<StoredShred>, ()>,
        shred_index: u64,
        nonce: u32,
    ) -> (response: Option<Vec<u8>>)
        requires
            old(self).wf(),
        ensures
            final(self).wf(),
            (bytes_of(response), final(self)@) == old(self)@.slot_looked_up(
                found,
                shred_index,
                nonce,
            ),
    {
        match found {
            Ok(shreds) => {
                let response = choose_response(&shreds, shred_index, nonce);
                if response.is_some() {
                    self.stats.served = bump(self.stats.served);
                } else {
                    self.stats.drop_not_found = bump(self.stats.drop_not_found);
                }
                response
            },
            Err(_) => {
                self.stats.drop_store_error = bump(self.stats.drop_store_error);
                None
            },
        }
    }

    /// Gives the counters and starts them over, if the last report is long
    /// enough ago.
    pub fn report_stats_if_needed(&mut self, now: u64) -> (report: Option<StatsReport>)
        requires
            old(self).wf(),
        ensures
            final(self).wf(),
            (report, final(self)@) == old(self)@.reported(now),
    {
        if elapsed_secs(self.last_stats_report, now) >= STATS_REPORT_INTERVAL_SECS {
            let report = StatsReport { stats: self.stats, dropped: self.stats.total_dropped() };
            self.stats = ServeRepairStats::default();
            self.last_stats_report = now;
            Some(report)
        } else {
            None
        }
    }

    /// Forgets the peers that have been idle, now and then.
    pub fn cleanup_if_needed(&mut self, now: u64)
        requires
            old(self).wf(),
        ensures
            final(self).wf(),
            final(self)@ == old(self)@.cleaned(now),
    {
        let ghost before = *self;
        if elapsed_secs(self.last_cleanup, now) < CLEANUP_INTERVAL_SECS {
            return ;
        }
        let mut kept: OrdMap<SocketAddr, PeerRateLimit> = OrdMap::new();
        let ghost entries = self.rate_limits.entries();
        let mut i: usize = 0;
        while i < self.rate_limits.len()
            invariant
                self.wf(),
                *self == before,
                kept.wf(),
                entries == self.rate_limits.entries(),
                i <= entries.len(),
                forall|a: SocketAddr| #[trigger]
                    kept@.dom().contains(a) ==> still_active(self@.limits, now).dom().contains(a)
                        && kept@[a] == self@.limits[a],
                forall|j: int|
                    0 <= j < i && secs_since((#[trigger] entries[j]).1.window_start, now)
                        < RATE_LIMIT_IDLE_SECS ==> kept@.dom().contains(entries[j].0),
            decreases entries.len() - i,
        {
            let (addr, limit) = self.rate_limits.at(i);
            if elapsed_secs(limit.window_start, now) < RATE_LIMIT_IDLE_SECS {
                kept.insert(*addr, *limit);
            }
            i += 1;
        }
        proof {
            let want = still_active(self@.limits, now);
            assert forall|a: SocketAddr| kept@.dom().contains(a) <==> want.dom().contains(a) by {
                if want.dom().contains(a) {
                    let j = self.rate_limits.index_of(a);
                    assert(self.rate_limits.has(a));
                    self.rate_limits.lemma_entry(j);
                    assert(entries[j].0 == a);
                }
            }
            assert(kept@ =~= want);
        }
        self.rate_limits = kept;
        self.last_cleanup = now;
    }
}

/// The limits of the peers that have not been idle.
pub open spec fn still_active(limits: Map<SocketAddr, PeerRateLimit>, now: u64) -> Map<
    SocketAddr,
    PeerRateLimit,
> {
    Map::new(
        |a: SocketAddr|
            limits.dom().contains(a) && secs_since(limits[a].window_start, now)
                < RATE_LIMIT_IDLE_SECS,
        |a: SocketAddr| limits[a],
    )
}

/// The first answer among the shreds of a slot.
fn choose_response(shreds: &Vec<StoredShred>, shred_index: u64, nonce: u32) -> (response: Option<
    Vec<u8>,
>)
    ensures
        bytes_of(response) == first_served(shreds@, shred_index, nonce),
{
    let mut i: usize = 0;
    assert(shreds@.skip(0) =~= shreds@);
    while i < shreds.len()
        invariant
            i <= shreds@.len(),
            first_served(shreds@, shred_index, nonce) == first_served(
                shreds@.skip(i as int),
                shred_index,
                nonce,
            ),
        decreases shreds@.len() - i,
    {
        let ghost rest = shreds@.skip(i as int);
        assert(rest[0] == shreds@[i as int]);
        assert(rest.skip(1) =~= shreds@.skip(i + 1));
        if let Some(index) = shreds[i].index {
            if index as u64 >= shred_index {
                let response = build_shred_response(&shreds[i].data, nonce);
                if response.is_some() {
                    return response;
                }
            }
        }
        i += 1;
    }
    None
}

/// A window lasts a second. The first request after that begins a window of its
/// own, in which it is the first, whatever came before.
pub proof fn law_window_is_renewed(limit: PeerRateLimit, now: u64)
    requires
        limit.window_start + 1_000_000_000 <= now,
    ensures
        limit.checked(now).0,
        limit.checked(now).1 == (PeerRateLimit { count: 1, window_start: now }),
        limit.checked(now) == (PeerRateLimit { count: 0, window_start: now }).checked(now),
{
    assert(secs_since(limit.window_start, now) >= 1);
}

/// Before a second is over the window stays as it is, a hundred requests are let
/// through in it, and each of them counts.
pub proof fn law_window_lasts(limit: PeerRateLimit, now: u64)
    requires
        now < limit.window_start + 1_000_000_000,
    ensures
        limit.checked(now).0 == (limit.count < 100),
        limit.checked(now).1.window_start == limit.window_start,
        limit.checked(now).1.count == limit.count + (if limit.count < 100 {
            1int
        } else {
            0int
        }),
{
    assert(secs_since(limit.window_start, now) == 0);
}

/// Whatever a peer has sent before: once its window is over, it gets through
/// with a hundred of the requests that it sends within the next second, and with
/// no more.
pub proof fn law_rate_limit_in_every_window(limit: PeerRateLimit, times: Seq<u64>)
    requires
        times.len() > 0,
        limit.window_start + 1_000_000_000 <= times[0],
        forall|i: int|
            0 <= i < times.len() ==> times[0] <= #[trigger] times[i] < times[0] + 1_000_000_000,
    ensures
        let_through(limit, times).0 == (if times.len() < 100 {
            times.len()
        } else {
            100nat
        }),
        let_through(limit, times).1.window_start == times[0],
    decreases times.len(),
{
    let rest = times.drop_last();
    let t = times[times.len() - 1];
    assert(times.last() == t);
    if rest.len() == 0 {
        law_window_is_renewed(limit, t);
        assert(let_through(limit, rest) == (0nat, limit));
    } else {
        assert(rest[0] == times[0]);
        assert forall|i: int| 0 <= i < rest.len() implies rest[0] <= #[trigger] rest[i] < rest[0]
            + 1_000_000_000 by {
            assert(rest[i] == times[i]);
        }
        law_rate_limit_in_every_window(limit, rest);
        lemma_count_of_window(limit, rest);
        law_window_lasts(let_through(limit, rest).1, t);
    }
}

/// The count of a window is how many it let through.
proof fn lemma_count_of_window(limit: PeerRateLimit, times: Seq<u64>)
    requires
        times.len() > 0,
        limit.window_start + 1_000_000_000 <= times[0],
        forall|i: int|
            0 <= i < times.len() ==> times[0] <= #[trigger] times[i] < times[0] + 1_000_000_000,
    ensures
        let_through(limit, times).1.window_start == times[0],
        let_through(limit, times).1.count == let_through(limit, times).0,
        let_through(limit, times).0 <= 100,
    decreases times.len(),
{
    let rest = times.drop_last();
    let t = times[times.len() - 1];
    assert(times.last() == t);
    if rest.len() == 0 {
        law_window_is_renewed(limit, t);
        assert(let_through(limit, rest) == (0nat, limit));
    } else {
        assert(rest[0] == times[0]);
        assert forall|i: int| 0 <= i < rest.len() implies rest[0] <= #[trigger] rest[i] < rest[0]
            + 1_000_000_000 by {
            assert(rest[i] == times[i]);
        }
        lemma_count_of_window(limit, rest);
        law_window_lasts(let_through(limit, rest).1, t);
    }
}

/// Peers are limited apart: what one sends leaves what the others may send as it
/// was. A peer that has not been seen may send a hundred.
pub proof fn law_peers_are_limited_apart(
    server: ServeView,
    now: u64,
    now_ms: u64,
    from: SocketAddr,
    packet: Seq<u8>,
    other: SocketAddr,
    later: u64,
)
    requires
        other != from,
    ensures
        ({
            let after = server.packet_decided(now, now_ms, from, packet).1;
            &&& after.limit(other, later) == server.limit(other, later)
            &&& after.limits.dom() == server.limits.dom().insert(from)
            &&& after.my_id == server.my_id
        }),
        !server.limits.dom().contains(from) ==> server.limited(from, now).0,
{
    let after = server.packet_decided(now, now_ms, from, packet).1;
    assert(after.limits.dom() =~= server.limits.dom().insert(from));
}

/// Requests of one peer are counted over packets: the limit that the next one
/// meets is the one that the last one left.
pub proof fn law_limit_is_kept(
    server: ServeView,
    now: u64,
    now_ms: u64,
    from: SocketAddr,
    packet: Seq<u8>,
    later: u64,
)
    ensures
        ({
            let (_, after) = server.packet_decided(now, now_ms, from, packet);
            after.limit(from, later) == server.limit(from, now).checked(now).1
        }),
        !server.limits.dom().contains(from) ==> server.limit(from, now) == (PeerRateLimit {
            count: 0,
            window_start: now,
        }),
{
}

/// To forget an idle peer makes no difference to it: whatever it sends later is
/// let through or not as if it were remembered. One that has been active in the
/// last half minute is remembered.
pub proof fn law_forgetting_makes_no_difference(
    limits: Map<SocketAddr, PeerRateLimit>,
    now: u64,
    peer: SocketAddr,
    later: u64,
)
    requires
        limits.dom().contains(peer),
        now <= later,
    ensures
        ({
            let kept = still_active(limits, now);
            &&& kept.dom().contains(peer) <==> now < limits[peer].window_start + 30_000_000_000
            &&& kept.dom().contains(peer) ==> kept[peer] == limits[peer]
            &&& !kept.dom().contains(peer) ==> limits[peer].checked(later) == (PeerRateLimit {
                count: 0,
                window_start: later,
            }).checked(later)
        }),
{
}

/// The bytes of a request, as clients write them: what kind it is, a signature,
/// who sends it and who is to answer, when, under which nonce, and what is asked
/// for.
pub open spec fn request_bytes(
    kind: nat,
    signature: Seq<u8>,
    header: RepairRequestHeader,
    asked: Seq<u8>,
) -> Seq<u8> {
    le_bytes(kind, 4) + signature + header.sender.bytes() + header.recipient.bytes() + le_bytes(
        header.timestamp as nat,
        8,
    ) + le_bytes(header.nonce as nat, 4) + asked
}

proof fn lemma_key_is_read(bytes: Seq<u8>, key: Pubkey)
    requires
        bytes == key.bytes(),
    ensures
        Pubkey::of_bytes(bytes) == key,
{
    lemma_byte_spans();
    crate::codec::lemma_be_roundtrip(key.hi as nat, 16);
    crate::codec::lemma_be_roundtrip(key.lo as nat, 16);
    assert(bytes.subrange(0, 16) =~= crate::codec::be_bytes(key.hi as nat, 16));
    assert(bytes.subrange(16, 32) =~= crate::codec::be_bytes(key.lo as nat, 16));
}

proof fn lemma_request_is_read(
    kind: nat,
    signature: Seq<u8>,
    header: RepairRequestHeader,
    asked: Seq<u8>,
)
    requires
        kind < 12,
        signature.len() == 64,
    ensures
        ({
            let packet = request_bytes(kind, signature, header, asked);
            &&& packet.len() == 144 + asked.len()
            &&& from_le(packet.subrange(0, 4)) == kind
            &&& header_of(packet) == header
            &&& packet.skip(144) == asked
        }),
{
    let packet = request_bytes(kind, signature, header, asked);
    lemma_byte_spans();
    lemma_le_roundtrip(kind, 4);
    lemma_le_roundtrip(header.timestamp as nat, 8);
    lemma_le_roundtrip(header.nonce as nat, 4);
    header.sender.lemma_len();
    header.recipient.lemma_len();
    assert(packet.subrange(0, 4) =~= le_bytes(kind, 4));
    assert(packet.subrange(68, 100) =~= header.sender.bytes());
    assert(packet.subrange(100, 132) =~= header.recipient.bytes());
    assert(packet.subrange(132, 140) =~= le_bytes(header.timestamp as nat, 8));
    assert(packet.subrange(140, 144) =~= le_bytes(header.nonce as nat, 4));
    lemma_key_is_read(packet.subrange(68, 100), header.sender);
    lemma_key_is_read(packet.subrange(100, 132), header.recipient);
    assert(packet.skip(144) =~= asked);
}

/// What a client asks for is what is read: one shred, or the highest from an
/// index on, of a slot.
pub proof fn law_request_is_read_back(
    signature: Seq<u8>,
    header: RepairRequestHeader,
    slot: u64,
    shred_index: u64,
)
    requires
        signature.len() == 64,
    ensures
        ({
            let both = le_bytes(slot as nat, 8) + le_bytes(shred_index as nat, 8);
            let alone = le_bytes(slot as nat, 8);
            &&& request_of(request_bytes(8, signature, header, both)) == Some(
                RepairProtocol::WindowIndex { header, slot, shred_index },
            )
            &&& request_of(request_bytes(9, signature, header, both)) == Some(
                RepairProtocol::HighestWindowIndex { header, slot, shred_index },
            )
            &&& request_of(request_bytes(10, signature, header, alone)) == Some(
                RepairProtocol::Orphan { header, slot },
            )
            &&& request_of(request_bytes(11, signature, header, alone)) == Some(
                RepairProtocol::AncestorHashes { header, slot },
            )
        }),
{
    let alone = le_bytes(slot as nat, 8);
    let index = le_bytes(shred_index as nat, 8);
    let both = alone + index;
    lemma_byte_spans();
    lemma_le_roundtrip(slot as nat, 8);
    lemma_le_roundtrip(shred_index as nat, 8);
    lemma_request_is_read(8, signature, header, both);
    lemma_request_is_read(9, signature, header, both);
    lemma_request_is_read(10, signature, header, alone);
    lemma_request_is_read(11, signature, header, alone);
    let p8 = request_bytes(8, signature, header, both);
    let p9 = request_bytes(9, signature, header, both);
    let p10 = request_bytes(10, signature, header, alone);
    let p11 = request_bytes(11, signature, header, alone);
    assert(p8.subrange(144, 152) =~= p8.skip(144).subrange(0, 8));
    assert(p8.subrange(152, 160) =~= p8.skip(144).subrange(8, 16));
    assert(p9.subrange(144, 152) =~= p9.skip(144).subrange(0, 8));
    assert(p9.subrange(152, 160) =~= p9.skip(144).subrange(8, 16));
    assert(both.subrange(0, 8) =~= alone);
    assert(both.subrange(8, 16) =~= index);
    assert(p10.subrange(144, 152) =~= p10.skip(144));
    assert(p11.subrange(144, 152) =~= p11.skip(144));
}

/// A request with bytes behind it, or with some missing, is none.
pub proof fn law_request_has_its_length(packet: Seq<u8>)
    ensures
        request_of(packet) matches Some(RepairProtocol::WindowIndex { .. }) ==> packet.len() == 160,
        request_of(packet) matches Some(RepairProtocol::HighestWindowIndex { .. }) ==> packet.len()
            == 160,
        request_of(packet) matches Some(RepairProtocol::Orphan { .. }) ==> packet.len() == 152,
        request_of(packet) matches Some(RepairProtocol::AncestorHashes { .. }) ==> packet.len()
            == 152,
        request_of(packet) matches Some(RepairProtocol::Pong) ==> packet.len() == 132,
        request_of(packet) matches Some(RepairProtocol::Legacy) ==> packet.len() == 4,
{
}

/// A request is followed up exactly if its sender is within the limit, it is for
/// this node and from another, and it was made within ten minutes; and then what
/// is looked up is what was asked for, under the nonce that came with it.
pub proof fn law_valid_requests_are_followed_up(
    server: ServeView,
    now: u64,
    now_ms: u64,
    from: SocketAddr,
    signature: Seq<u8>,
    header: RepairRequestHeader,
    slot: u64,
    shred_index: u64,
)
    requires
        signature.len() == 64,
    ensures
        ({
            let both = le_bytes(slot as nat, 8) + le_bytes(shred_index as nat, 8);
            let one = server.packet_decided(
                now,
                now_ms,
                from,
                request_bytes(8, signature, header, both),
            ).0;
            let top = server.packet_decided(
                now,
                now_ms,
                from,
                request_bytes(9, signature, header, both),
            ).0;
            let ok = server.limit(from, now).checked(now).0 && header.recipient == server.my_id
                && header.sender != server.my_id && header.timestamp <= now_ms + 600_000 && now_ms
                <= header.timestamp + 600_000;
            &&& one == (if ok {
                ServeAction::LookUpShred { slot, shred_index, nonce: header.nonce }
            } else {
                ServeAction::Dropped
            })
            &&& top == (if ok {
                ServeAction::LookUpSlot { slot, shred_index, nonce: header.nonce }
            } else {
                ServeAction::Dropped
            })
        }),
{
    law_request_is_read_back(signature, header, slot, shred_index);
}

/// Every packet is counted once, under what it is: as turned down for its
/// sender's rate, as unreadable, or under its kind.
pub proof fn law_every_packet_is_counted(
    server: ServeView,
    now: u64,
    now_ms: u64,
    from: SocketAddr,
    packet: Seq<u8>,
)
    requires
        ({
            let s = server.stats;
            s.window_index < u64::MAX && s.highest_window_index < u64::MAX && s.orphan < u64::MAX
                && s.ancestor_hashes < u64::MAX && s.pong < u64::MAX && s.legacy < u64::MAX
                && s.rate_limited < u64::MAX && s.drop_deserialize < u64::MAX
                && s.drop_header_invalid < u64::MAX && s.drop_unsupported < u64::MAX
        }),
    ensures
        ({
            let s = server.stats;
            let (action, server_after) = server.packet_decided(now, now_ms, from, packet);
            let t = server_after.stats;
            let through = server.limit(from, now).checked(now).0;
            let read = request_of(packet);
            let one = |b: bool| if b { 1int } else { 0int };
            &&& t.rate_limited - s.rate_limited == one(!through)
            &&& t.drop_deserialize - s.drop_deserialize == one(through && read is None)
            &&& t.window_index - s.window_index == one(
                through && read matches Some(RepairProtocol::WindowIndex { .. }),
            )
            &&& t.highest_window_index - s.highest_window_index == one(
                through && read matches Some(RepairProtocol::HighestWindowIndex { .. }),
            )
            &&& t.orphan - s.orphan == one(
                through && read matches Some(RepairProtocol::Orphan { .. }),
            )
            &&& t.ancestor_hashes - s.ancestor_hashes == one(
                through && read matches Some(RepairProtocol::AncestorHashes { .. }),
            )
            &&& t.pong - s.pong == one(through && read == Some(RepairProtocol::Pong))
            &&& t.legacy - s.legacy == one(through && read == Some(RepairProtocol::Legacy))
            &&& t.drop_unsupported - s.drop_unsupported == (t.orphan - s.orphan) + (
            t.ancestor_hashes - s.ancestor_hashes) + (t.legacy - s.legacy)
            &&& t.drop_header_invalid - s.drop_header_invalid == (t.window_index - s.window_index)
                + (t.highest_window_index - s.highest_window_index) - one(
                action is LookUpShred || action is LookUpSlot,
            )
            &&& t.served == s.served
            &&& t.drop_not_found == s.drop_not_found
            &&& t.drop_store_error == s.drop_store_error
            &&& t.drop_oversized == s.drop_oversized
        }),
{
}

/// A shred is answered with as it is, with the nonce behind it, exactly if both
/// fit a packet of 1232 bytes.
pub proof fn law_response_is_the_shred(shred: Seq<u8>, nonce: u32)
    ensures
        shred_response(shred, nonce) is Some <==> shred.len() <= 1228,
        shred_response(shred, nonce) matches Some(response) ==> {
            &&& response.len() == shred.len() + 4
            &&& response.take(shred.len() as int) == shred
            &&& from_le(response.skip(shred.len() as int)) == nonce
        },
{
    lemma_byte_spans();
    lemma_le_roundtrip(nonce as nat, 4);
    if shred.len() <= 1228 {
        let response = shred + le_bytes(nonce as nat, 4);
        assert(response.take(shred.len() as int) =~= shred);
        assert(response.skip(shred.len() as int) =~= le_bytes(nonce as nat, 4));
    }
}

/// A request for the highest shred from an index on is answered with the first of
/// the slot's shreds that is at the index or above it and fits a packet, and not
/// at all where there is none.
pub proof fn law_first_that_serves(shreds: Seq<StoredShred>, shred_index: u64, nonce: u32)
    ensures
        match first_served(shreds, shred_index, nonce) {
            Some(response) => exists|i: int|
                0 <= i < shreds.len() && #[trigger] shreds[i].index is Some && shreds[i].index->0
                    >= shred_index && shreds[i].data@.len() <= 1228 && response
                    == shreds[i].data@ + le_bytes(nonce as nat, 4) && forall|j: int|
                    0 <= j < i ==> !(#[trigger] shreds[j].index is Some && shreds[j].index->0
                        >= shred_index && shreds[j].data@.len() <= 1228),
            None => forall|j: int|
                0 <= j < shreds.len() ==> !(#[trigger] shreds[j].index is Some
                    && shreds[j].index->0 >= shred_index && shreds[j].data@.len() <= 1228),
        },
    decreases shreds.len(),
{
    if shreds.len() > 0 {
        let rest = shreds.skip(1);
        assert(shreds[0].index is Some || shreds[0].index is None);
        if !serves(shreds[0], shred_index, nonce) {
            law_first_that_serves(rest, shred_index, nonce);
            match first_served(rest, shred_index, nonce) {
                Some(response) => {
                    let i = choose|i: int|
                        0 <= i < rest.len() && #[trigger] rest[i].index is Some && rest[i].index->0
                            >= shred_index && rest[i].data@.len() <= 1228 && response
                            == rest[i].data@ + le_bytes(nonce as nat, 4) && forall|j: int|
                            0 <= j < i ==> !(#[trigger] rest[j].index is Some && rest[j].index->0
                                >= shred_index && rest[j].data@.len() <= 1228);
                    assert(shreds[i + 1] == rest[i]);
                    assert(shreds[i + 1].index is Some);
                    assert forall|j: int| 0 <= j < i + 1 implies !(#[trigger] shreds[j].index is Some
                        && shreds[j].index->0 >= shred_index && shreds[j].data@.len() <= 1228) by {
                        if j > 0 {
                            assert(rest[j - 1] == shreds[j]);
                            assert(!(rest[j - 1].index is Some && rest[j - 1].index->0
                                >= shred_index && rest[j - 1].data@.len() <= 1228));
                        }
                    }
                },
                None => {
                    assert forall|j: int| 0 <= j < shreds.len() implies !(
                    #[trigger] shreds[j].index is Some && shreds[j].index->0 >= shred_index
                        && shreds[j].data@.len() <= 1228) by {
                        if j > 0 {
                            assert(rest[j - 1] == shreds[j]);
                            assert(!(rest[j - 1].index is Some && rest[j - 1].index->0
                                >= shred_index && rest[j - 1].data@.len() <= 1228));
                        }
                    }
                },
            }
        }
    }
}

/// Every answer is counted: as served if there is one, and otherwise as dropped
/// once, for what stood in the way.
pub proof fn law_every_answer_is_counted(
    server: ServeView,
    found: Result<Option<Vec<u8>>, ()>,
    slot: Result<Vec<StoredShred>, ()>,
    shred_index: u64,
    nonce: u32,
)
    requires
        server.stats.served < u64::MAX,
        server.stats.drop_not_found < u64::MAX,
        server.stats.drop_store_error < u64::MAX,
        server.stats.drop_oversized < u64::MAX,
    ensures
        ({
            let s = server.stats;
            let (one, after_one) = server.shred_looked_up(found, nonce);
            let (top, after_top) = server.slot_looked_up(slot, shred_index, nonce);
            &&& one == (match found {
                Ok(Some(data)) => shred_response(data@, nonce),
                _ => None,
            })
            &&& after_one == (ServeView {
                stats: match (found, one) {
                    (_, Some(_)) => ServeRepairStats { served: (s.served + 1) as u64, ..s },
                    (Err(_), None) => ServeRepairStats {
                        drop_store_error: (s.drop_store_error + 1) as u64,
                        ..s
                    },
                    (Ok(None), None) => ServeRepairStats {
                        drop_not_found: (s.drop_not_found + 1) as u64,
                        ..s
                    },
                    (Ok(Some(_)), None) => ServeRepairStats {
                        drop_oversized: (s.drop_oversized + 1) as u64,
                        ..s
                    },
                },
                ..server
            })
            &&& slot is Ok ==> top == first_served(slot->Ok_0@, shred_index, nonce)
            &&& slot is Err ==> top is None
            &&& after_top == (ServeView {
                stats: match (slot, top) {
                    (_, Some(_)) => ServeRepairStats { served: (s.served + 1) as u64, ..s },
                    (Err(_), None) => ServeRepairStats {
                        drop_store_error: (s.drop_store_error + 1) as u64,
                        ..s
                    },
                    (Ok(_), None) => ServeRepairStats {
                        drop_not_found: (s.drop_not_found + 1) as u64,
                        ..s
                    },
                },
                ..server
            })
        }),
{
}

/// Nothing that was counted is lost in a report, and nothing is told twice: the
/// counters are handed out every ten seconds and start at zero again.
pub proof fn law_reports_tell_all(server: ServeView, now: u64)
    ensures
        ({
            let (report, after) = server.reported(now);
            let s = server.stats;
            let z = after.stats;
            if server.last_stats_report + 10_000_000_000 <= now {
                &&& report matches Some(r) && r.stats == s && (s.drop_deserialize
                    + s.drop_header_invalid + s.drop_not_found + s.drop_store_error
                    + s.drop_oversized + s.drop_unsupported <= u64::MAX ==> r.dropped
                    == s.drop_deserialize + s.drop_header_invalid + s.drop_not_found
                    + s.drop_store_error + s.drop_oversized + s.drop_unsupported)
                &&& after.last_stats_report == now
                &&& z.window_index == 0 && z.highest_window_index == 0 && z.orphan == 0
                    && z.ancestor_hashes == 0 && z.pong == 0 && z.legacy == 0 && z.served == 0
                    && z.rate_limited == 0 && z.drop_deserialize == 0 && z.drop_header_invalid == 0
                    && z.drop_not_found == 0 && z.drop_store_error == 0 && z.drop_oversized == 0
                    && z.drop_unsupported == 0
                &&& after.limits == server.limits && after.my_id == server.my_id
                    && after.last_cleanup == server.last_cleanup
            } else {
                report is None && after == server
            }
        }),
{
}

/// Once a minute the peers are forgotten that have been idle for half a minute,
/// and at no other time any.
pub proof fn law_cleanup_is_every_minute(server: ServeView, now: u64, peer: SocketAddr)
    requires
        server.limits.dom().contains(peer),
    ensures
        ({
            let after = server.cleaned(now);
            if server.last_cleanup + 60_000_000_000 <= now {
                &&& after.last_cleanup == now
                &&& after.limits.dom().contains(peer) <==> now < server.limits[peer].window_start
                    + 30_000_000_000
                &&& after.limits.dom().contains(peer) ==> after.limits[peer]
                    == server.limits[peer]
                &&& after.limits.dom().subset_of(server.limits.dom())
                &&& after.stats == server.stats
            } else {
                after == server
            }
        }),
{
}

/// The other kinds of packets: those of old kinds, pongs, and those of no kind.
pub proof fn law_other_packets(packet: Seq<u8>)
    ensures
        packet.len() == 4 && from_le(packet.subrange(0, 4)) <= 6 ==> request_of(packet) == Some(
            RepairProtocol::Legacy,
        ),
        packet.len() == 132 && from_le(packet.subrange(0, 4)) == 7 ==> request_of(packet) == Some(
            RepairProtocol::Pong,
        ),
        packet.len() < 4 || from_le(packet.subrange(0, 4)) > 11 ==> request_of(packet) is None,
{
}

} // verus!
