//! The rolling hash over the events of a run. A failure is a seed and a
//! configuration, and the hash is the witness of equality: one seed run twice
//! must give one hash.
//!
//! The hash covers virtual time, endpoints, event kinds, datagram lengths and
//! digests of application payloads, which is all that protocol behavior
//! determines. Ciphertext is left out: the TLS provider draws its ephemeral
//! keys from entropy of its own, so that encrypted bytes differ from run to
//! run while packet counts, sizes and timing do not.

use vstd::prelude::*;
use crate::addr::{IpAddr, SocketAddr};
use crate::codec::{
    be_bytes, le_bytes, lemma_be_roundtrip, lemma_byte_spans, lemma_le_roundtrip, put_be, put_bytes,
    put_le,
};
use crate::digest::{sha256, sha256_of};
use crate::pubkey::Pubkey;
use crate::time::{bump, bumped};

verus! {

#[allow(inconsistent_fields)]
#[derive(Clone, Copy, Debug)]
pub enum TraceEvent {
    HostSend { host: u32, from: SocketAddr, to: SocketAddr, len: usize },
    Delivered { host: u32, src: SocketAddr, dst: SocketAddr, len: usize },
    LinkDropped { from: u32, to: u32, len: usize },
    LinkDuplicated { from: u32, to: u32 },
    LinkDown { from: u32, to: u32 },
    MtuDropped { from: u32, to: u32, len: usize, mtu: usize },
    NoRoute { from: u32, to: SocketAddr },
    NatMapped { host: u32, level: u8, internal: SocketAddr, external: SocketAddr },
    NatDropped { host: u32, level: u8, reason: &'static str },
    NoSocket { host: u32, dst: SocketAddr },
    PeerConnected { host: u32, peer: SocketAddr, pubkey: Option<Pubkey> },
    PeerDisconnected { host: u32, peer: SocketAddr },
    ShredDelivered { host: u32, payload_hash: u64 },
    /// An application datagram that a bare-transport host surfaced.
    AppDatagram { host: u32, from: SocketAddr, payload_hash: u64 },
    HostDown { host: u32 },
    HostUp { host: u32 },
    /// Server side: a repair request was admitted and answered from the
    /// host's store (`found`: a shred went back).
    RepairServed { host: u32, slot: u64, index: u32, highest: bool, found: bool },
    /// Client side: a repair stream ended with the peer's answer.
    RepairConcluded { host: u32, found: bool },
    /// Client side: a repair stream died without an answer.
    RepairFailed { host: u32 },
}

/// An endpoint in bytes: the family, the address, the port.
pub open spec fn addr_bytes(addr: SocketAddr) -> Seq<u8> {
    (match addr.ip {
        IpAddr::V4(ip) => seq![4u8] + be_bytes(ip as nat, 4),
        IpAddr::V6(ip) => seq![6u8] + be_bytes(ip as nat, 16),
    }) + le_bytes(addr.port as nat, 2)
}

pub open spec fn u32_bytes(x: u32) -> Seq<u8> {
    le_bytes(x as nat, 4)
}

pub open spec fn u64_bytes(x: int) -> Seq<u8> {
    le_bytes(x as nat, 8)
}

pub open spec fn flag(b: bool) -> Seq<u8> {
    seq![
        if b {
            1u8
        } else {
            0u8
        },
    ]
}

/// An event in bytes: a tag, then its fields in order.
pub open spec fn event_bytes(event: TraceEvent) -> Seq<u8> {
    match event {
        TraceEvent::HostSend { host, from, to, len } => seq![1u8] + (u32_bytes(host) + (addr_bytes(
            from,
        ) + (addr_bytes(to) + u64_bytes(len as int)))),
        TraceEvent::Delivered { host, src, dst, len } => seq![2u8] + (u32_bytes(host) + (addr_bytes(
            src,
        ) + (addr_bytes(dst) + u64_bytes(len as int)))),
        TraceEvent::LinkDropped { from, to, len } => seq![3u8] + (u32_bytes(from) + (u32_bytes(to)
            + u64_bytes(len as int))),
        TraceEvent::LinkDuplicated { from, to } => seq![4u8] + (u32_bytes(from) + u32_bytes(to)),
        TraceEvent::LinkDown { from, to } => seq![5u8] + (u32_bytes(from) + u32_bytes(to)),
        TraceEvent::MtuDropped { from, to, len, mtu } => seq![6u8] + (u32_bytes(from) + (u32_bytes(
            to,
        ) + (u64_bytes(len as int) + u64_bytes(mtu as int)))),
        TraceEvent::NoRoute { from, to } => seq![7u8] + (u32_bytes(from) + addr_bytes(to)),
        TraceEvent::NatMapped { host, level, internal, external } => seq![8u8] + (u32_bytes(host)
            + (seq![level] + (addr_bytes(internal) + addr_bytes(external)))),
        TraceEvent::NatDropped { host, level, reason } => seq![9u8] + (u32_bytes(host) + (
        seq![level] + vstd::utf8::encode_utf8(reason@))),
        TraceEvent::NoSocket { host, dst } => seq![10u8] + (u32_bytes(host) + addr_bytes(dst)),
        TraceEvent::PeerConnected { host, peer, pubkey } => seq![11u8] + (u32_bytes(host) + (
        addr_bytes(peer) + match pubkey {
            Some(pubkey) => seq![1u8] + pubkey.bytes(),
            None => seq![0u8],
        })),
        TraceEvent::PeerDisconnected { host, peer } => seq![12u8] + (u32_bytes(host) + addr_bytes(
            peer,
        )),
        TraceEvent::ShredDelivered { host, payload_hash } => seq![13u8] + (u32_bytes(host)
            + u64_bytes(payload_hash as int)),
        TraceEvent::HostDown { host } => seq![14u8] + u32_bytes(host),
        TraceEvent::HostUp { host } => seq![15u8] + u32_bytes(host),
        TraceEvent::AppDatagram { host, from, payload_hash } => seq![16u8] + (u32_bytes(host) + (
        addr_bytes(from) + u64_bytes(payload_hash as int))),
        TraceEvent::RepairServed { host, slot, index, highest, found } => seq![17u8] + (u32_bytes(
            host,
        ) + (u64_bytes(slot as int) + (u32_bytes(index) + (flag(highest) + flag(found))))),
        TraceEvent::RepairConcluded { host, found } => seq![18u8] + (u32_bytes(host) + flag(found)),
        TraceEvent::RepairFailed { host } => seq![19u8] + u32_bytes(host),
    }
}

/// What one record adds to the hash: the time, then the event.
pub open spec fn record_bytes(nanos: u64, event: TraceEvent) -> Seq<u8> {
    u64_bytes(nanos as int) + event_bytes(event)
}

/// A trace as the contracts speak of it.
#[verifier::ext_equal]
pub struct TraceView {
    pub state: Seq<u8>,
    pub events: u64,
    /// What has been recorded, the oldest first.
    pub records: Seq<(u64, TraceEvent)>,
}

impl TraceView {
    pub open spec fn empty() -> Self {
        TraceView { state: Seq::new(32, |i: int| 0u8), events: 0, records: Seq::empty() }
    }

    /// The trace after one more record.
    pub open spec fn recorded(self, nanos: u64, event: TraceEvent) -> Self {
        TraceView {
            state: sha256_of(self.state + record_bytes(nanos, event)),
            events: bumped(self.events),
            records: self.records.push((nanos, event)),
        }
    }
}

/// What becomes of the records of a trace.
pub struct Printing {
    /// Whether they are printed at all.
    pub verbose: bool,
    /// How many have been handed out for that, or were there to be.
    pub taken: nat,
}

impl Printing {
    /// Those of `records` that wait to be printed.
    pub open spec fn waiting(self, records: Seq<(u64, TraceEvent)>) -> Seq<(u64, TraceEvent)> {
        if self.verbose {
            records.skip(self.taken as int)
        } else {
            Seq::empty()
        }
    }
}

/// The trace of a run.
pub struct Trace {
    state: [u8; 32],
    events: u64,
    /// Whether the run's driver prints the events as they are recorded.
    pub verbose: bool,
    /// The records that a verbose run has yet to print.
    printed: Vec<(u64, TraceEvent)>,
    records: Ghost<Seq<(u64, TraceEvent)>>,
    taken: Ghost<nat>,
}

impl Trace {
    pub closed spec fn view(&self) -> TraceView {
        TraceView { state: self.state@, events: self.events, records: self.records@ }
    }

    pub closed spec fn printing(&self) -> Printing {
        Printing { verbose: self.verbose, taken: self.taken@ }
    }

    /// The hash is that of the records, and the backlog is what waits of them.
    pub open spec fn wf(&self) -> bool {
        &&& self@ == traced(TraceView::empty(), self@.records)
        &&& self.printing().taken <= self@.records.len()
        &&& self.backlog() == self.printing().waiting(self@.records)
    }

    /// The records that wait to be printed.
    pub closed spec fn backlog(&self) -> Seq<(u64, TraceEvent)> {
        self.printed@
    }

    pub fn new(verbose: bool) -> (trace: Self)
        ensures
            trace.wf(),
            trace@ == TraceView::empty(),
            trace.printing() == (Printing { verbose, taken: 0 }),
            trace.backlog() == Seq::<(u64, TraceEvent)>::empty(),
    {
        let trace = Trace {
            state: [0u8; 32],
            events: 0,
            verbose,
            printed: Vec::new(),
            records: Ghost(Seq::empty()),
            taken: Ghost(0),
        };
        assert(trace@ =~= TraceView::empty());
        assert(trace.backlog() =~= trace.printing().waiting(trace@.records));
        trace
    }

    /// Folds `event` at time `nanos` into the hash. A verbose trace also keeps
    /// the record for printing.
    pub fn record(&mut self, nanos: u64, event: &TraceEvent)
        ensures
            final(self)@ == old(self)@.recorded(nanos, *event),
            final(self).printing() == old(self).printing(),
            old(self).wf() ==> final(self).wf(),
            final(self).backlog() == if old(self).printing().verbose {
                old(self).backlog().push((nanos, *event))
            } else {
                old(self).backlog()
            },
    {
        let ghost before = *self;
        let mut buf: Vec<u8> = Vec::new();
        put_bytes(&mut buf, &self.state);
        put_le(&mut buf, nanos as u128, 8);
        encode_event(&mut buf, event);
        assert(buf@ =~= before@.state + record_bytes(nanos, *event));
        self.state = sha256(&buf);
        self.events = bump(self.events);
        if self.verbose {
            self.printed.push((nanos, *event));
        }
        proof {
            let records = before.records@.push((nanos, *event));
            self.records@ = records;
            assert(records.drop_last() =~= before.records@);
            if before.wf() {
                assert(self.backlog() =~= self.printing().waiting(records));
            }
        }
    }

    /// Hands out the records that wait to be printed.
    pub fn take_printed(&mut self) -> (records: Vec<(u64, TraceEvent)>)
        ensures
            records@ == old(self).backlog(),
            final(self).backlog() == Seq::<(u64, TraceEvent)>::empty(),
            final(self)@ == old(self)@,
            final(self).printing() == (Printing {
                taken: old(self)@.records.len(),
                ..old(self).printing()
            }),
            old(self).wf() ==> final(self).wf(),
    {
        let mut records: Vec<(u64, TraceEvent)> = Vec::new();
        std::mem::swap(&mut records, &mut self.printed);
        proof {
            self.taken@ = self.records@.len();
            assert(self.backlog() =~= self.printing().waiting(self@.records));
        }
        records
    }

    pub fn events(&self) -> (events: u64)
        ensures
            events == self@.events,
    {
        self.events
    }

    /// The hash in lower-case hexadecimal.
    pub fn hash_hex(&self) -> (out: String)
        ensures
            out@ == hex_of(self@.state),
            out@.len() == 64,
    {
        proof {
            lemma_hex_len(self.state@);
        }
        to_hex(&self.state)
    }
}

/// The character of a hexadecimal digit.
pub open spec fn hex_char(d: int) -> char {
    if d < 10 {
        (48 + d) as char
    } else {
        (87 + d) as char
    }
}

/// Bytes in lower-case hexadecimal, two characters each.
pub open spec fn hex_of(bytes: Seq<u8>) -> Seq<char>
    decreases bytes.len(),
{
    if bytes.len() == 0 {
        Seq::empty()
    } else {
        hex_of(bytes.drop_last()).push(hex_char((bytes.last() / 16) as int)).push(
            hex_char((bytes.last() % 16) as int),
        )
    }
}

/// Each byte takes two digits.
pub proof fn lemma_hex_len(bytes: Seq<u8>)
    ensures
        hex_of(bytes).len() == 2 * bytes.len(),
    decreases bytes.len(),
{
    if bytes.len() > 0 {
        lemma_hex_len(bytes.drop_last());
    }
}

/// The bytes in lower-case hexadecimal.
pub(crate) fn to_hex(bytes: &[u8; 32]) -> (out: String)
    ensures
        out@ == hex_of(bytes@),
{
    let mut out = String::new();
    let mut i: usize = 0;
    while i < 32
        invariant
            i <= 32,
            out@ == hex_of(bytes@.take(i as int)),
        decreases 32 - i,
    {
        let byte: u8 = bytes[i];
        out.append(hex_digit(byte / 16));
        out.append(hex_digit(byte % 16));
        i += 1;
        proof {
            assert(bytes@.take(i as int).drop_last() =~= bytes@.take(i - 1));
            assert(out@ =~= hex_of(bytes@.take(i as int)));
        }
    }
    assert(bytes@.take(i as int) =~= bytes@);
    out
}

fn hex_digit(d: u8) -> (s: &'static str)
    requires
        d < 16,
    ensures
        s@ == seq![hex_char(d as int)],
{
    proof {
        reveal_strlit("0");
        reveal_strlit("1");
        reveal_strlit("2");
        reveal_strlit("3");
        reveal_strlit("4");
        reveal_strlit("5");
        reveal_strlit("6");
        reveal_strlit("7");
        reveal_strlit("8");
        reveal_strlit("9");
        reveal_strlit("a");
        reveal_strlit("b");
        reveal_strlit("c");
        reveal_strlit("d");
        reveal_strlit("e");
        reveal_strlit("f");
    }
    let s: &'static str = match d {
        0 => "0",
        1 => "1",
        2 => "2",
        3 => "3",
        4 => "4",
        5 => "5",
        6 => "6",
        7 => "7",
        8 => "8",
        9 => "9",
        10 => "a",
        11 => "b",
        12 => "c",
        13 => "d",
        14 => "e",
        _ => "f",
    };
    assert(s@ =~= seq![hex_char(d as int)]);
    s
}

fn encode_addr(buf: &mut Vec<u8>, addr: &SocketAddr)
    ensures
        final(buf)@ == old(buf)@ + addr_bytes(*addr),
{
    let ghost start = buf@;
    match addr.ip() {
        IpAddr::V4(ip) => {
            buf.push(4);
            put_be(buf, ip as u128, 4);
        },
        IpAddr::V6(ip) => {
            buf.push(6);
            put_be(buf, ip, 16);
        },
    }
    put_le(buf, addr.port() as u128, 2);
    assert(buf@ =~= start + addr_bytes(*addr));
}

fn encode_flag(b: bool) -> (byte: u8)
    ensures
        seq![byte] == flag(b),
{
    if b {
        1
    } else {
        0
    }
}

fn encode_event(buf: &mut Vec<u8>, event: &TraceEvent)
    ensures
        final(buf)@ == old(buf)@ + event_bytes(*event),
{
    let ghost start = buf@;
    match event {
        TraceEvent::HostSend { host, from, to, len } => {
            buf.push(1);
            put_le(buf, *host as u128, 4);
            encode_addr(buf, from);
            encode_addr(buf, to);
            put_le(buf, *len as u128, 8);
        },
        TraceEvent::Delivered { host, src, dst, len } => {
            buf.push(2);
            put_le(buf, *host as u128, 4);
            encode_addr(buf, src);
            encode_addr(buf, dst);
            put_le(buf, *len as u128, 8);
        },
        TraceEvent::LinkDropped { from, to, len } => {
            buf.push(3);
            put_le(buf, *from as u128, 4);
            put_le(buf, *to as u128, 4);
            put_le(buf, *len as u128, 8);
        },
        TraceEvent::LinkDuplicated { from, to } => {
            buf.push(4);
            put_le(buf, *from as u128, 4);
            put_le(buf, *to as u128, 4);
        },
        TraceEvent::LinkDown { from, to } => {
            buf.push(5);
            put_le(buf, *from as u128, 4);
            put_le(buf, *to as u128, 4);
        },
        TraceEvent::MtuDropped { from, to, len, mtu } => {
            buf.push(6);
            put_le(buf, *from as u128, 4);
            put_le(buf, *to as u128, 4);
            put_le(buf, *len as u128, 8);
            put_le(buf, *mtu as u128, 8);
        },
        TraceEvent::NoRoute { from, to } => {
            buf.push(7);
            put_le(buf, *from as u128, 4);
            encode_addr(buf, to);
        },
        TraceEvent::NatMapped { host, level, internal, external } => {
            buf.push(8);
            put_le(buf, *host as u128, 4);
            buf.push(*level);
            encode_addr(buf, internal);
            encode_addr(buf, external);
        },
        TraceEvent::NatDropped { host, level, reason } => {
            buf.push(9);
            put_le(buf, *host as u128, 4);
            buf.push(*level);
            put_bytes(buf, reason.as_bytes());
        },
        TraceEvent::NoSocket { host, dst } => {
            buf.push(10);
            put_le(buf, *host as u128, 4);
            encode_addr(buf, dst);
        },
        TraceEvent::PeerConnected { host, peer, pubkey } => {
            buf.push(11);
            put_le(buf, *host as u128, 4);
            encode_addr(buf, peer);
            match pubkey {
                Some(pubkey) => {
                    buf.push(1);
                    let bytes = pubkey.to_bytes();
                    put_bytes(buf, &bytes);
                },
                None => {
                    buf.push(0);
                },
            }
        },
        TraceEvent::PeerDisconnected { host, peer } => {
            buf.push(12);
            put_le(buf, *host as u128, 4);
            encode_addr(buf, peer);
        },
        TraceEvent::ShredDelivered { host, payload_hash } => {
            buf.push(13);
            put_le(buf, *host as u128, 4);
            put_le(buf, *payload_hash as u128, 8);
        },
        TraceEvent::HostDown { host } => {
            buf.push(14);
            put_le(buf, *host as u128, 4);
        },
        TraceEvent::HostUp { host } => {
            buf.push(15);
            put_le(buf, *host as u128, 4);
        },
        TraceEvent::AppDatagram { host, from, payload_hash } => {
            buf.push(16);
            put_le(buf, *host as u128, 4);
            encode_addr(buf, from);
            put_le(buf, *payload_hash as u128, 8);
        },
        TraceEvent::RepairServed { host, slot, index, highest, found } => {
            buf.push(17);
            put_le(buf, *host as u128, 4);
            put_le(buf, *slot as u128, 8);
            put_le(buf, *index as u128, 4);
            buf.push(encode_flag(*highest));
            buf.push(encode_flag(*found));
        },
        TraceEvent::RepairConcluded { host, found } => {
            buf.push(18);
            put_le(buf, *host as u128, 4);
            buf.push(encode_flag(*found));
        },
        TraceEvent::RepairFailed { host } => {
            buf.push(19);
            put_le(buf, *host as u128, 4);
        },
    }
    assert(buf@ =~= start + event_bytes(*event));
}

/// Two events say the same: they are equal, or both are drops for reasons
/// that read the same.
pub open spec fn same_event(a: TraceEvent, b: TraceEvent) -> bool {
    match (a, b) {
        (
            TraceEvent::NatDropped { host: h1, level: l1, reason: r1 },
            TraceEvent::NatDropped { host: h2, level: l2, reason: r2 },
        ) => h1 == h2 && l1 == l2 && r1@ == r2@,
        _ => a == b,
    }
}

/// Fields of one width in front of two equal strings are equal, and so is
/// what follows them.
proof fn lemma_field(a: Seq<u8>, rest_a: Seq<u8>, b: Seq<u8>, rest_b: Seq<u8>)
    requires
        a + rest_a == b + rest_b,
        a.len() == b.len(),
    ensures
        a == b,
        rest_a == rest_b,
{
    assert(a =~= (a + rest_a).take(a.len() as int));
    assert(b =~= (b + rest_b).take(a.len() as int));
    assert(rest_a =~= (a + rest_a).skip(a.len() as int));
    assert(rest_b =~= (b + rest_b).skip(a.len() as int));
}

proof fn lemma_u32_field(a: u32, rest_a: Seq<u8>, b: u32, rest_b: Seq<u8>)
    requires
        u32_bytes(a) + rest_a == u32_bytes(b) + rest_b,
    ensures
        a == b,
        rest_a == rest_b,
{
    lemma_byte_spans();
    lemma_le_roundtrip(a as nat, 4);
    lemma_le_roundtrip(b as nat, 4);
    lemma_field(u32_bytes(a), rest_a, u32_bytes(b), rest_b);
}

proof fn lemma_u64_field(a: u64, rest_a: Seq<u8>, b: u64, rest_b: Seq<u8>)
    requires
        u64_bytes(a as int) + rest_a == u64_bytes(b as int) + rest_b,
    ensures
        a == b,
        rest_a == rest_b,
{
    lemma_byte_spans();
    lemma_le_roundtrip(a as nat, 8);
    lemma_le_roundtrip(b as nat, 8);
    lemma_field(u64_bytes(a as int), rest_a, u64_bytes(b as int), rest_b);
}

proof fn lemma_addr_field(a: SocketAddr, rest_a: Seq<u8>, b: SocketAddr, rest_b: Seq<u8>)
    requires
        addr_bytes(a) + rest_a == addr_bytes(b) + rest_b,
    ensures
        a == b,
        rest_a == rest_b,
{
    lemma_byte_spans();
    lemma_le_roundtrip(a.port as nat, 2);
    lemma_le_roundtrip(b.port as nat, 2);
    assert(addr_bytes(a)[0] == (addr_bytes(a) + rest_a)[0]);
    assert(addr_bytes(b)[0] == (addr_bytes(b) + rest_b)[0]);
    let (wide, x, y): (nat, nat, nat) = match (a.ip, b.ip) {
        (IpAddr::V4(x), IpAddr::V4(y)) => (4, x as nat, y as nat),
        (IpAddr::V6(x), IpAddr::V6(y)) => (16, x as nat, y as nat),
        _ => (0, 0, 0),
    };
    lemma_be_roundtrip(x, wide);
    lemma_be_roundtrip(y, wide);
    lemma_field(addr_bytes(a), rest_a, addr_bytes(b), rest_b);
    assert(be_bytes(x, wide) =~= addr_bytes(a).subrange(1, 1 + wide as int));
    assert(be_bytes(y, wide) =~= addr_bytes(b).subrange(1, 1 + wide as int));
    assert(le_bytes(a.port as nat, 2) =~= addr_bytes(a).skip(1 + wide as int));
    assert(le_bytes(b.port as nat, 2) =~= addr_bytes(b).skip(1 + wide as int));
}

/// Nothing that an event says is lost in its bytes: events with one encoding
/// say the same.
pub proof fn law_event_bytes_injective(a: TraceEvent, b: TraceEvent)
    requires
        event_bytes(a) == event_bytes(b),
    ensures
        same_event(a, b),
{
    broadcast use vstd::utf8::encode_utf8_decode_utf8;

    let none = Seq::<u8>::empty();
    assert(event_bytes(a)[0] == event_bytes(b)[0]);
    lemma_field(seq![event_bytes(a)[0]], event_bytes(a).skip(1), seq![event_bytes(b)[0]], event_bytes(
        b,
    ).skip(1));
    match (a, b) {
        (
            TraceEvent::HostSend { host: h1, from: f1, to: t1, len: n1 },
            TraceEvent::HostSend { host: h2, from: f2, to: t2, len: n2 },
        ) => {
            lemma_send_fields(1, h1, f1, t1, n1, h2, f2, t2, n2);
        },
        (
            TraceEvent::Delivered { host: h1, src: f1, dst: t1, len: n1 },
            TraceEvent::Delivered { host: h2, src: f2, dst: t2, len: n2 },
        ) => {
            lemma_send_fields(2, h1, f1, t1, n1, h2, f2, t2, n2);
        },
        (
            TraceEvent::LinkDropped { from: f1, to: t1, len: n1 },
            TraceEvent::LinkDropped { from: f2, to: t2, len: n2 },
        ) => {
            lemma_tag(3, u32_bytes(f1) + (u32_bytes(t1) + u64_bytes(n1 as int)), 3, u32_bytes(f2)
                + (u32_bytes(t2) + u64_bytes(n2 as int)));
            lemma_u32_field(
                f1,
                u32_bytes(t1) + u64_bytes(n1 as int),
                f2,
                u32_bytes(t2) + u64_bytes(n2 as int),
            );
            lemma_u32_field(t1, u64_bytes(n1 as int), t2, u64_bytes(n2 as int));
            lemma_last_u64(n1 as u64, n2 as u64);
        },
        (
            TraceEvent::LinkDuplicated { from: f1, to: t1 },
            TraceEvent::LinkDuplicated { from: f2, to: t2 },
        ) => {
            lemma_link_fields(4, f1, t1, f2, t2);
        },
        (
            TraceEvent::LinkDown { from: f1, to: t1 },
            TraceEvent::LinkDown { from: f2, to: t2 },
        ) => {
            lemma_link_fields(5, f1, t1, f2, t2);
        },
        (
            TraceEvent::MtuDropped { from: f1, to: t1, len: n1, mtu: m1 },
            TraceEvent::MtuDropped { from: f2, to: t2, len: n2, mtu: m2 },
        ) => {
            let r1 = u64_bytes(n1 as int) + u64_bytes(m1 as int);
            let r2 = u64_bytes(n2 as int) + u64_bytes(m2 as int);
            lemma_tag(6, u32_bytes(f1) + (u32_bytes(t1) + r1), 6, u32_bytes(f2) + (u32_bytes(t2)
                + r2));
            lemma_u32_field(f1, u32_bytes(t1) + r1, f2, u32_bytes(t2) + r2);
            lemma_u32_field(t1, r1, t2, r2);
            lemma_u64_field(n1 as u64, u64_bytes(m1 as int), n2 as u64, u64_bytes(m2 as int));
            lemma_last_u64(m1 as u64, m2 as u64);
        },
        (TraceEvent::NoRoute { from: h1, to: t1 }, TraceEvent::NoRoute { from: h2, to: t2 }) => {
            lemma_host_addr_fields(7, h1, t1, h2, t2);
        },
        (
            TraceEvent::NatMapped { host: h1, level: l1, internal: i1, external: e1 },
            TraceEvent::NatMapped { host: h2, level: l2, internal: i2, external: e2 },
        ) => {
            let r1 = addr_bytes(i1) + addr_bytes(e1);
            let r2 = addr_bytes(i2) + addr_bytes(e2);
            lemma_tag(8, u32_bytes(h1) + (seq![l1] + r1), 8, u32_bytes(h2) + (seq![l2] + r2));
            lemma_u32_field(h1, seq![l1] + r1, h2, seq![l2] + r2);
            lemma_tag(l1, r1, l2, r2);
            lemma_addr_field(i1, addr_bytes(e1), i2, addr_bytes(e2));
            lemma_last_addr(e1, e2);
        },
        (
            TraceEvent::NatDropped { host: h1, level: l1, reason: s1 },
            TraceEvent::NatDropped { host: h2, level: l2, reason: s2 },
        ) => {
            let r1 = vstd::utf8::encode_utf8(s1@);
            let r2 = vstd::utf8::encode_utf8(s2@);
            lemma_tag(9, u32_bytes(h1) + (seq![l1] + r1), 9, u32_bytes(h2) + (seq![l2] + r2));
            lemma_u32_field(h1, seq![l1] + r1, h2, seq![l2] + r2);
            lemma_tag(l1, r1, l2, r2);
            assert(vstd::utf8::decode_utf8(r1) == s1@);
            assert(vstd::utf8::decode_utf8(r2) == s2@);
        },
        (TraceEvent::NoSocket { host: h1, dst: t1 }, TraceEvent::NoSocket { host: h2, dst: t2 }) => {
            lemma_host_addr_fields(10, h1, t1, h2, t2);
        },
        (
            TraceEvent::PeerConnected { host: h1, peer: p1, pubkey: k1 },
            TraceEvent::PeerConnected { host: h2, peer: p2, pubkey: k2 },
        ) => {
            let r1 = match k1 {
                Some(pubkey) => seq![1u8] + pubkey.bytes(),
                None => seq![0u8],
            };
            let r2 = match k2 {
                Some(pubkey) => seq![1u8] + pubkey.bytes(),
                None => seq![0u8],
            };
            lemma_tag(11, u32_bytes(h1) + (addr_bytes(p1) + r1), 11, u32_bytes(h2) + (addr_bytes(p2)
                + r2));
            lemma_u32_field(h1, addr_bytes(p1) + r1, h2, addr_bytes(p2) + r2);
            lemma_addr_field(p1, r1, p2, r2);
            assert(r1[0] == r2[0]);
            if let (Some(x), Some(y)) = (k1, k2) {
                lemma_tag(1, x.bytes(), 1, y.bytes());
                Pubkey::lemma_bytes_injective(x, y);
            }
        },
        (
            TraceEvent::PeerDisconnected { host: h1, peer: t1 },
            TraceEvent::PeerDisconnected { host: h2, peer: t2 },
        ) => {
            lemma_host_addr_fields(12, h1, t1, h2, t2);
        },
        (
            TraceEvent::ShredDelivered { host: h1, payload_hash: n1 },
            TraceEvent::ShredDelivered { host: h2, payload_hash: n2 },
        ) => {
            lemma_tag(13, u32_bytes(h1) + u64_bytes(n1 as int), 13, u32_bytes(h2) + u64_bytes(
                n2 as int,
            ));
            lemma_u32_field(h1, u64_bytes(n1 as int), h2, u64_bytes(n2 as int));
            lemma_last_u64(n1, n2);
        },
        (TraceEvent::HostDown { host: h1 }, TraceEvent::HostDown { host: h2 }) => {
            lemma_tag(14, u32_bytes(h1), 14, u32_bytes(h2));
            lemma_last_u32(h1, h2);
        },
        (TraceEvent::HostUp { host: h1 }, TraceEvent::HostUp { host: h2 }) => {
            lemma_tag(15, u32_bytes(h1), 15, u32_bytes(h2));
            lemma_last_u32(h1, h2);
        },
        (
            TraceEvent::AppDatagram { host: h1, from: f1, payload_hash: n1 },
            TraceEvent::AppDatagram { host: h2, from: f2, payload_hash: n2 },
        ) => {
            let r1 = addr_bytes(f1) + u64_bytes(n1 as int);
            let r2 = addr_bytes(f2) + u64_bytes(n2 as int);
            lemma_tag(16, u32_bytes(h1) + r1, 16, u32_bytes(h2) + r2);
            lemma_u32_field(h1, r1, h2, r2);
            lemma_addr_field(f1, u64_bytes(n1 as int), f2, u64_bytes(n2 as int));
            lemma_last_u64(n1, n2);
        },
        (
            TraceEvent::RepairServed { host: h1, slot: s1, index: i1, highest: a1, found: b1 },
            TraceEvent::RepairServed { host: h2, slot: s2, index: i2, highest: a2, found: b2 },
        ) => {
            let f1 = flag(a1) + flag(b1);
            let f2 = flag(a2) + flag(b2);
            let r1 = u64_bytes(s1 as int) + (u32_bytes(i1) + f1);
            let r2 = u64_bytes(s2 as int) + (u32_bytes(i2) + f2);
            lemma_tag(17, u32_bytes(h1) + r1, 17, u32_bytes(h2) + r2);
            lemma_u32_field(h1, r1, h2, r2);
            lemma_u64_field(s1, u32_bytes(i1) + f1, s2, u32_bytes(i2) + f2);
            lemma_u32_field(i1, f1, i2, f2);
            assert(f1[0] == f2[0]);
            assert(f1[1] == f2[1]);
        },
        (
            TraceEvent::RepairConcluded { host: h1, found: b1 },
            TraceEvent::RepairConcluded { host: h2, found: b2 },
        ) => {
            lemma_tag(18, u32_bytes(h1) + flag(b1), 18, u32_bytes(h2) + flag(b2));
            lemma_u32_field(h1, flag(b1), h2, flag(b2));
            assert(flag(b1)[0] == flag(b2)[0]);
        },
        (TraceEvent::RepairFailed { host: h1 }, TraceEvent::RepairFailed { host: h2 }) => {
            lemma_tag(19, u32_bytes(h1), 19, u32_bytes(h2));
            lemma_last_u32(h1, h2);
        },
        _ => {
            assert(false);
        },
    }
}

proof fn lemma_tag(a: u8, rest_a: Seq<u8>, b: u8, rest_b: Seq<u8>)
    requires
        seq![a] + rest_a == seq![b] + rest_b,
    ensures
        a == b,
        rest_a == rest_b,
{
    lemma_field(seq![a], rest_a, seq![b], rest_b);
    assert(seq![a][0] == seq![b][0]);
}

proof fn lemma_last_u32(a: u32, b: u32)
    requires
        u32_bytes(a) == u32_bytes(b),
    ensures
        a == b,
{
    lemma_byte_spans();
    lemma_le_roundtrip(a as nat, 4);
    lemma_le_roundtrip(b as nat, 4);
}

proof fn lemma_last_u64(a: u64, b: u64)
    requires
        u64_bytes(a as int) == u64_bytes(b as int),
    ensures
        a == b,
{
    lemma_byte_spans();
    lemma_le_roundtrip(a as nat, 8);
    lemma_le_roundtrip(b as nat, 8);
}

proof fn lemma_last_addr(a: SocketAddr, b: SocketAddr)
    requires
        addr_bytes(a) == addr_bytes(b),
    ensures
        a == b,
{
    let none = Seq::<u8>::empty();
    lemma_addr_field(a, none, b, none);
}

proof fn lemma_link_fields(tag: u8, f1: u32, t1: u32, f2: u32, t2: u32)
    requires
        seq![tag] + (u32_bytes(f1) + u32_bytes(t1)) == seq![tag] + (u32_bytes(f2) + u32_bytes(t2)),
    ensures
        f1 == f2,
        t1 == t2,
{
    lemma_tag(tag, u32_bytes(f1) + u32_bytes(t1), tag, u32_bytes(f2) + u32_bytes(t2));
    lemma_u32_field(f1, u32_bytes(t1), f2, u32_bytes(t2));
    lemma_last_u32(t1, t2);
}

proof fn lemma_host_addr_fields(tag: u8, h1: u32, a1: SocketAddr, h2: u32, a2: SocketAddr)
    requires
        seq![tag] + (u32_bytes(h1) + addr_bytes(a1)) == seq![tag] + (u32_bytes(h2) + addr_bytes(
            a2,
        )),
    ensures
        h1 == h2,
        a1 == a2,
{
    lemma_tag(tag, u32_bytes(h1) + addr_bytes(a1), tag, u32_bytes(h2) + addr_bytes(a2));
    lemma_u32_field(h1, addr_bytes(a1), h2, addr_bytes(a2));
    lemma_last_addr(a1, a2);
}

proof fn lemma_send_fields(
    tag: u8,
    h1: u32,
    f1: SocketAddr,
    t1: SocketAddr,
    n1: usize,
    h2: u32,
    f2: SocketAddr,
    t2: SocketAddr,
    n2: usize,
)
    requires
        seq![tag] + (u32_bytes(h1) + (addr_bytes(f1) + (addr_bytes(t1) + u64_bytes(n1 as int))))
            == seq![tag] + (u32_bytes(h2) + (addr_bytes(f2) + (addr_bytes(t2) + u64_bytes(
            n2 as int,
        )))),
    ensures
        h1 == h2,
        f1 == f2,
        t1 == t2,
        n1 == n2,
{
    let r1 = addr_bytes(t1) + u64_bytes(n1 as int);
    let r2 = addr_bytes(t2) + u64_bytes(n2 as int);
    lemma_tag(
        tag,
        u32_bytes(h1) + (addr_bytes(f1) + r1),
        tag,
        u32_bytes(h2) + (addr_bytes(f2) + r2),
    );
    lemma_u32_field(h1, addr_bytes(f1) + r1, h2, addr_bytes(f2) + r2);
    lemma_addr_field(f1, r1, f2, r2);
    lemma_addr_field(t1, u64_bytes(n1 as int), t2, u64_bytes(n2 as int));
    lemma_last_u64(n1 as u64, n2 as u64);
}

/// Records with one encoding are of one time and say the same.
pub proof fn law_record_bytes_injective(t1: u64, a: TraceEvent, t2: u64, b: TraceEvent)
    requires
        record_bytes(t1, a) == record_bytes(t2, b),
    ensures
        t1 == t2,
        same_event(a, b),
{
    lemma_u64_field(t1, event_bytes(a), t2, event_bytes(b));
    law_event_bytes_injective(a, b);
}

/// The trace after a run of records.
pub open spec fn traced(start: TraceView, records: Seq<(u64, TraceEvent)>) -> TraceView
    decreases records.len(),
{
    if records.len() == 0 {
        start
    } else {
        traced(start, records.drop_last()).recorded(records.last().0, records.last().1)
    }
}

/// One sequence of records gives one hash: replaying what was recorded, in
/// two parts or in one, ends in the same state.
pub proof fn law_replay(start: TraceView, first: Seq<(u64, TraceEvent)>, rest: Seq<(u64, TraceEvent)>)
    ensures
        traced(traced(start, first), rest) == traced(start, first + rest),
    decreases rest.len(),
{
    if rest.len() == 0 {
        assert(first + rest =~= first);
    } else {
        law_replay(start, first, rest.drop_last());
        assert((first + rest).drop_last() =~= first + rest.drop_last());
    }
}

/// The hash after an event is of the hash before it, of the time and of the event;
/// the event is counted and kept behind those before it.
pub proof fn law_hash_takes_the_event_in(t: TraceView, nanos: u64, event: TraceEvent, m: Seq<u8>)
    requires
        t.state.len() == 32,
        m.len() == 40 + event_bytes(event).len(),
        m.subrange(0, 32) == t.state,
        m.subrange(32, 40) == le_bytes(nanos as nat, 8),
        m.skip(40) == event_bytes(event),
    ensures
        t.recorded(nanos, event).state == sha256_of(m),
        t.recorded(nanos, event).records == t.records.push((nanos, event)),
        t.events < u64::MAX ==> t.recorded(nanos, event).events == t.events + 1,
{
    crate::codec::lemma_le_len(nanos as nat, 8);
    let x = t.state + record_bytes(nanos, event);
    assert forall|i: int| 0 <= i < m.len() implies #[trigger] m[i] == x[i] by {
        if i < 32 {
            assert(m[i] == m.subrange(0, 32)[i]);
        } else if i < 40 {
            assert(m[i] == m.subrange(32, 40)[i - 32]);
        } else {
            assert(m[i] == m.skip(40)[i - 40]);
        }
    }
    assert(m =~= x);
}

/// A hash is spelled with two digits for each byte, the high one first.
pub proof fn law_hex_spells_the_bytes(bytes: Seq<u8>, i: int)
    requires
        0 <= i < bytes.len(),
    ensures
        ({
            let digits = seq![
                '0',
                '1',
                '2',
                '3',
                '4',
                '5',
                '6',
                '7',
                '8',
                '9',
                'a',
                'b',
                'c',
                'd',
                'e',
                'f',
            ];
            &&& hex_of(bytes).len() == 2 * bytes.len()
            &&& hex_of(bytes)[2 * i] == digits[bytes[i] as int / 16]
            &&& hex_of(bytes)[2 * i + 1] == digits[bytes[i] as int % 16]
        }),
    decreases bytes.len(),
{
    let high = bytes[i] as int / 16;
    let low = bytes[i] as int % 16;
    lemma_hex_len(bytes);
    lemma_hex_len(bytes.drop_last());
    assert(hex_char(0) == '0' && hex_char(1) == '1' && hex_char(2) == '2' && hex_char(3) == '3');
    assert(hex_char(4) == '4' && hex_char(5) == '5' && hex_char(6) == '6' && hex_char(7) == '7');
    assert(hex_char(8) == '8' && hex_char(9) == '9' && hex_char(10) == 'a' && hex_char(11) == 'b');
    assert(hex_char(12) == 'c' && hex_char(13) == 'd' && hex_char(14) == 'e' && hex_char(15)
        == 'f');
    assert(0 <= high < 16 && 0 <= low < 16);
    if i < bytes.len() - 1 {
        law_hex_spells_the_bytes(bytes.drop_last(), i);
    } else if bytes.len() > 1 {
        law_hex_spells_the_bytes(bytes.drop_last(), i - 1);
    }
}

} // verus!
