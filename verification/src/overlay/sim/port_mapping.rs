//! What a gateway answers to those who ask it for a port, and what it does for
//! them.

use vstd::prelude::*;
use crate::addr::{IpAddr, SocketAddr};
use crate::codec::{
    be_bytes, from_be, lemma_be_len, lemma_be_roundtrip, lemma_byte_spans, lemma_from_be_bound,
};
use crate::overlay::sim::gateway::{
    announced, http_request, ip_as_16, ip_in_16, lemma_lit_lens, length_header, natpmp_mapped,
    pcp_answer, tiers_config, xml_ip, xml_value, GatewayView, HttpView, Outcome, TierMode,
};
use crate::overlay::sim::nat_box::{FirewallView, NatView};
use crate::text::{
    find_from, law_find_is_the_first, lit, number, same_ignoring_case, stands_at, trimmed,
    two_words,
};
use crate::time::Duration;

verus! {

/// What a PCP answer says: it succeeded or why not, for how long, since when the
/// gateway counts, to which request, and which address and port were assigned.
pub open spec fn pcp_says(
    answer: Seq<u8>,
    request: Seq<u8>,
    result: u8,
    secs: nat,
    now: u64,
    port: u16,
    ip: IpAddr,
) -> bool {
    &&& answer.len() == 60
    &&& answer[0] == 2
    &&& answer[1] == 0x81
    &&& answer[3] == result
    &&& from_be(answer.subrange(4, 8)) == secs
    &&& from_be(answer.subrange(8, 12)) == now / 1_000_000_000 % 0x1_0000_0000
    &&& answer.subrange(24, 36) == request.subrange(24, 36)
    &&& answer[36] == request[36]
    &&& answer.subrange(40, 42) == request.subrange(40, 42)
    &&& from_be(answer.subrange(42, 44)) == port
    &&& from_be(answer.subrange(44, 60)) == (match ip {
        IpAddr::V4(n) => 0xffff_0000_0000 + n as int,
        IpAddr::V6(n) => n as int,
    })
}

/// A PCP answer says what it was made to say.
pub proof fn law_pcp_answer_is_read(
    request: Seq<u8>,
    result: u8,
    secs: nat,
    now: u64,
    port: u16,
    ip: IpAddr,
)
    requires
        request.len() == 60,
        secs < 0x1_0000_0000,
    ensures
        pcp_says(
            pcp_answer(request, result, secs, now, port, ip),
            request,
            result,
            secs,
            now,
            port,
            ip,
        ),
{
    let a = pcp_answer(request, result, secs, now, port, ip);
    let epoch = crate::overlay::sim::gateway::epoch_of(now);
    let wide = ip_as_16(ip);
    lemma_byte_spans();
    lemma_be_roundtrip(secs, 4);
    lemma_be_roundtrip(epoch, 4);
    lemma_be_roundtrip(port as nat, 2);
    lemma_be_roundtrip(wide as nat, 16);
    assert(a.len() == 60);
    assert(a.subrange(4, 8) =~= be_bytes(secs, 4));
    assert(a.subrange(8, 12) =~= be_bytes(epoch, 4));
    assert(a.subrange(24, 36) =~= request.subrange(24, 36));
    assert(a.subrange(40, 42) =~= request.subrange(40, 42));
    assert(a.subrange(42, 44) =~= be_bytes(port as nat, 2));
    assert(a.subrange(44, 60) =~= be_bytes(wide as nat, 16));
}

/// The lease that is asked for, in nanoseconds, but no longer than the gateway
/// grants.
pub open spec fn shorter(secs: nat, lease: Duration) -> Duration {
    if secs * 1_000_000_000 <= lease.nanos {
        Duration { nanos: (secs * 1_000_000_000) as u64 }
    } else {
        lease
    }
}

/// A request for a port over PCP that an IPv4 client makes. Where the gateway
/// grants, the box leases the port that was asked for to the client's address, for
/// what was asked at most, and the answer says which port that is; where it
/// refuses or lies, nothing happens to the box.
pub proof fn law_pcp_leases(
    g: GatewayView,
    now: u64,
    src: SocketAddr,
    payload: Seq<u8>,
    st: NatView,
    firewall: Option<FirewallView>,
)
    requires
        payload.len() == 60,
        payload[1] % 128 == 1,
        ip_in_16(from_be(payload.subrange(8, 24)) as u128) is V4,
        g.stats.grants < u64::MAX,
        g.stats.denials < u64::MAX,
        g.stats.pcp_requests < u64::MAX,
        g.config.lease.nanos < 4_294_967_296_000_000_000,
    ensures
        ({
            let r = g.pcp(now, src, payload, st, firewall);
            let asked = from_be(payload.subrange(4, 8));
            let port = from_be(payload.subrange(40, 42)) as u16;
            let wanted = from_be(payload.subrange(42, 44)) as u16;
            let lease = shorter(asked, g.config.lease);
            let secs = (lease.nanos / 1_000_000_000) as nat;
            let (assigned, leased) = st.leased(
                now,
                SocketAddr { ip: src.ip, port },
                wanted,
                lease,
            );
            let client = ip_in_16(from_be(payload.subrange(8, 24)) as u128);
            &&& r.firewall == firewall
            &&& r.gateway.stats.pcp_requests == g.stats.pcp_requests + 1
            &&& r.gateway.bufs == g.bufs
            &&& match g.config.pcp {
                TierMode::Grant => match assigned {
                    Some(given) => {
                        &&& r.nat_box == leased
                        &&& r.answer is Some
                        &&& pcp_says(r.answer->0, payload, 0, secs, now, given, st.external_ip)
                        &&& r.gateway.stats.grants == g.stats.grants + 1
                        &&& r.gateway.stats.denials == g.stats.denials
                    },
                    None => {
                        &&& r.answer is Some
                        &&& pcp_says(r.answer->0, payload, 8, 0, now, 0, st.external_ip)
                        &&& r.gateway.stats.denials == g.stats.denials + 1
                        &&& r.gateway.stats.grants == g.stats.grants
                    },
                },
                TierMode::Deny => {
                    &&& r.nat_box == st
                    &&& r.answer is Some
                    &&& pcp_says(r.answer->0, payload, 2, 0, now, 0, client)
                    &&& r.gateway.stats.denials == g.stats.denials + 1
                },
                TierMode::GrantFake => {
                    &&& r.nat_box == st
                    &&& r.answer is Some
                    &&& pcp_says(
                        r.answer->0,
                        payload,
                        0,
                        secs,
                        now,
                        if wanted != 0 {
                            wanted
                        } else {
                            port
                        },
                        st.external_ip,
                    )
                    &&& r.gateway.stats.grants == g.stats.grants + 1
                },
                TierMode::Malformed => r.nat_box == st && r.answer is Some && (
                r.answer->0).len() < 24,
                TierMode::Off => r.nat_box == st && r.answer is None,
            }
        }),
{
    let asked = from_be(payload.subrange(4, 8));
    lemma_byte_spans();
    lemma_from_be_bound(payload.subrange(4, 8));
    let port = from_be(payload.subrange(40, 42)) as u16;
    let wanted = from_be(payload.subrange(42, 44)) as u16;
    let client = ip_in_16(from_be(payload.subrange(8, 24)) as u128);
    let lease = shorter(asked, g.config.lease);
    let secs = (lease.nanos / 1_000_000_000) as nat;
    assert(g.granted_lease(asked) == lease);
    assert(secs < 0x1_0000_0000);
    let (assigned, leased) = st.leased(now, SocketAddr { ip: src.ip, port }, wanted, lease);
    law_pcp_answer_is_read(payload, 2, 0, now, 0, client);
    law_pcp_answer_is_read(payload, 8, 0, now, 0, st.external_ip);
    law_pcp_answer_is_read(payload, 0, secs, now, wanted, st.external_ip);
    law_pcp_answer_is_read(payload, 0, secs, now, port, st.external_ip);
    if assigned is Some {
        law_pcp_answer_is_read(payload, 0, secs, now, assigned->0, st.external_ip);
    }
}

/// A request over PCP that an IPv6 client makes opens a pinhole to its port, for
/// what was asked at most, where the gateway grants pinholes, and else none. The
/// box is left alone.
pub proof fn law_pcp_opens_pinholes(
    g: GatewayView,
    now: u64,
    src: SocketAddr,
    payload: Seq<u8>,
    st: NatView,
    f: FirewallView,
)
    requires
        payload.len() == 60,
        payload[1] % 128 == 1,
        ip_in_16(from_be(payload.subrange(8, 24)) as u128) is V6,
        now + g.config.lease.nanos <= u64::MAX,
        g.config.lease.nanos < 4_294_967_296_000_000_000,
    ensures
        ({
            let r = g.pcp(now, src, payload, st, Some(f));
            let mode = match g.config.pcp_v6_pinhole {
                Some(mode) => mode,
                None => g.config.pcp,
            };
            let asked = from_be(payload.subrange(4, 8));
            let port = from_be(payload.subrange(40, 42)) as u16;
            let lease = shorter(asked, g.config.lease);
            let client = ip_in_16(from_be(payload.subrange(8, 24)) as u128);
            &&& r.nat_box == st
            &&& mode is Grant ==> (r.firewall matches Some(after) && after.pinholes
                == f.pinholes.insert(port, (now + lease.nanos) as u64) && after.flows == f.flows)
            &&& !(mode is Grant) ==> r.firewall == Some(f)
            &&& mode is Grant || mode is GrantFake ==> r.answer is Some && pcp_says(
                r.answer->0,
                payload,
                0,
                (lease.nanos / 1_000_000_000) as nat,
                now,
                port,
                client,
            )
            &&& mode is Deny ==> r.answer is Some && pcp_says(
                r.answer->0,
                payload,
                2,
                0,
                now,
                0,
                client,
            )
            &&& mode is Off ==> r.answer is None
        }),
{
    let asked = from_be(payload.subrange(4, 8));
    lemma_byte_spans();
    lemma_from_be_bound(payload.subrange(4, 8));
    let port = from_be(payload.subrange(40, 42)) as u16;
    let client = ip_in_16(from_be(payload.subrange(8, 24)) as u128);
    let lease = shorter(asked, g.config.lease);
    let secs = (lease.nanos / 1_000_000_000) as nat;
    assert(g.granted_lease(asked) == lease);
    law_pcp_answer_is_read(payload, 2, 0, now, 0, client);
    law_pcp_answer_is_read(payload, 0, secs, now, port, client);
}

/// What a NAT-PMP answer to a request for a port says.
pub open spec fn natpmp_says(
    answer: Seq<u8>,
    result: u16,
    now: u64,
    port: u16,
    given: u16,
    secs: nat,
) -> bool {
    &&& answer.len() == 16
    &&& answer[0] == 0
    &&& answer[1] == 129
    &&& from_be(answer.subrange(2, 4)) == result
    &&& from_be(answer.subrange(4, 8)) == now / 1_000_000_000 % 0x1_0000_0000
    &&& from_be(answer.subrange(8, 10)) == port
    &&& from_be(answer.subrange(10, 12)) == given
    &&& from_be(answer.subrange(12, 16)) == secs
}

/// A NAT-PMP answer says what it was made to say.
pub proof fn law_natpmp_answer_is_read(
    result: u16,
    now: u64,
    port: u16,
    given: u16,
    secs: nat,
)
    requires
        secs < 0x1_0000_0000,
    ensures
        natpmp_says(
            natpmp_mapped(result, now, port, given, secs),
            result,
            now,
            port,
            given,
            secs,
        ),
{
    let a = natpmp_mapped(result, now, port, given, secs);
    let epoch = crate::overlay::sim::gateway::epoch_of(now);
    lemma_byte_spans();
    lemma_be_roundtrip(result as nat, 2);
    lemma_be_roundtrip(epoch, 4);
    lemma_be_roundtrip(port as nat, 2);
    lemma_be_roundtrip(given as nat, 2);
    lemma_be_roundtrip(secs, 4);
    assert(a.len() == 16);
    assert(a.subrange(2, 4) =~= be_bytes(result as nat, 2));
    assert(a.subrange(4, 8) =~= be_bytes(epoch, 4));
    assert(a.subrange(8, 10) =~= be_bytes(port as nat, 2));
    assert(a.subrange(10, 12) =~= be_bytes(given as nat, 2));
    assert(a.subrange(12, 16) =~= be_bytes(secs, 4));
}

/// A request for a port over NAT-PMP, as over PCP.
pub proof fn law_natpmp_leases(
    g: GatewayView,
    now: u64,
    src: SocketAddr,
    payload: Seq<u8>,
    st: NatView,
)
    requires
        payload.len() == 12,
        payload[1] == 1,
        g.stats.grants < u64::MAX,
        g.stats.denials < u64::MAX,
        g.stats.natpmp_requests < u64::MAX,
        g.config.lease.nanos < 4_294_967_296_000_000_000,
    ensures
        ({
            let r = g.natpmp(now, src, payload, st);
            let port = from_be(payload.subrange(4, 6)) as u16;
            let wanted = from_be(payload.subrange(6, 8)) as u16;
            let asked = from_be(payload.subrange(8, 12));
            let lease = shorter(asked, g.config.lease);
            let secs = (lease.nanos / 1_000_000_000) as nat;
            let (assigned, leased) = st.leased(
                now,
                SocketAddr { ip: src.ip, port },
                wanted,
                lease,
            );
            &&& r.gateway.stats.natpmp_requests == g.stats.natpmp_requests + 1
            &&& match g.config.natpmp {
                TierMode::Grant => match assigned {
                    Some(given) => {
                        &&& r.nat_box == leased
                        &&& r.answer is Some
                        &&& natpmp_says(r.answer->0, 0, now, port, given, secs)
                        &&& r.gateway.stats.grants == g.stats.grants + 1
                    },
                    None => {
                        &&& r.answer is Some
                        &&& natpmp_says(r.answer->0, 2, now, port, 0, 0)
                        &&& r.gateway.stats.denials == g.stats.denials + 1
                    },
                },
                TierMode::Deny => {
                    &&& r.nat_box == st
                    &&& r.answer is Some
                    &&& natpmp_says(r.answer->0, 2, now, port, 0, 0)
                    &&& r.gateway.stats.denials == g.stats.denials + 1
                },
                TierMode::GrantFake => {
                    &&& r.nat_box == st
                    &&& r.answer is Some
                    &&& natpmp_says(
                        r.answer->0,
                        0,
                        now,
                        port,
                        if wanted != 0 {
                            wanted
                        } else {
                            port
                        },
                        secs,
                    )
                    &&& r.gateway.stats.grants == g.stats.grants + 1
                },
                TierMode::Malformed => r.nat_box == st && r.answer is Some && (
                r.answer->0).len() < 8,
                TierMode::Off => r.nat_box == st && r.answer is None,
            }
        }),
{
    let port = from_be(payload.subrange(4, 6)) as u16;
    let wanted = from_be(payload.subrange(6, 8)) as u16;
    let asked = from_be(payload.subrange(8, 12));
    lemma_byte_spans();
    lemma_from_be_bound(payload.subrange(8, 12));
    let lease = shorter(asked, g.config.lease);
    let secs = (lease.nanos / 1_000_000_000) as nat;
    assert(g.granted_lease(asked) == lease);
    assert(secs < 0x1_0000_0000);
    let (assigned, leased) = st.leased(now, SocketAddr { ip: src.ip, port }, wanted, lease);
    law_natpmp_answer_is_read(2, now, port, 0, 0);
    law_natpmp_answer_is_read(0, now, port, wanted, secs);
    law_natpmp_answer_is_read(0, now, port, port, secs);
    if assigned is Some {
        law_natpmp_answer_is_read(0, now, port, assigned->0, secs);
    }
}

/// Asked for its address over NAT-PMP, a gateway that does not refuse tells the
/// box's.
pub proof fn law_natpmp_tells_the_address(
    g: GatewayView,
    now: u64,
    src: SocketAddr,
    payload: Seq<u8>,
    st: NatView,
)
    requires
        payload.len() == 2,
        payload[1] == 0,
        g.config.natpmp is Grant || g.config.natpmp is GrantFake,
        st.external_ip is V4,
    ensures
        ({
            let r = g.natpmp(now, src, payload, st);
            &&& r.nat_box == st
            &&& r.answer is Some
            &&& (r.answer->0).len() == 12
            &&& (r.answer->0)[1] == 128
            &&& from_be((r.answer->0).subrange(2, 4)) == 0
            &&& IpAddr::V4(from_be((r.answer->0).subrange(8, 12)) as u32) == st.external_ip
        }),
{
    let ip = st.external_ip->V4_0;
    let epoch = crate::overlay::sim::gateway::epoch_of(now);
    let a = g.natpmp(now, src, payload, st).answer->0;
    lemma_byte_spans();
    lemma_be_len(epoch, 4);
    lemma_be_roundtrip(0, 2);
    lemma_be_roundtrip(ip as nat, 4);
    assert(a.subrange(2, 4) =~= be_bytes(0, 2));
    assert(a.subrange(8, 12) =~= be_bytes(ip as nat, 4));
}

/// A datagram goes to the protocol of its port and version: 5351 is for PCP, which
/// is version 2, and for NAT-PMP, which is version 0; 1900 is for discovery. All
/// others are left alone.
pub proof fn law_gateway_goes_by_port(
    g: GatewayView,
    now: u64,
    src: SocketAddr,
    dst: SocketAddr,
    payload: Seq<u8>,
    st: NatView,
    firewall: Option<FirewallView>,
)
    requires
        payload.len() > 0,
    ensures
        ({
            let r = g.udp(now, src, dst, payload, st, firewall);
            &&& dst.port == 5351 && payload[0] == 2 ==> r == g.pcp(
                now,
                src,
                payload,
                st,
                firewall,
            )
            &&& dst.port == 5351 && payload[0] == 0 ==> r.answer == g.natpmp(
                now,
                src,
                payload,
                st,
            ).answer && r.nat_box == g.natpmp(now, src, payload, st).nat_box && r.firewall
                == firewall
            &&& dst.port == 1900 ==> r.answer == g.ssdp(payload).0 && r.nat_box == st
                && r.firewall == firewall
            &&& dst.port != 5351 && dst.port != 1900 || dst.port == 5351 && payload[0] != 0
                && payload[0] != 2 ==> r == (Outcome {
                answer: None,
                gateway: g,
                nat_box: st,
                firewall,
            })
        }),
{
}

/// A value stands between its tags.
pub proof fn law_xml_value_is_between(
    start: Seq<u8>,
    tag: Seq<char>,
    value: Seq<u8>,
    end: Seq<u8>,
)
    requires
        ({
            let open = lit("<"@) + lit(tag) + lit(">"@);
            let close = lit("</"@) + lit(tag) + lit(">"@);
            let body = start + open + value + close + end;
            &&& forall|i: int| 0 <= i < start.len() ==> !#[trigger] stands_at(body, open, i)
            &&& forall|i: int|
                start.len() + open.len() <= i < start.len() + open.len() + value.len()
                    ==> !#[trigger] stands_at(body, close, i)
        }),
    ensures
        ({
            let open = lit("<"@) + lit(tag) + lit(">"@);
            let close = lit("</"@) + lit(tag) + lit(">"@);
            xml_value(start + open + value + close + end, tag) == Some(trimmed(value))
        }),
{
    let open = lit("<"@) + lit(tag) + lit(">"@);
    let close = lit("</"@) + lit(tag) + lit(">"@);
    let body = start + open + value + close + end;
    let a = start.len() as int;
    let b = a + open.len();
    let c = b + value.len();
    assert(body.subrange(a, b) =~= open);
    assert(stands_at(body, open, a));
    law_find_is_the_first(body, open, 0);
    let x = find_from(body, open, 0)->0;
    if x < a {
        assert(!stands_at(body, open, x));
    }
    assert(x == a);
    assert(body.subrange(c, c + close.len()) =~= close);
    assert(stands_at(body, close, c));
    law_find_is_the_first(body, close, b);
    let y = find_from(body, close, b)->0;
    if y < c {
        assert(!stands_at(body, close, y));
    }
    assert(y == c);
    assert(body.subrange(b, c) =~= value);
}

/// How a request is cut into chunks makes no difference: it is answered when the
/// last of it is there, as if it had come in one.
pub proof fn law_chunks_make_no_difference(
    g: GatewayView,
    now: u64,
    conn: u64,
    first: Seq<u8>,
    second: Seq<u8>,
    st: NatView,
)
    requires
        g.bufs.dom().contains(conn),
        (g.bufs[conn] + first).len() <= 65536,
        http_request(g.bufs[conn] + first) is None,
    ensures
        ({
            let one = g.received(now, conn, first, st);
            &&& one.answer is None
            &&& one.nat_box == st
            &&& one.gateway.received(now, conn, second, st) == g.received(
                now,
                conn,
                first + second,
                st,
            )
        }),
{
    let one = g.received(now, conn, first, st);
    let buf = g.bufs[conn] + first;
    assert(buf + second =~= g.bufs[conn] + (first + second));
    assert(one.gateway.bufs =~= g.bufs.insert(conn, buf));
    let all = buf + second;
    assert(one.gateway.bufs.remove(conn) =~= g.bufs.remove(conn));
    assert(one.gateway.bufs.insert(conn, all) =~= g.bufs.insert(conn, all));
    if http_request(all) is Some {
        let n = (http_request(all)->0).1;
        assert(one.gateway.bufs.insert(conn, all.skip(n)) =~= g.bufs.insert(conn, all.skip(n)));
    }
}

/// A connection that sends more than 65536 bytes without a request is given up,
/// and what comes on one that is not open is not answered.
pub proof fn law_too_long_is_given_up(
    g: GatewayView,
    now: u64,
    conn: u64,
    bytes: Seq<u8>,
    st: NatView,
)
    requires
        !g.bufs.dom().contains(conn) || (g.bufs[conn] + bytes).len() > 65536,
    ensures
        ({
            let r = g.received(now, conn, bytes, st);
            &&& r.answer is None
            &&& r.nat_box == st
            &&& !r.gateway.bufs.dom().contains(conn)
        }),
{
}

/// The number that a field of a request holds, if it is no larger than may be.
pub open spec fn field_number(body: Seq<u8>, tag: Seq<char>, max: nat) -> Option<nat> {
    match xml_value(body, tag) {
        Some(value) => number(value, max),
        None => None,
    }
}

/// A request for a port over UPnP. Where the gateway grants, the box leases the
/// port to the client that is named, for what was asked at most, and for as long as
/// the gateway grants where nothing was; if that port is taken, the request is
/// refused, and no other is left leased. Where it refuses or lies, nothing happens
/// to the box.
pub proof fn law_upnp_leases(g: GatewayView, now: u64, body: Seq<u8>, st: NatView, client: IpAddr)
    requires
        field_number(body, "NewExternalPort"@, 0xffff) is Some,
        field_number(body, "NewInternalPort"@, 0xffff) is Some,
        xml_ip(body, "NewInternalClient"@) == Some(client),
        g.stats.grants < u64::MAX,
        g.stats.denials < u64::MAX,
    ensures
        ({
            let r = g.add_mapping(now, body, st);
            let wanted = field_number(body, "NewExternalPort"@, 0xffff)->0 as u16;
            let port = field_number(body, "NewInternalPort"@, 0xffff)->0 as u16;
            let asked = field_number(body, "NewLeaseDuration"@, 0xffff_ffff);
            let lease = if asked matches Some(secs) && secs > 0 {
                shorter(asked->0, g.config.lease)
            } else {
                g.config.lease
            };
            let (assigned, leased) = st.leased(now, SocketAddr { ip: client, port }, wanted, lease);
            &&& g.config.upnp is Grant ==> {
                &&& assigned == Some(wanted) ==> {
                    &&& r.nat_box == leased
                    &&& r.gateway.stats.grants == g.stats.grants + 1
                    &&& r.gateway.stats.denials == g.stats.denials
                }
                &&& assigned != Some(wanted) ==> {
                    &&& r.gateway.stats.grants == g.stats.grants
                    &&& r.gateway.stats.denials == g.stats.denials + 1
                    &&& assigned matches Some(other) ==> !r.nat_box.statics.dom().contains(other)
                    &&& assigned is None ==> r.nat_box == leased
                }
            }
            &&& g.config.upnp is Deny ==> r.nat_box == st && r.gateway.stats.denials
                == g.stats.denials + 1 && r.gateway.stats.grants == g.stats.grants
            &&& g.config.upnp is GrantFake ==> r.nat_box == st && r.gateway.stats.grants
                == g.stats.grants + 1
            &&& r.answer is Some
            &&& r.gateway.bufs == g.bufs
        }),
{
    let asked = field_number(body, "NewLeaseDuration"@, 0xffff_ffff);
    if asked is Some {
        assert(asked->0 <= 0xffff_ffff);
        assert(g.granted_lease(asked->0) == shorter(asked->0, g.config.lease));
    }
}

/// A request over UPnP that leaves out what it takes is refused, and changes
/// nothing.
pub proof fn law_upnp_needs_all_fields(g: GatewayView, now: u64, body: Seq<u8>, st: NatView)
    requires
        !(g.config.upnp is Deny),
        field_number(body, "NewExternalPort"@, 0xffff) is None || field_number(
            body,
            "NewInternalPort"@,
            0xffff,
        ) is None || xml_ip(body, "NewInternalClient"@) is None,
    ensures
        g.add_mapping(now, body, st).nat_box == st,
        g.add_mapping(now, body, st).gateway == g,
{
}

/// Only a request to the control address that asks for a mapping can change the
/// box, and only where the gateway grants.
pub proof fn law_only_mappings_change_the_box(
    g: GatewayView,
    now: u64,
    request: HttpView,
    st: NatView,
)
    requires
        request.method != lit("POST"@) || request.path != lit("/ctl/IPConn"@) || find_from(
            request.body,
            lit("AddPortMapping"@),
            0,
        ) is None || find_from(request.body, lit("GetExternalIPAddress"@), 0) is Some || !(
        g.config.upnp is Grant),
    ensures
        g.http(now, request, st).nat_box == st,
{
}

/// A gateway that speaks UPnP is found by those who search for it.
pub proof fn law_searches_are_answered(g: GatewayView, payload: Seq<u8>)
    requires
        vstd::utf8::valid_utf8(payload),
        g.stats.ssdp_requests < u64::MAX,
    ensures
        g.ssdp(payload).0 is Some <==> !(g.config.upnp is Off) && lit("M-SEARCH"@).is_prefix_of(
            payload,
        ),
        g.ssdp(payload).1.stats.ssdp_requests == g.stats.ssdp_requests + 1,
        g.ssdp(payload).1.bufs == g.bufs,
        g.ssdp(payload).1.config == g.config,
{
    let m = lit("M-SEARCH"@);
    if payload.len() >= m.len() {
        assert(payload.subrange(0, m.len() as int) =~= payload.take(m.len() as int));
    }
    if m.is_prefix_of(payload) {
        assert(payload.take(m.len() as int) =~= m);
    }
}

/// A gateway grants leases of two minutes at most, over the protocols that it is
/// set up with.
pub proof fn law_gateway_tiers(pcp: TierMode, natpmp: TierMode, upnp: TierMode)
    ensures
        tiers_config(pcp, natpmp, upnp).pcp == pcp,
        tiers_config(pcp, natpmp, upnp).natpmp == natpmp,
        tiers_config(pcp, natpmp, upnp).upnp == upnp,
        tiers_config(pcp, natpmp, upnp).pcp_v6_pinhole is None,
        tiers_config(pcp, natpmp, upnp).lease.nanos == 120_000_000_000,
{
}

/// What a request over HTTP is made of: two words of its first line, and behind the
/// first blank line the body, as long as its headers announce.
pub proof fn law_requests_are_cut_at_the_blank_line(buf: Seq<u8>)
    requires
        http_request(buf) is Some,
    ensures
        ({
            let (request, n) = http_request(buf)->0;
            let blank = find_from(buf, lit("\r\n\r\n"@), 0)->0;
            let line = find_from(buf.take(blank + 4), lit("\r\n"@), 0)->0;
            &&& stands_at(buf, lit("\r\n\r\n"@), blank)
            &&& forall|i: int| 0 <= i < blank ==> !#[trigger] stands_at(buf, lit("\r\n\r\n"@), i)
            &&& blank + 4 <= n <= buf.len()
            &&& request.body == buf.subrange(blank + 4, n)
            &&& request.body.len() == announced(buf.take(blank + 4), line + 2)
            &&& two_words(buf.take(blank + 4).take(line)) == Some((request.method, request.path))
        }),
{
    law_find_is_the_first(buf, lit("\r\n\r\n"@), 0);
}

/// A header tells the length of the body if its name does, in capitals or not:
/// what is behind the colon, up to the end of the line. The first that does counts.
pub proof fn law_length_header(line: Seq<u8>, name: Seq<u8>, value: Seq<u8>, next: Seq<u8>)
    requires
        line == name + lit(":"@) + value,
        forall|i: int| 0 <= i < name.len() ==> #[trigger] name[i] != lit(":"@)[0],
        forall|i: int|
            0 <= i < line.len() ==> !#[trigger] stands_at(line + lit("\r\n"@) + next, lit("\r\n"@), i),
    ensures
        length_header(line + lit("\r\n"@) + next, 0) == (if same_ignoring_case(
            name,
            lit("content-length"@),
        ) {
            Some(value)
        } else {
            length_header(line + lit("\r\n"@) + next, line.len() as int + 2)
        }),
{
    lemma_lit_lens();
    let colon = lit(":"@);
    let end = lit("\r\n"@);
    let all = line + end + next;
    let n = line.len() as int;
    let c = name.len() as int;
    assert(all.subrange(n, n + 2) =~= end);
    assert(stands_at(all, end, n));
    law_find_is_the_first(all, end, 0);
    let e = find_from(all, end, 0)->0;
    if e < n {
        assert(!stands_at(all, end, e));
    }
    assert(e == n);
    assert(all.subrange(0, n) =~= line);
    assert(line.subrange(c, c + 1) =~= colon);
    assert(stands_at(line, colon, c));
    law_find_is_the_first(line, colon, 0);
    let d = find_from(line, colon, 0)->0;
    if d < c {
        assert(line.subrange(d, d + 1)[0] == name[d]);
        assert(colon[0] == name[d]);
    }
    assert(d == c);
    assert(line.take(c) =~= name);
    assert(line.skip(c + 1) =~= value);
}

} // verus!
