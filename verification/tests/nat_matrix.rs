//! The NAT state machine at the level of datagrams: mapping, filtering,
//! allocation and lifetime.

use lightbringer::addr::{IpAddr, SocketAddr};
use lightbringer::overlay::classify::{
    classify_observations, NatClass, TaggedObservation,
};
use lightbringer::overlay::sim::nat_box::{
    FirewallBox, FirewallConfig, NatBox, NatConfig, NatDropReason,
};
use lightbringer::time::Duration;

const SEC: u64 = 1_000_000_000;

fn external_ip() -> IpAddr {
    IpAddr::v4(198, 51, 100, 9)
}

fn addr(octets: [u8; 4], port: u16) -> SocketAddr {
    SocketAddr::new(IpAddr::v4(octets[0], octets[1], octets[2], octets[3]), port)
}

fn internal() -> SocketAddr {
    addr([10, 0, 0, 2], 51_000)
}

/// Destination-port-keyed mapping. Three
/// distinct destination IPs on the same destination port share one external
/// mapping; the same destination IP on a different port gets a fresh one.
#[test]
fn field_note_mapping_keyed_on_dst_port() {
    let mut nat = NatBox::new(NatConfig::field_note_fiber(), external_ip(), 1);
    let src = internal();

    let to_a = nat.outbound(0, src, addr([1, 1, 1, 1], 3478)).unwrap();
    let to_b = nat.outbound(0, src, addr([2, 2, 2, 2], 3478)).unwrap();
    let to_c = nat.outbound(0, src, addr([3, 3, 3, 3], 3478)).unwrap();

    assert!(to_a.created);
    assert!(!to_b.created, "second dst IP on the same port reuses the mapping");
    assert!(!to_c.created);
    assert_eq!(to_a.external, to_b.external);
    assert_eq!(to_b.external, to_c.external);

    // Same destination IP, different destination port: different mapping.
    let to_other_port = nat.outbound(0, src, addr([1, 1, 1, 1], 443)).unwrap();
    assert!(to_other_port.created);
    assert_ne!(to_a.external, to_other_port.external);
    assert_eq!(nat.stats().mappings_created, 2);
}

/// Endpoint-independent filtering admits any source once the mapping exists.
#[test]
fn filtering_endpoint_independent_admits_any_source() {
    let mut nat = NatBox::new(NatConfig::full_cone(), external_ip(), 1);
    let src = internal();
    let peer = addr([1, 1, 1, 1], 9000);
    let external = nat.outbound(0, src, peer).unwrap().external;

    assert_eq!(nat.inbound(1, peer, external).unwrap(), src);
    let stranger = addr([2, 2, 2, 2], 1234);
    assert_eq!(nat.inbound(1, stranger, external).unwrap(), src);
    assert_eq!(nat.stats().filtered_drops, 0);
}

/// Address-restricted filtering admits the peer's IP on any port but rejects
/// other IPs.
#[test]
fn filtering_address_restricted() {
    let mut nat = NatBox::new(NatConfig::restricted_cone(), external_ip(), 1);
    let src = internal();
    let peer = addr([1, 1, 1, 1], 9000);
    let external = nat.outbound(0, src, peer).unwrap().external;

    let same_ip_other_port = addr([1, 1, 1, 1], 9999);
    assert_eq!(nat.inbound(1, same_ip_other_port, external).unwrap(), src);

    let other_ip = addr([2, 2, 2, 2], 9000);
    assert_eq!(nat.inbound(1, other_ip, external), Err(NatDropReason::Filtered));
    assert_eq!(nat.stats().filtered_drops, 1);
}

/// Port-restricted filtering admits exactly the peer 4-tuple's (IP, port).
#[test]
fn filtering_port_restricted() {
    let mut nat = NatBox::new(NatConfig::port_restricted_cone(), external_ip(), 1);
    let src = internal();
    let peer = addr([1, 1, 1, 1], 9000);
    let external = nat.outbound(0, src, peer).unwrap().external;

    assert_eq!(nat.inbound(1, peer, external).unwrap(), src);

    let same_ip_other_port = addr([1, 1, 1, 1], 9999);
    assert_eq!(
        nat.inbound(1, same_ip_other_port, external),
        Err(NatDropReason::Filtered)
    );
    assert_eq!(nat.stats().filtered_drops, 1);
}

/// Mappings refresh on outbound only. Outbound resends hold the mapping open;
/// inbound traffic does not, so an inbound-only gap past the idle window
/// expires it; the next outbound then allocates a fresh (higher) port.
#[test]
fn mapping_lifecycle_outbound_refreshes_inbound_does_not() {
    let src = internal();
    let peer = addr([1, 1, 1, 1], 9000);

    // Outbound refreshes: a resend at 20s carries the mapping to 40s.
    let mut refreshed = NatBox::new(NatConfig::symmetric_sequential(1), external_ip(), 1);
    let external = refreshed.outbound(0, src, peer).unwrap().external;
    refreshed.outbound(20 * SEC, src, peer).unwrap();
    assert_eq!(refreshed.inbound(40 * SEC, peer, external).unwrap(), src);
    assert_eq!(refreshed.stats().expired_drops, 0);

    // Inbound does not refresh: an admitted inbound at 20s cannot hold the
    // mapping, so it is expired by 40s (last refresh stayed at t=0).
    let mut stale = NatBox::new(NatConfig::symmetric_sequential(1), external_ip(), 2);
    let external = stale.outbound(0, src, peer).unwrap().external;
    assert_eq!(stale.inbound(20 * SEC, peer, external).unwrap(), src);
    assert_eq!(
        stale.inbound(40 * SEC, peer, external),
        Err(NatDropReason::MappingExpired)
    );
    assert_eq!(stale.stats().expired_drops, 1);

    // A fresh outbound after expiry allocates a new mapping on the next
    // sequential port.
    let reborn = stale.outbound(41 * SEC, src, peer).unwrap();
    assert!(reborn.created);
    assert_ne!(reborn.external, external);
    assert_eq!(reborn.external.port(), external.port() + 1);
}

/// Sequential allocation walks the pool by the configured stride, one step
/// per distinct-destination mapping.
#[test]
fn allocator_sequential_stride_walks_pool() {
    let stride = 7u16;
    let mut nat = NatBox::new(NatConfig::symmetric_sequential(stride), external_ip(), 1);
    let src = internal();
    let lo = 40_000u16;

    for i in 0..4u16 {
        let dst = addr([1, 1, 1, (i + 1) as u8], 9000);
        let pass = nat.outbound(0, src, dst).unwrap();
        assert!(pass.created);
        assert_eq!(pass.external.port(), lo + i * stride);
    }
}

/// A port-preserving allocator presents the internal source port externally.
#[test]
fn allocator_preserving_presents_internal_port() {
    let mut nat = NatBox::new(NatConfig::symmetric_preserving(), external_ip(), 1);
    let src = addr([10, 0, 0, 2], 45_000);
    let peer = addr([1, 1, 1, 1], 9000);
    let pass = nat.outbound(0, src, peer).unwrap();
    assert_eq!(pass.external.port(), 45_000);
}

/// A CGN-flavored NAT with a small port budget exhausts once enough distinct
/// destinations demand distinct mappings.
#[test]
fn allocator_cgn_pool_exhausts() {
    let pool = 4u16;
    let mut nat = NatBox::new(NatConfig::cgn_random(pool), external_ip(), 1);
    let src = internal();

    let mut created = 0u64;
    let mut exhausted = false;
    for i in 0..64u16 {
        let dst = addr([1, 1, 0, i as u8], 9000);
        match nat.outbound(0, src, dst) {
            Ok(pass) => {
                assert!(pass.created);
                created += 1;
            }
            Err(NatDropReason::PortPoolExhausted) => {
                exhausted = true;
                break;
            }
            Err(other) => panic!("unexpected drop {other:?}"),
        }
    }

    assert!(exhausted, "a bounded pool must eventually exhaust");
    assert!(created <= u64::from(pool));
    assert!(nat.stats().pool_exhausted_drops >= 1);
}

/// The classifier needs at least two distinct observer IPs to discriminate;
/// empty and single-IP observation sets are indeterminate.
#[test]
fn classifier_edge_cases_return_none() {
    let local = addr([203, 0, 113, 1], 51_000);
    assert_eq!(classify_observations(local, &[]), None);

    // Two observations, but a single observer IP (differing only by port).
    let observations = [
        TaggedObservation {
            observer: addr([9, 9, 9, 9], 3478),
            mapping: local,
        },
        TaggedObservation {
            observer: addr([9, 9, 9, 9], 5000),
            mapping: local,
        },
    ];
    assert_eq!(classify_observations(local, &observations), None);
}

fn seen(observer: SocketAddr, mapping: SocketAddr) -> TaggedObservation {
    TaggedObservation { observer, mapping }
}

#[test]
fn classifier_tells_the_classes_apart() {
    let local = addr([203, 0, 113, 1], 51_000);
    let a = addr([198, 51, 100, 9], 40_000);
    let b = addr([198, 51, 100, 9], 40_001);
    let one = addr([10, 1, 0, 1], 3478);
    let two = addr([10, 2, 0, 1], 3478);
    let three = addr([10, 3, 0, 1], 5321);
    assert_eq!(
        classify_observations(local, &[seen(one, local), seen(two, local)]),
        Some(NatClass::Public)
    );
    assert_eq!(
        classify_observations(local, &[seen(one, a), seen(two, a), seen(three, a)]),
        Some(NatClass::EndpointIndependent)
    );
    assert_eq!(
        classify_observations(local, &[seen(one, a), seen(two, a), seen(three, b)]),
        Some(NatClass::PortDependent)
    );
    assert_eq!(
        classify_observations(local, &[seen(one, a), seen(two, b)]),
        Some(NatClass::Symmetric)
    );
    // Observers on one fixed port take a port-dependent NAT for a cone.
    assert_eq!(
        classify_observations(local, &[seen(one, a), seen(two, a)]),
        Some(NatClass::EndpointIndependent)
    );
    // The order does not matter.
    assert_eq!(
        classify_observations(local, &[seen(three, b), seen(two, a), seen(one, a)]),
        Some(NatClass::PortDependent)
    );
}

#[test]
fn drop_reasons_have_names() {
    let mut names = vec![
        NatDropReason::NoMapping.as_str(),
        NatDropReason::MappingExpired.as_str(),
        NatDropReason::Filtered.as_str(),
        NatDropReason::PortPoolExhausted.as_str(),
    ];
    let all = names.len();
    names.sort();
    names.dedup();
    assert_eq!(names.len(), all);
}

#[test]
fn inbound_without_a_mapping_is_dropped() {
    let mut nat = NatBox::new(NatConfig::full_cone(), external_ip(), 1);
    let stranger = addr([2, 2, 2, 2], 1234);
    let target = SocketAddr::new(external_ip(), 40_000);
    assert_eq!(nat.inbound(0, stranger, target), Err(NatDropReason::NoMapping));
    assert_eq!(nat.stats().no_mapping_drops, 1);
}

#[test]
fn one_mapping_serves_one_key() {
    let mut nat = NatBox::new(NatConfig::symmetric_random(), external_ip(), 5);
    let first = nat.outbound(0, internal(), addr([1, 1, 1, 1], 9000)).unwrap();
    let again = nat.outbound(SEC, internal(), addr([1, 1, 1, 1], 9000)).unwrap();
    let other = nat.outbound(SEC, internal(), addr([1, 1, 1, 2], 9000)).unwrap();
    assert!(first.created && !again.created && other.created);
    assert_eq!(first.external, again.external);
    assert_ne!(first.external, other.external);
}

#[test]
fn leases_admit_everyone_until_they_expire() {
    let mut nat = NatBox::new(NatConfig::port_restricted_cone(), external_ip(), 1);
    assert_eq!(nat.install_static(0, internal(), 51_000, Duration::from_secs(60)), Some(51_000));
    let stranger = addr([2, 2, 2, 2], 1234);
    let target = SocketAddr::new(external_ip(), 51_000);
    assert_eq!(nat.inbound(60 * SEC, stranger, target), Ok(internal()));
    assert!(nat.inbound(61 * SEC, stranger, target).is_err());
    assert_eq!(nat.stats().static_installs, 1);
    assert_eq!(nat.install_static(0, internal(), 51_001, Duration::from_secs(60)), Some(51_001));
    nat.remove_static(internal(), 51_001);
    assert!(!nat.static_map_live(0, 51_001));
}

#[test]
fn the_firewall_admits_replies_and_pinholes() {
    let mut wall = FirewallBox::new(FirewallConfig::default());
    let local = internal();
    let peer = addr([1, 1, 1, 1], 9000);
    let stranger = addr([2, 2, 2, 2], 9000);
    assert_eq!(wall.inbound(0, peer, local), Err(NatDropReason::Filtered));
    wall.outbound(0, local, peer);
    assert!(wall.inbound(30 * SEC, peer, local).is_ok());
    assert!(wall.inbound(31 * SEC, peer, local).is_err());
    assert!(wall.inbound(1, stranger, local).is_err());
    wall.install_pinhole(0, 51_000, Duration::from_secs(60));
    assert!(wall.inbound(60 * SEC, stranger, local).is_ok());
    assert!(wall.pinhole_live(60 * SEC, 51_000));
    assert!(!wall.pinhole_live(61 * SEC, 51_000));
    assert_eq!(wall.stats().pinholes_installed, 1);
}

#[test]
fn live_mappings_have_ports_of_their_own() {
    let mut nat = NatBox::new(NatConfig::cgn_random(64), external_ip(), 7);
    let mut seen = std::collections::BTreeSet::new();
    let mut let_out = 0usize;
    for n in 0..200u16 {
        match nat.outbound(0, internal(), addr([9, 9, 9, 9], 1000 + n)) {
            Ok(pass) => {
                assert!(seen.insert(pass.external.port));
                let_out += 1;
            }
            Err(reason) => assert_eq!(reason, NatDropReason::PortPoolExhausted),
        }
    }
    assert_eq!(let_out as u64, nat.stats().mappings_created);
    assert_eq!(200 - let_out as u64, nat.stats().pool_exhausted_drops);
}
