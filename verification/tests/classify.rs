//! What peers' observations tell of the NAT in front of a node.

use lightbringer::addr::{IpAddr, SocketAddr};
use lightbringer::overlay::classify::{classify_observations, NatClass, TaggedObservation};

fn addr(a: u8, b: u8, c: u8, d: u8, port: u16) -> SocketAddr {
    SocketAddr::new(IpAddr::v4(a, b, c, d), port)
}

/// The node's own address.
fn bind() -> SocketAddr {
    addr(10, 83, 0, 1, 65_410)
}

fn observe(observer: SocketAddr, mapping: SocketAddr) -> TaggedObservation {
    TaggedObservation { observer, mapping }
}

/// Two observers on distinct IPs both report the node's own bind address
/// (mapping == local), so the node infers no NAT.
#[test]
fn classifies_public_from_bind_observations() {
    let observations = [
        observe(addr(10, 1, 0, 1, 65_410), bind()),
        observe(addr(10, 2, 0, 1, 65_410), bind()),
    ];
    assert_eq!(
        classify_observations(bind(), &observations),
        Some(NatClass::Public),
        "a node observed at its own bind address by two distinct-IP peers is Public",
    );
}

/// Two observers on distinct IPs report one stable public mapping: a single
/// mapping toward any destination.
#[test]
fn classifies_eim_from_stable_mapping() {
    let mapping = addr(198, 51, 100, 9, 40_000);
    let observations = [
        observe(addr(10, 1, 0, 1, 65_410), mapping),
        observe(addr(10, 2, 0, 1, 65_410), mapping),
    ];
    assert_eq!(
        classify_observations(bind(), &observations),
        Some(NatClass::EndpointIndependent),
        "one stable mapping seen by two distinct-IP peers is EIM",
    );
}

/// The mapping is consistent within an observer-port group but differs across
/// groups. Two observers share port 3478 (same mapping); a third on port 5321
/// sees a different mapping.
#[test]
fn classifies_port_dependent_field_note() {
    let group_a = addr(198, 51, 100, 9, 40_000);
    let group_b = addr(198, 51, 100, 9, 40_001);
    let observations = [
        observe(addr(10, 1, 0, 1, 3478), group_a),
        observe(addr(10, 2, 0, 1, 3478), group_a),
        observe(addr(10, 3, 0, 1, 5321), group_b),
    ];
    assert_eq!(
        classify_observations(bind(), &observations),
        Some(NatClass::PortDependent),
        "consistent within each observer port, differing across ports, is PortDependent",
    );
}

/// Two observers share one inbound port (distinct IPs) yet report different
/// mappings: a fresh mapping per destination.
#[test]
fn classifies_symmetric_from_within_group_divergence() {
    let observations = [
        observe(addr(10, 1, 0, 1, 65_410), addr(198, 51, 100, 9, 40_000)),
        observe(addr(10, 2, 0, 1, 65_410), addr(198, 51, 100, 9, 40_044)),
    ];
    assert_eq!(
        classify_observations(bind(), &observations),
        Some(NatClass::Symmetric),
        "divergent mappings within one observer-port group is Symmetric",
    );
}

/// With fewer than two distinct observer IPs there is no cross-destination
/// evidence. Both observers sit on one IP (different ports).
#[test]
fn single_observer_ip_stays_unclassified() {
    let mapping = addr(198, 51, 100, 9, 40_000);
    let observations = [
        observe(addr(10, 5, 0, 1, 3478), mapping),
        observe(addr(10, 5, 0, 1, 5321), mapping),
    ];
    assert_eq!(
        classify_observations(bind(), &observations),
        None,
        "a single observer IP cannot discriminate the NAT class",
    );
}
