//! What a node can tell of the NAT in front of it from the addresses at which
//! its peers see it.
//!
//! Observations are grouped by the port that the observer was reached at: a
//! NAT may choose its mapping by the destination port alone, which observers
//! on one fixed port cannot tell from a single mapping.

use vstd::prelude::*;
use crate::addr::SocketAddr;

verus! {

#[derive(Clone, Copy, Debug, PartialEq, Eq, Structural)]
pub enum NatClass {
    /// Peers see the node at its own address.
    Public,
    /// One mapping towards everyone.
    EndpointIndependent,
    /// One mapping for each destination port.
    PortDependent,
    /// A mapping of its own for each destination.
    Symmetric,
}

/// A peer's address and the address at which it saw the node.
#[derive(Clone, Copy, Debug, PartialEq, Eq, Structural)]
pub struct TaggedObservation {
    pub observer: SocketAddr,
    pub mapping: SocketAddr,
}

/// There are observers at two addresses.
pub open spec fn several_observers(obs: Seq<TaggedObservation>) -> bool {
    exists|i: int, j: int|
        0 <= i < obs.len() && 0 <= j < obs.len() && (#[trigger] obs[i]).observer.ip != (
        #[trigger] obs[j]).observer.ip
}

/// Two observers saw the node at different addresses.
pub open spec fn mappings_differ(obs: Seq<TaggedObservation>) -> bool {
    exists|i: int, j: int|
        0 <= i < obs.len() && 0 <= j < obs.len() && (#[trigger] obs[i]).mapping != (
        #[trigger] obs[j]).mapping
}

/// Two observers on one port saw the node at different addresses.
pub open spec fn mappings_differ_on_a_port(obs: Seq<TaggedObservation>) -> bool {
    exists|i: int, j: int|
        0 <= i < obs.len() && 0 <= j < obs.len() && (#[trigger] obs[i]).observer.port == (
        #[trigger] obs[j]).observer.port && obs[i].mapping != obs[j].mapping
}

pub open spec fn all_see(obs: Seq<TaggedObservation>, addr: SocketAddr) -> bool {
    forall|i: int| 0 <= i < obs.len() ==> (#[trigger] obs[i]).mapping == addr
}

/// The class that observations speak for. Observers at one address only cannot
/// tell.
pub open spec fn class_of(local: SocketAddr, obs: Seq<TaggedObservation>) -> Option<NatClass> {
    if !several_observers(obs) {
        None
    } else if all_see(obs, local) {
        Some(NatClass::Public)
    } else if mappings_differ_on_a_port(obs) {
        Some(NatClass::Symmetric)
    } else if mappings_differ(obs) {
        Some(NatClass::PortDependent)
    } else {
        Some(NatClass::EndpointIndependent)
    }
}

/// The class of the NAT in front of a node at `local`, if the observations
/// tell.
pub fn classify_observations(local: SocketAddr, obs: &[TaggedObservation]) -> (r: Option<NatClass>)
    ensures
        r == class_of(local, obs@),
{
    let n: usize = obs.len();
    if n == 0 {
        return None;
    }
    let mut several: bool = false;
    let mut public: bool = true;
    let mut differ: bool = false;
    let mut differ_on_port: bool = false;
    let mut i: usize = 0;
    while i < n
        invariant
            n == obs@.len(),
            0 < n,
            i <= n,
            several == exists|k: int|
                0 <= k < i && (#[trigger] obs@[k]).observer.ip != obs@[0].observer.ip,
            public == forall|k: int| 0 <= k < i ==> (#[trigger] obs@[k]).mapping == local,
            differ == exists|k: int|
                0 <= k < i && (#[trigger] obs@[k]).mapping != obs@[0].mapping,
            differ_on_port == exists|k: int, l: int|
                0 <= k < i && 0 <= l < n && (#[trigger] obs@[k]).observer.port == (
                #[trigger] obs@[l]).observer.port && obs@[k].mapping != obs@[l].mapping,
        decreases n - i,
    {
        let one = obs[i];
        if one.observer.ip != obs[0].observer.ip {
            several = true;
        }
        if one.mapping != local {
            public = false;
        }
        if one.mapping != obs[0].mapping {
            differ = true;
        }
        let mut j: usize = 0;
        let ghost before = differ_on_port;
        while j < n
            invariant
                n == obs@.len(),
                j <= n,
                i < n,
                one == obs@[i as int],
                differ_on_port == (before || exists|l: int|
                    0 <= l < j && one.observer.port == (#[trigger] obs@[l]).observer.port
                        && one.mapping != obs@[l].mapping),
            decreases n - j,
        {
            if one.observer.port == obs[j].observer.port && one.mapping != obs[j].mapping {
                differ_on_port = true;
            }
            j += 1;
        }
        i += 1;
    }
    proof {
        if several_observers(obs@) {
            let (a, b) = choose|a: int, b: int|
                0 <= a < obs@.len() && 0 <= b < obs@.len() && (#[trigger] obs@[a]).observer.ip != (
                #[trigger] obs@[b]).observer.ip;
            assert(obs@[a].observer.ip != obs@[0].observer.ip || obs@[b].observer.ip
                != obs@[0].observer.ip);
        }
        if mappings_differ(obs@) {
            let (a, b) = choose|a: int, b: int|
                0 <= a < obs@.len() && 0 <= b < obs@.len() && (#[trigger] obs@[a]).mapping != (
                #[trigger] obs@[b]).mapping;
            assert(obs@[a].mapping != obs@[0].mapping || obs@[b].mapping != obs@[0].mapping);
        }
    }
    if !several {
        None
    } else if public {
        Some(NatClass::Public)
    } else if differ_on_port {
        Some(NatClass::Symmetric)
    } else if differ {
        Some(NatClass::PortDependent)
    } else {
        Some(NatClass::EndpointIndependent)
    }
}

/// Observers that share one port never find a NAT that chooses its mapping by
/// the destination port: they take it for one with a single mapping.
pub proof fn law_one_port_misses_port_dependence(
    local: SocketAddr,
    obs: Seq<TaggedObservation>,
    port: u16,
)
    requires
        forall|i: int| 0 <= i < obs.len() ==> (#[trigger] obs[i]).observer.port == port,
    ensures
        class_of(local, obs) != Some(NatClass::PortDependent),
{
    if mappings_differ(obs) {
        let (a, b) = choose|a: int, b: int|
            0 <= a < obs.len() && 0 <= b < obs.len() && (#[trigger] obs[a]).mapping != (
            #[trigger] obs[b]).mapping;
        assert(obs[a].observer.port == obs[b].observer.port);
    }
}

/// The class does not depend on the order of the observations.
pub proof fn law_class_ignores_order(
    local: SocketAddr,
    one: Seq<TaggedObservation>,
    other: Seq<TaggedObservation>,
)
    requires
        one.to_multiset() == other.to_multiset(),
    ensures
        class_of(local, one) == class_of(local, other),
{
    lemma_same_members(one, other);
    lemma_same_members(other, one);
    lemma_same_class_half(local, one, other);
    lemma_same_class_half(local, other, one);
}

proof fn lemma_same_members(one: Seq<TaggedObservation>, other: Seq<TaggedObservation>)
    requires
        one.to_multiset() == other.to_multiset(),
    ensures
        forall|i: int| 0 <= i < one.len() ==> other.contains(#[trigger] one[i]),
{
    assert forall|i: int| 0 <= i < one.len() implies other.contains(#[trigger] one[i]) by {
        one.to_multiset_ensures();
        other.to_multiset_ensures();
        assert(one.contains(one[i]));
        assert(one.to_multiset().count(one[i]) > 0);
        assert(other.to_multiset().count(one[i]) > 0);
    }
}

proof fn lemma_same_class_half(
    local: SocketAddr,
    one: Seq<TaggedObservation>,
    other: Seq<TaggedObservation>,
)
    requires
        forall|i: int| 0 <= i < one.len() ==> other.contains(#[trigger] one[i]),
    ensures
        several_observers(one) ==> several_observers(other),
        mappings_differ(one) ==> mappings_differ(other),
        mappings_differ_on_a_port(one) ==> mappings_differ_on_a_port(other),
        all_see(other, local) ==> all_see(one, local),
{
    if several_observers(one) {
        let (a, b) = choose|a: int, b: int|
            0 <= a < one.len() && 0 <= b < one.len() && (#[trigger] one[a]).observer.ip != (
            #[trigger] one[b]).observer.ip;
        let c = other.index_of(one[a]);
        let d = other.index_of(one[b]);
        assert(other[c] == one[a] && other[d] == one[b]);
    }
    if mappings_differ(one) {
        let (a, b) = choose|a: int, b: int|
            0 <= a < one.len() && 0 <= b < one.len() && (#[trigger] one[a]).mapping != (
            #[trigger] one[b]).mapping;
        let c = other.index_of(one[a]);
        let d = other.index_of(one[b]);
        assert(other[c] == one[a] && other[d] == one[b]);
    }
    if mappings_differ_on_a_port(one) {
        let (a, b) = choose|a: int, b: int|
            0 <= a < one.len() && 0 <= b < one.len() && (#[trigger] one[a]).observer.port == (
            #[trigger] one[b]).observer.port && one[a].mapping != one[b].mapping;
        let c = other.index_of(one[a]);
        let d = other.index_of(one[b]);
        assert(other[c] == one[a] && other[d] == one[b]);
    }
    if all_see(other, local) {
        assert forall|i: int| 0 <= i < one.len() implies (#[trigger] one[i]).mapping == local by {
            let c = other.index_of(one[i]);
            assert(other[c] == one[i]);
        }
    }
}

/// What a class stands for. Observers at one address tell nothing. Those at
/// several tell a node that they see at its own address to be public; one that
/// all see at another address to have one mapping; one that is seen differently,
/// but alike by those on one port, to have a mapping for each port; and one that
/// two on one port see differently, a mapping for each destination.
pub proof fn law_classes(local: SocketAddr, obs: Seq<TaggedObservation>, seen: SocketAddr)
    ensures
        (forall|i: int, j: int|
            0 <= i < obs.len() && 0 <= j < obs.len() ==> (#[trigger] obs[i]).observer.ip == (
            #[trigger] obs[j]).observer.ip) <==> class_of(local, obs) is None,
        class_of(local, obs) is Some && (forall|i: int|
            0 <= i < obs.len() ==> (#[trigger] obs[i]).mapping == local) <==> class_of(local, obs)
            == Some(NatClass::Public),
        class_of(local, obs) is Some && seen != local && (forall|i: int|
            0 <= i < obs.len() ==> (#[trigger] obs[i]).mapping == seen) ==> class_of(local, obs)
            == Some(NatClass::EndpointIndependent),
        class_of(local, obs) == Some(NatClass::EndpointIndependent) ==> forall|i: int, j: int|
            0 <= i < obs.len() && 0 <= j < obs.len() ==> (#[trigger] obs[i]).mapping == (
            #[trigger] obs[j]).mapping && obs[i].mapping != local,
        class_of(local, obs) == Some(NatClass::PortDependent) ==> (forall|i: int, j: int|
            0 <= i < obs.len() && 0 <= j < obs.len() && (#[trigger] obs[i]).observer.port == (
            #[trigger] obs[j]).observer.port ==> obs[i].mapping == obs[j].mapping) && exists|
            i: int,
            j: int,
        |
            0 <= i < obs.len() && 0 <= j < obs.len() && (#[trigger] obs[i]).mapping != (
            #[trigger] obs[j]).mapping,
        class_of(local, obs) is Some && (exists|i: int, j: int|
            0 <= i < obs.len() && 0 <= j < obs.len() && (#[trigger] obs[i]).observer.port == (
            #[trigger] obs[j]).observer.port && obs[i].mapping != obs[j].mapping) <==> class_of(
            local,
            obs,
        ) == Some(NatClass::Symmetric),
{
    if class_of(local, obs) is Some {
        let (a, b) = choose|i: int, j: int|
            0 <= i < obs.len() && 0 <= j < obs.len() && (#[trigger] obs[i]).observer.ip != (
            #[trigger] obs[j]).observer.ip;
        assert(obs[a].observer.ip != obs[b].observer.ip);
        if forall|i: int| 0 <= i < obs.len() ==> (#[trigger] obs[i]).mapping == seen {
            assert(obs[a].mapping == seen);
        }
        if class_of(local, obs) == Some(NatClass::EndpointIndependent) {
            let k = choose|k: int| 0 <= k < obs.len() && (#[trigger] obs[k]).mapping != local;
            assert forall|i: int, j: int|
                0 <= i < obs.len() && 0 <= j < obs.len() implies (#[trigger] obs[i]).mapping == (
            #[trigger] obs[j]).mapping && obs[i].mapping != local by {
                assert(obs[i].mapping == obs[k].mapping);
            }
        }
        if exists|i: int, j: int|
            0 <= i < obs.len() && 0 <= j < obs.len() && (#[trigger] obs[i]).observer.port == (
            #[trigger] obs[j]).observer.port && obs[i].mapping != obs[j].mapping {
            let (c, d) = choose|i: int, j: int|
                0 <= i < obs.len() && 0 <= j < obs.len() && (#[trigger] obs[i]).observer.port == (
                #[trigger] obs[j]).observer.port && obs[i].mapping != obs[j].mapping;
            assert(obs[c].mapping != local || obs[d].mapping != local);
        }
    }
}

} // verus!
