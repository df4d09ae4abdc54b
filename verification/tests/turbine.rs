//! The retransmission tree.

use lightbringer::overlay::turbine::{retransmit_indices, shred_seed, ShredId, TurbineTree};
use lightbringer::pubkey::Pubkey;

fn key(n: u8) -> Pubkey {
    Pubkey::from_bytes(&[n; 32])
}

#[test]
fn root_retransmits_first_layer() {
    let got = retransmit_indices(0, 3, 10);
    assert_eq!(got, vec![1, 2, 3]);
}

#[test]
fn non_root_retransmits_next_layer_stride() {
    let got = retransmit_indices(2, 3, 20);
    assert_eq!(got, vec![5, 8, 11]);
}

#[test]
fn origin_always_emits_somewhere() {
    let local = key(1);
    let peer = key(2);
    let tree = TurbineTree::new(local, 8);
    // Whatever position the shuffle assigns, an originated shred must
    // leave the source when at least one peer exists.
    for byte in 0u8..32 {
        let payload = vec![byte; 64];
        let got = tree.origin_peers(None, &payload, &[peer]);
        assert_eq!(got, vec![peer], "payload seed {byte}");
    }
}

#[test]
fn shuffle_is_identity_seeded_and_deterministic() {
    let local = key(100);
    let peers: Vec<Pubkey> = (0..8).map(key).collect();
    let tree = TurbineTree::new(local, 3);
    let payload = vec![9u8; 128];
    let first = tree.retransmit_peers(None, &payload, &peers);
    let second = tree.retransmit_peers(None, &payload, &peers);
    assert_eq!(first, second);
    // Duplicate peer entries collapse: same node listed twice must not
    // occupy two tree slots.
    let mut doubled = peers.clone();
    doubled.extend_from_slice(&peers);
    assert_eq!(tree.retransmit_peers(None, &payload, &doubled), first);
}

#[test]
fn every_node_is_reached_once_from_the_root() {
    let fanout = 3usize;
    let count = 29usize;
    let mut parents = vec![0usize; count];
    for at in 0..count {
        for child in retransmit_indices(at, fanout, count) {
            parents[child] += 1;
        }
    }
    assert_eq!(parents[0], 0);
    assert!(parents[1..].iter().all(|&n| n == 1), "{parents:?}");
}

#[test]
fn every_node_passes_a_shred_to_its_own_children() {
    // All nodes compute the same shuffle, each with the others as peers.
    let all: Vec<Pubkey> = (0..12).map(key).collect();
    let payload = vec![3u8; 200];
    let mut reached = vec![0usize; all.len()];
    for (i, &local) in all.iter().enumerate() {
        let peers: Vec<Pubkey> = all.iter().copied().filter(|p| *p != all[i]).collect();
        for child in TurbineTree::new(local, 2).retransmit_peers(None, &payload, &peers) {
            let at = all.iter().position(|p| *p == child).unwrap();
            reached[at] += 1;
        }
    }
    // One node is the root, and every other one has one parent.
    assert_eq!(reached.iter().filter(|&&n| n == 0).count(), 1);
    assert!(reached.iter().all(|&n| n <= 1));
}

#[test]
fn the_seed_follows_the_shred() {
    let id = ShredId { slot: 7, index: 3 };
    let other = ShredId { slot: 7, index: 4 };
    assert_eq!(shred_seed(Some(id), b"a"), shred_seed(Some(id), b"b"));
    assert_ne!(shred_seed(Some(id), b"a"), shred_seed(Some(other), b"a"));
    assert_ne!(shred_seed(None, b"a"), shred_seed(None, b"b"));
}

#[test]
fn a_fanout_of_none_counts_as_one() {
    let tree = TurbineTree::new(key(1), 0);
    assert_eq!(tree.fanout, 1);
}
