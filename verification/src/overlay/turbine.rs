//! Which peers a node passes a shred on to.

use std::collections::hash_map::DefaultHasher;
use std::hash::Hasher;
use vstd::prelude::*;
use vstd::std_specs::hash::DefaultHasherAdditionalSpecFns;
use crate::codec::{
    from_be, law_bytes_tell_numbers_apart, le_bytes, lemma_byte_spans, put_le,
};
use crate::digest::{hash_bytes, hash_of};
use crate::ordmap::Rank;
use crate::pubkey::{law_keys_are_ordered_by_bytes, Pubkey};

verus! {

/// What a shred is known by.
#[derive(Clone, Copy, Debug, PartialEq, Eq, Structural)]
pub struct ShredId {
    pub slot: u64,
    pub index: u32,
}

/// The seed of a shred's shuffle: its id, or for what is no shred its bytes.
pub open spec fn seed_of(id: Option<ShredId>, payload: Seq<u8>) -> u64 {
    match id {
        Some(id) => DefaultHasher::spec_finish(
            Seq::empty().push(le_bytes(id.slot as nat, 8)).push(le_bytes(id.index as nat, 4)),
        ),
        None => hash_of(payload),
    }
}

pub fn shred_seed(id: Option<ShredId>, payload: &[u8]) -> (seed: u64)
    ensures
        seed == seed_of(id, payload@),
{
    match id {
        Some(id) => {
            let mut hasher = DefaultHasher::new();
            let mut slot: Vec<u8> = Vec::new();
            put_le(&mut slot, id.slot as u128, 8);
            let mut index: Vec<u8> = Vec::new();
            put_le(&mut index, id.index as u128, 4);
            proof {
                assert(slot@ =~= le_bytes(id.slot as nat, 8));
                assert(index@ =~= le_bytes(id.index as nat, 4));
            }
            hasher.write(&slot);
            hasher.write(&index);
            hasher.finish()
        },
        None => hash_bytes(payload),
    }
}

/// Where a node falls in a shuffle, before ties are broken.
pub open spec fn draw_of(seed: u64, node: Pubkey) -> u64 {
    DefaultHasher::spec_finish(Seq::empty().push(le_bytes(seed as nat, 8)).push(node.bytes()))
}

fn draw(seed: u64, node: &Pubkey) -> (draw: u64)
    ensures
        draw == draw_of(seed, *node),
{
    let mut hasher = DefaultHasher::new();
    let mut prefix: Vec<u8> = Vec::new();
    put_le(&mut prefix, seed as u128, 8);
    assert(prefix@ =~= le_bytes(seed as nat, 8));
    let bytes = node.to_bytes();
    hasher.write(&prefix);
    hasher.write(&bytes);
    hasher.finish()
}

/// `a` comes before `b` in the shuffle: by draw, then by key.
pub open spec fn comes_before(seed: u64, a: Pubkey, b: Pubkey) -> bool {
    draw_of(seed, a) < draw_of(seed, b) || (draw_of(seed, a) == draw_of(seed, b) && a.rank()
        < b.rank())
}

/// `nodes` is the shuffle of the nodes in `all`: each of them once, in order.
pub open spec fn is_shuffle(seed: u64, all: Set<Pubkey>, nodes: Seq<Pubkey>) -> bool {
    &&& forall|k: Pubkey| #[trigger] nodes.contains(k) <==> all.contains(k)
    &&& forall|i: int, j: int|
        #![trigger nodes[i], nodes[j]]
        0 <= i < j < nodes.len() ==> comes_before(seed, nodes[i], nodes[j])
}

/// The nodes of a tree: this node and its peers.
pub open spec fn members(local: Pubkey, peers: Seq<Pubkey>) -> Set<Pubkey> {
    peers.to_set().insert(local)
}

/// At most `n` numbers from `start` on, `step` apart, that lie below `limit`.
pub open spec fn strides(start: int, step: int, n: nat, limit: int) -> Seq<int>
    decreases n,
{
    if n == 0 || start >= limit {
        Seq::empty()
    } else {
        seq![start] + strides(start + step, step, (n - 1) as nat, limit)
    }
}

/// How far a node is into its group of `fanout` siblings.
pub open spec fn sibling(index: int, fanout: int) -> int {
    if index == 0 {
        0
    } else {
        (index - 1) % fanout
    }
}

/// Where the first child of a node stands.
pub open spec fn first_child(index: int, fanout: int) -> int {
    (index - sibling(index, fanout)) * fanout + sibling(index, fanout) + 1
}

/// How far apart the children of a node stand.
pub open spec fn child_step(index: int, fanout: int) -> int {
    if index == 0 {
        1
    } else {
        fanout
    }
}

/// The children of the node at `index` in a tree of `node_len` nodes. The root
/// passes a shred to the first layer. Each group of siblings fills a stretch
/// of the next layer between them, taking turns.
pub open spec fn children(index: int, fanout: int, node_len: int) -> Seq<int> {
    strides(first_child(index, fanout), child_step(index, fanout), fanout as nat, node_len)
}

/// Places as numbers.
pub open spec fn places(indices: Seq<usize>) -> Seq<int> {
    Seq::new(indices.len(), |i: int| indices[i] as int)
}

pub fn retransmit_indices(local_index: usize, fanout: usize, node_len: usize) -> (indices: Vec<
    usize,
>)
    requires
        0 < fanout,
    ensures
        places(indices@) == children(local_index as int, fanout as int, node_len as int),
{
    let offset: usize = local_index.saturating_sub(1) % fanout;
    assert(offset <= local_index) by {
        if local_index > 0 {
            vstd::arithmetic::div_mod::lemma_mod_decreases((local_index - 1) as nat, fanout as nat);
        } else {
            vstd::arithmetic::div_mod::lemma_small_mod(0, fanout as nat);
        }
    }
    let anchor: usize = local_index - offset;
    let step: usize = if local_index == 0 {
        1
    } else {
        fanout
    };
    assert(anchor * fanout <= u64::MAX * u64::MAX) by (nonlinear_arith)
        requires
            0 <= anchor <= u64::MAX,
            0 <= fanout <= u64::MAX,
    ;
    let first: u128 = anchor as u128 * fanout as u128 + offset as u128 + 1;
    let ghost start = first_child(local_index as int, fanout as int);
    assert(first == start);
    let mut indices: Vec<usize> = Vec::new();
    let mut next: u128 = first;
    let mut left: usize = fanout;
    assert(places(indices@) + strides(next as int, step as int, left as nat, node_len as int) =~= strides(
        start,
        step as int,
        fanout as nat,
        node_len as int,
    ));
    while left > 0 && next < node_len as u128
        invariant
            places(indices@) + strides(next as int, step as int, left as nat, node_len as int) == strides(
                start,
                step as int,
                fanout as nat,
                node_len as int,
            ),
        decreases left,
    {
        let ghost had = places(indices@);
        let ghost rest = strides(next as int, step as int, left as nat, node_len as int);
        indices.push(next as usize);
        next = next + step as u128;
        left -= 1;
        assert(had + rest =~= places(indices@) + strides(
            next as int,
            step as int,
            left as nat,
            node_len as int,
        ));
    }
    assert(places(indices@) =~= places(indices@) + strides(
        next as int,
        step as int,
        left as nat,
        node_len as int,
    ));
    indices
}

/// The nodes of a shuffle at `indices`.
pub open spec fn nodes_at(nodes: Seq<Pubkey>, indices: Seq<int>) -> Seq<Pubkey> {
    Seq::new(indices.len(), |i: int| nodes[indices[i]])
}

/// Deterministic choice of the peers to pass a shred to, seeded by the shred
/// and by identities: a node behind a NAT box has no stable address, and its
/// key is its only stable name.
#[derive(Clone, Copy, Debug)]
pub struct TurbineTree {
    pub local: Pubkey,
    pub fanout: usize,
}

impl TurbineTree {
    /// A node passes a shred to at least one other.
    pub open spec fn wf(&self) -> bool {
        0 < self.fanout
    }

    pub fn new(local: Pubkey, fanout: usize) -> (tree: Self)
        ensures
            tree.wf(),
            tree.local == local,
            tree.fanout == if fanout < 1 {
                1
            } else {
                fanout
            },
    {
        TurbineTree {
            local,
            fanout: if fanout < 1 {
                1
            } else {
                fanout
            },
        }
    }

    /// `out` is what this node passes a shred to: its children in the shuffle.
    pub open spec fn passes_to(&self, seed: u64, peers: Seq<Pubkey>, out: Seq<Pubkey>) -> bool {
        exists|nodes: Seq<Pubkey>, at: int| #[trigger]
            self.stands_at(seed, peers, nodes, at) && out == nodes_at(
                nodes,
                children(at, self.fanout as int, nodes.len() as int),
            )
    }

    /// In the shuffle, which is `nodes`, this node stands at `at`.
    pub open spec fn stands_at(
        &self,
        seed: u64,
        peers: Seq<Pubkey>,
        nodes: Seq<Pubkey>,
        at: int,
    ) -> bool {
        is_shuffle(seed, members(self.local, peers), nodes) && 0 <= at < nodes.len() && nodes[at]
            == self.local
    }

    /// `out` is what this node sends a shred of its own to: it fans out as the
    /// root, or hands the shred to the root.
    pub open spec fn originates_to(&self, seed: u64, peers: Seq<Pubkey>, out: Seq<Pubkey>) -> bool {
        exists|nodes: Seq<Pubkey>, at: int| #[trigger]
            self.stands_at(seed, peers, nodes, at) && out == (if at == 0 {
                nodes_at(nodes, children(0, self.fanout as int, nodes.len() as int))
            } else {
                seq![nodes[0]]
            })
    }

    /// The peers to pass a received shred on to.
    pub fn retransmit_peers(&self, id: Option<ShredId>, payload: &[u8], peers: &[Pubkey]) -> (out:
        Vec<Pubkey>)
        requires
            self.wf(),
        ensures
            self.passes_to(seed_of(id, payload@), peers@, out@),
    {
        let (at, nodes) = self.indexed_tree(shred_seed(id, payload), peers);
        let indices = retransmit_indices(at, self.fanout, nodes.len());
        pick(&nodes, &indices, Ghost(at as int), Ghost(self.fanout as int))
    }

    /// The peers for a shred of this node's own. As the tree's root it fans
    /// out to the first layer; otherwise it hands the shred to the root, which
    /// passes it on.
    pub fn origin_peers(&self, id: Option<ShredId>, payload: &[u8], peers: &[Pubkey]) -> (out: Vec<
        Pubkey,
    >)
        requires
            self.wf(),
        ensures
            self.originates_to(seed_of(id, payload@), peers@, out@),
    {
        let (at, nodes) = self.indexed_tree(shred_seed(id, payload), peers);
        if at == 0 {
            let indices = retransmit_indices(0, self.fanout, nodes.len());
            pick(&nodes, &indices, Ghost(0), Ghost(self.fanout as int))
        } else {
            let mut out: Vec<Pubkey> = Vec::new();
            out.push(nodes[0]);
            assert(out@ =~= seq![nodes@[0]]);
            out
        }
    }

    /// The shuffle and where this node stands in it.
    fn indexed_tree(&self, seed: u64, peers: &[Pubkey]) -> (r: (usize, Vec<Pubkey>))
        ensures
            self.stands_at(seed, peers@, r.1@, r.0 as int),
    {
        let mut nodes: Vec<Pubkey> = Vec::new();
        nodes.push(self.local);
        proof {
            let start = Seq::<Pubkey>::empty();
            assert(nodes@[0] == self.local);
            assert forall|k: Pubkey| #[trigger] nodes@.contains(k) <==> members(
                self.local,
                start,
            ).contains(k) by {}
            assert(peers@.take(0) =~= start);
        }
        let mut i: usize = 0;
        while i < peers.len()
            invariant
                i <= peers@.len(),
                is_shuffle(seed, members(self.local, peers@.take(i as int)), nodes@),
            decreases peers@.len() - i,
        {
            let ghost seen = peers@.take(i as int);
            put_in_order(&mut nodes, seed, peers[i], Ghost(members(self.local, seen)));
            i += 1;
            proof {
                let now_seen = peers@.take(i as int);
                assert(now_seen =~= seen.push(peers@[i - 1]));
                assert forall|k: Pubkey| now_seen.contains(k) <==> seen.contains(k) || k == peers@[i
                    - 1] by {
                    if seen.contains(k) {
                        let j = choose|j: int| 0 <= j < seen.len() && seen[j] == k;
                        assert(now_seen[j] == k);
                    }
                    assert(now_seen[i - 1] == peers@[i - 1]);
                }
                assert(members(self.local, now_seen) =~= members(self.local, seen).insert(
                    peers@[i - 1],
                ));
            }
        }
        assert(peers@.take(i as int) =~= peers@);
        let mut at: usize = 0;
        let count: usize = nodes.len();
        assert(nodes@.contains(self.local));
        let ghost there = choose|j: int| 0 <= j < nodes@.len() && nodes@[j] == self.local;
        while nodes[at] != self.local
            invariant
                at <= there < nodes@.len(),
                nodes@.len() == count,
                nodes@[there] == self.local,
            decreases nodes@.len() - at,
        {
            at += 1;
        }
        (at, nodes)
    }
}

/// Puts `node` into a shuffle, unless it is there.
fn put_in_order(nodes: &mut Vec<Pubkey>, seed: u64, node: Pubkey, all: Ghost<Set<Pubkey>>)
    requires
        is_shuffle(seed, all@, old(nodes)@),
    ensures
        is_shuffle(seed, all@.insert(node), final(nodes)@),
{
    let ghost had = nodes@;
    let mark: u64 = draw(seed, &node);
    let mut i: usize = 0;
    while i < nodes.len() && precedes(seed, &nodes[i], &node, mark)
        invariant
            i <= nodes@.len(),
            mark == draw_of(seed, node),
            forall|j: int| 0 <= j < i ==> comes_before(seed, #[trigger] nodes@[j], node),
        decreases nodes@.len() - i,
    {
        i += 1;
    }
    if i < nodes.len() && nodes[i] == node {
        assert(all@.insert(node) =~= all@) by {
            assert(had.contains(node)) by {
                assert(had[i as int] == node);
            }
        }
        return ;
    }
    proof {
        if i < had.len() {
            assert(!comes_before(seed, had[i as int], node));
            if draw_of(seed, had[i as int]) == draw_of(seed, node) && had[i as int].rank()
                == node.rank() {
                Pubkey::rank_injective(had[i as int], node);
            }
            assert(comes_before(seed, node, had[i as int]));
        }
        assert forall|j: int| i <= j < had.len() implies comes_before(
            seed,
            node,
            #[trigger] had[j],
        ) by {
            if i < j {
                assert(comes_before(seed, had[i as int], had[j]));
            }
        }
    }
    nodes.insert(i, node);
    proof {
        let now = nodes@;
        assert forall|a: int, b: int|
            #![trigger now[a], now[b]]
            0 <= a < b < now.len() implies comes_before(seed, now[a], now[b]) by {
            let a0 = if a < i {
                a
            } else {
                a - 1
            };
            let b0 = if b < i {
                b
            } else {
                b - 1
            };
            if a == i {
                assert(now[b] == had[b0]);
            } else if b == i {
                assert(now[a] == had[a0]);
            } else {
                assert(now[a] == had[a0]);
                assert(now[b] == had[b0]);
            }
        }
        assert forall|k: Pubkey| #[trigger] now.contains(k) <==> all@.insert(node).contains(k) by {
            assert(now[i as int] == node);
            if had.contains(k) {
                let j = choose|j: int| 0 <= j < had.len() && had[j] == k;
                assert(now[if j < i {
                    j
                } else {
                    j + 1
                }] == k);
            }
            if now.contains(k) && k != node {
                let j = choose|j: int| 0 <= j < now.len() && now[j] == k;
                assert(had[if j < i {
                    j
                } else {
                    j - 1
                }] == k);
            }
        }
    }
}

fn precedes(seed: u64, a: &Pubkey, b: &Pubkey, mark: u64) -> (r: bool)
    requires
        mark == draw_of(seed, *b),
    ensures
        r == comes_before(seed, *a, *b),
{
    let other: u64 = draw(seed, a);
    other < mark || (other == mark && a.before(b))
}

/// The nodes at `indices`.
fn pick(
    nodes: &Vec<Pubkey>,
    indices: &Vec<usize>,
    at: Ghost<int>,
    fanout: Ghost<int>,
) -> (out: Vec<Pubkey>)
    requires
        0 <= at@,
        0 < fanout@,
        places(indices@) == children(at@, fanout@, nodes@.len() as int),
    ensures
        out@ == nodes_at(nodes@, places(indices@)),
{
    let mut out: Vec<Pubkey> = Vec::new();
    let count: usize = nodes.len();
    proof {
        lemma_children_below(at@, fanout@, count as int);
        assert forall|j: int| 0 <= j < indices@.len() implies #[trigger] indices@[j]
            < nodes@.len() by {
            assert(places(indices@)[j] == indices@[j]);
        }
    }
    let mut i: usize = 0;
    while i < indices.len()
        invariant
            i <= indices@.len(),
            forall|j: int| 0 <= j < indices@.len() ==> #[trigger] indices@[j] < nodes@.len(),
            out@ == nodes_at(nodes@, places(indices@.take(i as int))),
        decreases indices@.len() - i,
    {
        out.push(nodes[indices[i]]);
        i += 1;
        assert(out@ =~= nodes_at(nodes@, places(indices@.take(i as int))));
    }
    assert(indices@.take(i as int) =~= indices@);
    out
}

/// A sibling's place lies within its group.
proof fn lemma_sibling(index: int, fanout: int)
    requires
        0 <= index,
        0 < fanout,
    ensures
        0 <= sibling(index, fanout) < fanout,
        sibling(index, fanout) <= index,
        index > 0 ==> sibling(index, fanout) < index,
        0 < first_child(index, fanout),
{
    if index > 0 {
        vstd::arithmetic::div_mod::lemma_mod_decreases((index - 1) as nat, fanout as nat);
        vstd::arithmetic::div_mod::lemma_mod_bound(index - 1, fanout);
    }
    let anchor = index - sibling(index, fanout);
    assert(0 <= anchor * fanout) by (nonlinear_arith)
        requires
            0 <= anchor,
            0 < fanout,
    ;
}

proof fn lemma_strides(start: int, step: int, n: nat, limit: int)
    requires
        0 <= start,
        0 < step,
    ensures
        ({
            let s = strides(start, step, n, limit);
            &&& s.len() <= n
            &&& forall|k: int|
                0 <= k < s.len() ==> (#[trigger] s[k]) == start + k * step && s[k] < limit
            &&& forall|k: int|
                0 <= k < n && #[trigger] (start + k * step) < limit ==> k < s.len()
        }),
    decreases n,
{
    let s = strides(start, step, n, limit);
    if n > 0 && start < limit {
        lemma_strides(start + step, step, (n - 1) as nat, limit);
        let rest = strides(start + step, step, (n - 1) as nat, limit);
        assert forall|k: int| 0 <= k < s.len() implies (#[trigger] s[k]) == start + k * step && s[k]
            < limit by {
            if k > 0 {
                assert(s[k] == rest[k - 1]);
                assert(start + step + (k - 1) * step == start + k * step) by (nonlinear_arith);
            }
        }
        assert forall|k: int| 0 <= k < n && #[trigger] (start + k * step) < limit implies k
            < s.len() by {
            if k > 0 {
                assert(start + step + (k - 1) * step == start + k * step) by (nonlinear_arith);
            }
        }
    } else {
        assert forall|k: int| 0 <= k < n && #[trigger] (start + k * step) < limit implies k
            < s.len() by {
            assert(0 <= k * step) by (nonlinear_arith)
                requires
                    0 <= k,
                    0 < step,
            ;
        }
    }
}

proof fn lemma_children_below(index: int, fanout: int, node_len: int)
    requires
        0 <= index,
        0 < fanout,
    ensures
        forall|j: int|
            0 <= j < children(index, fanout, node_len).len() ==> #[trigger] children(
                index,
                fanout,
                node_len,
            )[j] < node_len,
{
    lemma_sibling(index, fanout);
    lemma_strides(
        first_child(index, fanout),
        child_step(index, fanout),
        fanout as nat,
        node_len,
    );
}

/// A shuffle is determined by its nodes: listing a peer twice, or in another
/// order, changes nothing.
pub proof fn law_shuffle_unique(seed: u64, all: Set<Pubkey>, a: Seq<Pubkey>, b: Seq<Pubkey>)
    requires
        is_shuffle(seed, all, a),
        is_shuffle(seed, all, b),
    ensures
        a == b,
    decreases a.len(),
{
    if a.len() == 0 {
        if b.len() > 0 {
            assert(b.contains(b[0]));
            assert(a.contains(b[0]));
        }
        assert(a =~= b);
    } else {
        assert(a.contains(a[0]));
        assert(b.contains(a[0]));
        assert(b.len() > 0);
        let x = a.last();
        let y = b.last();
        assert(a[a.len() - 1] == x);
        assert(b[b.len() - 1] == y);
        assert(a.contains(x));
        assert(b.contains(x));
        assert(b.contains(y));
        assert(a.contains(y));
        let i = choose|i: int| 0 <= i < b.len() && b[i] == x;
        let j = choose|j: int| 0 <= j < a.len() && a[j] == y;
        if i < b.len() - 1 {
            assert(comes_before(seed, b[i], b[b.len() - 1]));
        }
        if j < a.len() - 1 {
            assert(comes_before(seed, a[j], a[a.len() - 1]));
        }
        assert(x == y);
        lemma_shuffle_front(seed, all, a);
        lemma_shuffle_front(seed, all, b);
        law_shuffle_unique(seed, all.remove(x), a.drop_last(), b.drop_last());
        assert(a =~= a.drop_last().push(x));
        assert(b =~= b.drop_last().push(y));
    }
}

proof fn lemma_shuffle_front(seed: u64, all: Set<Pubkey>, nodes: Seq<Pubkey>)
    requires
        is_shuffle(seed, all, nodes),
        nodes.len() > 0,
    ensures
        is_shuffle(seed, all.remove(nodes.last()), nodes.drop_last()),
{
    let front = nodes.drop_last();
    let x = nodes[nodes.len() - 1];
    assert forall|k: Pubkey| #[trigger] front.contains(k) <==> all.remove(x).contains(k) by {
        if front.contains(k) {
            let i = choose|i: int| 0 <= i < front.len() && front[i] == k;
            assert(nodes[i] == k);
            assert(nodes.contains(k));
            assert(comes_before(seed, nodes[i], nodes[nodes.len() - 1]));
        }
        if all.contains(k) && k != x {
            assert(nodes.contains(k));
            let i = choose|i: int| 0 <= i < nodes.len() && nodes[i] == k;
            assert(front[i] == k);
        }
    }
    assert forall|i: int, j: int|
        #![trigger front[i], front[j]]
        0 <= i < j < front.len() implies comes_before(seed, front[i], front[j]) by {
        assert(comes_before(seed, nodes[i], nodes[j]));
    }
}

/// What a node passes a shred to depends on who its peers are alone: listing
/// them twice or in another order gives the same peers in the same order.
pub proof fn law_duplicates_collapse(
    tree: TurbineTree,
    seed: u64,
    peers: Seq<Pubkey>,
    others: Seq<Pubkey>,
    out: Seq<Pubkey>,
    other_out: Seq<Pubkey>,
)
    requires
        members(tree.local, peers) == members(tree.local, others),
        tree.passes_to(seed, peers, out),
        tree.passes_to(seed, others, other_out),
    ensures
        out == other_out,
{
    let (n1, a1) = choose|nodes: Seq<Pubkey>, at: int| #[trigger]
        tree.stands_at(seed, peers, nodes, at) && out == nodes_at(
            nodes,
            children(at, tree.fanout as int, nodes.len() as int),
        );
    let (n2, a2) = choose|nodes: Seq<Pubkey>, at: int| #[trigger]
        tree.stands_at(seed, others, nodes, at) && other_out == nodes_at(
            nodes,
            children(at, tree.fanout as int, nodes.len() as int),
        );
    law_shuffle_unique(seed, members(tree.local, peers), n1, n2);
    if a1 < a2 {
        assert(comes_before(seed, n1[a1], n1[a2]));
    } else if a2 < a1 {
        assert(comes_before(seed, n1[a2], n1[a1]));
    }
}

/// A shred of its own leaves a node whenever it has a peer, whatever the
/// shuffle makes of it.
pub proof fn law_origin_always_emits(
    tree: TurbineTree,
    seed: u64,
    peers: Seq<Pubkey>,
    peer: Pubkey,
    out: Seq<Pubkey>,
)
    requires
        tree.wf(),
        peers.contains(peer),
        peer != tree.local,
        tree.originates_to(seed, peers, out),
    ensures
        out.len() > 0,
        out[0] != tree.local,
{
    let (nodes, at) = choose|nodes: Seq<Pubkey>, at: int| #[trigger]
        tree.stands_at(seed, peers, nodes, at) && out == (if at == 0 {
            nodes_at(nodes, children(0, tree.fanout as int, nodes.len() as int))
        } else {
            seq![nodes[0]]
        });
    assert(members(tree.local, peers).contains(peer));
    assert(nodes.contains(peer));
    let j = choose|j: int| 0 <= j < nodes.len() && nodes[j] == peer;
    if at == 0 {
        assert(nodes.len() > 1);
        let f = tree.fanout as int;
        assert(first_child(0, f) == 1) by (nonlinear_arith)
            requires
                first_child(0, f) == (0 - 0) * f + 0 + 1,
        ;
        let c = children(0, f, nodes.len() as int);
        assert(c[0] == 1);
        assert(comes_before(seed, nodes[0], nodes[1]));
        assert(out[0] == nodes[1]);
    } else {
        assert(comes_before(seed, nodes[0], nodes[at]));
    }
}

/// Where the node stands that passes a shred to the one at `index`.
pub open spec fn parent(index: int, fanout: int) -> int {
    if index <= fanout {
        0
    } else {
        let m = index - fanout - 1;
        1 + fanout * (m / (fanout * fanout)) + m % fanout
    }
}

/// The `k`-th child of the `o`-th sibling in group `q`.
proof fn lemma_child(q: int, o: int, k: int, f: int)
    requires
        0 < f,
        0 <= q,
        0 <= o < f,
        0 <= k < f,
    ensures
        ({
            let i = 1 + f * q + o;
            let j = first_child(i, f) + k * f;
            &&& sibling(i, f) == o
            &&& j == f + f * f * q + k * f + o + 1
            &&& j > f
            &&& parent(j, f) == i
            &&& i < j
        }),
{
    let i = 1 + f * q + o;
    assert(f * q + o == q * f + o) by (nonlinear_arith);
    assert(0 <= f * q) by (nonlinear_arith)
        requires
            0 < f,
            0 <= q,
    ;
    vstd::arithmetic::div_mod::lemma_fundamental_div_mod_converse(i - 1, f, q, o);
    assert(sibling(i, f) == o);
    let j = first_child(i, f) + k * f;
    assert((1 + f * q) * f == f + f * f * q) by (nonlinear_arith);
    let m = j - f - 1;
    let rem = k * f + o;
    assert(m == q * (f * f) + rem) by (nonlinear_arith)
        requires
            m == f * f * q + k * f + o,
            rem == k * f + o,
    ;
    assert(0 <= rem < f * f) by (nonlinear_arith)
        requires
            rem == k * f + o,
            0 <= k,
            k + 1 <= f,
            0 <= o < f,
    ;
    assert(0 < f * f) by (nonlinear_arith)
        requires
            0 < f,
    ;
    vstd::arithmetic::div_mod::lemma_fundamental_div_mod_converse(m, f * f, q, rem);
    assert(m == (f * q + k) * f + o) by (nonlinear_arith)
        requires
            m == q * (f * f) + rem,
            rem == k * f + o,
    ;
    vstd::arithmetic::div_mod::lemma_fundamental_div_mod_converse(m, f, f * q + k, o);
    assert(0 <= f * f * q && 0 <= k * f && f * q <= f * f * q) by (nonlinear_arith)
        requires
            0 < f,
            0 <= q,
            0 <= k,
    ;
}

/// Every node but the root is passed the shred by exactly one other, which
/// stands before it: so from the root the shred reaches all, each once.
pub proof fn law_tree_covers(fanout: int, node_len: int, index: int)
    requires
        0 < fanout,
        0 < index < node_len,
    ensures
        0 <= parent(index, fanout) < index,
        children(parent(index, fanout), fanout, node_len).contains(index),
        forall|i: int|
            0 <= i && #[trigger] children(i, fanout, node_len).contains(index) ==> i
                == parent(index, fanout),
{
    let f = fanout;
    let p = parent(index, f);
    assert(first_child(0, f) == 1) by (nonlinear_arith)
        requires
            first_child(0, f) == (0 - 0) * f + 0 + 1,
    ;
    if index <= f {
        lemma_strides(1, 1, f as nat, node_len);
        let s = children(0, f, node_len);
        let k = index - 1;
        assert(1 + k * 1 < node_len);
        assert(s[k] == index);
    } else {
        let m = index - f - 1;
        assert(0 < f * f) by (nonlinear_arith)
            requires
                0 < f,
        ;
        let q = m / (f * f);
        let rem = m % (f * f);
        let o = rem % f;
        let k = rem / f;
        vstd::arithmetic::div_mod::lemma_fundamental_div_mod(m, f * f);
        vstd::arithmetic::div_mod::lemma_fundamental_div_mod(rem, f);
        vstd::arithmetic::div_mod::lemma_mod_bound(m, f * f);
        vstd::arithmetic::div_mod::lemma_mod_bound(rem, f);
        vstd::arithmetic::div_mod::lemma_div_pos_is_pos(m, f * f);
        vstd::arithmetic::div_mod::lemma_div_pos_is_pos(rem, f);
        assert(k < f) by (nonlinear_arith)
            requires
                rem == f * k + o,
                rem < f * f,
                0 <= o,
                0 < f,
        ;
        lemma_child(q, o, k, f);
        let i = 1 + f * q + o;
        assert(first_child(i, f) + k * f == index) by {
            assert(f * f * q == (f * f) * q) by (nonlinear_arith);
            assert(k * f == f * k) by (nonlinear_arith);
        }
        assert(i == p);
        lemma_sibling(i, f);
        lemma_strides(first_child(i, f), f, f as nat, node_len);
        assert(0 <= f * q) by (nonlinear_arith)
            requires
                0 < f,
                0 <= q,
        ;
        let s = children(i, f, node_len);
        assert(first_child(i, f) + k * f < node_len);
        assert(s[k] == index);
    }
    assert forall|i: int|
        0 <= i && #[trigger] children(i, fanout, node_len).contains(index) implies i
        == parent(index, fanout) by {
        let s = children(i, f, node_len);
        lemma_sibling(i, f);
        let step = child_step(i, f);
        lemma_strides(first_child(i, f), step, f as nat, node_len);
        let k = choose|k: int| 0 <= k < s.len() && s[k] == index;
        assert(s[k] == first_child(i, f) + k * step);
        if i == 0 {
            assert(index == 1 + k * 1);
        } else {
            let o = (i - 1) % f;
            let q = (i - 1) / f;
            vstd::arithmetic::div_mod::lemma_fundamental_div_mod(i - 1, f);
            vstd::arithmetic::div_mod::lemma_mod_bound(i - 1, f);
            vstd::arithmetic::div_mod::lemma_div_pos_is_pos(i - 1, f);
            lemma_child(q, o, k, f);
        }
    }
}

/// A shuffle has no node twice.
proof fn lemma_no_twins(seed: u64, all: Set<Pubkey>, nodes: Seq<Pubkey>)
    requires
        is_shuffle(seed, all, nodes),
    ensures
        nodes.no_duplicates(),
{
    assert forall|i: int, j: int|
        0 <= i < nodes.len() && 0 <= j < nodes.len() && i != j implies nodes[i] != nodes[j] by {
        if i < j {
            assert(comes_before(seed, nodes[i], nodes[j]));
        } else {
            assert(comes_before(seed, nodes[j], nodes[i]));
        }
    }
}

/// A node passes a shred to peers of its own only, never to itself, to none
/// twice and to no more than its fanout.
pub proof fn law_retransmits_to_peers(
    tree: TurbineTree,
    seed: u64,
    peers: Seq<Pubkey>,
    out: Seq<Pubkey>,
)
    requires
        tree.wf(),
        tree.passes_to(seed, peers, out),
    ensures
        out.no_duplicates(),
        out.len() <= tree.fanout,
        forall|k: Pubkey| #[trigger] out.contains(k) ==> peers.contains(k) && k != tree.local,
{
    let (nodes, at) = choose|nodes: Seq<Pubkey>, at: int| #[trigger]
        tree.stands_at(seed, peers, nodes, at) && out == nodes_at(
            nodes,
            children(at, tree.fanout as int, nodes.len() as int),
        );
    let f = tree.fanout as int;
    let indices = children(at, f, nodes.len() as int);
    let first = first_child(at, f);
    let step = child_step(at, f);
    lemma_no_twins(seed, members(tree.local, peers), nodes);
    lemma_sibling(at, f);
    lemma_strides(first, step, f as nat, nodes.len() as int);
    let anchor = at - sibling(at, f);
    assert(anchor <= anchor * f) by (nonlinear_arith)
        requires
            0 <= anchor,
            0 < f,
    ;
    assert(at < first);
    assert forall|i: int| 0 <= i < indices.len() implies at < #[trigger] indices[i] by {
        assert(indices[i] == first + i * step);
        assert(0 <= i * step) by (nonlinear_arith)
            requires
                0 <= i,
                0 < step,
        ;
    }
    assert forall|i: int, j: int| 0 <= i < out.len() && 0 <= j < out.len() && i != j implies out[i]
        != out[j] by {
        assert(indices[i] == first + i * step && indices[j] == first + j * step);
        assert(i * step != j * step) by (nonlinear_arith)
            requires
                i != j,
                0 < step,
        ;
    }
    assert forall|k: Pubkey| #[trigger] out.contains(k) implies peers.contains(k) && k
        != tree.local by {
        let i = out.index_of(k);
        assert(out[i] == k && indices[i] < nodes.len());
        assert(nodes[indices[i]] == k);
        assert(nodes.contains(k));
        assert(members(tree.local, peers).contains(k));
    }
}

/// A shuffle goes by the digest of the shred's seed and then the node's key, and
/// by the keys where two digests are equal.
pub proof fn law_shuffle_goes_by_digests(seed: u64, a: Pubkey, b: Pubkey)
    ensures
        comes_before(seed, a, b) <==> {
            let x = DefaultHasher::spec_finish(seq![le_bytes(seed as nat, 8), a.bytes()]);
            let y = DefaultHasher::spec_finish(seq![le_bytes(seed as nat, 8), b.bytes()]);
            x < y || (x == y && from_be(a.bytes()) < from_be(b.bytes()))
        },
{
    law_keys_are_ordered_by_bytes(a, b);
    assert(Seq::empty().push(le_bytes(seed as nat, 8)).push(a.bytes()) =~= seq![
        le_bytes(seed as nat, 8),
        a.bytes(),
    ]);
    assert(Seq::empty().push(le_bytes(seed as nat, 8)).push(b.bytes()) =~= seq![
        le_bytes(seed as nat, 8),
        b.bytes(),
    ]);
}

/// Each shred has its own shuffle: what is hashed for a node tells the seed, and
/// what is hashed for the seed tells slot and index.
pub proof fn law_shreds_are_shuffled_apart(
    seed: u64,
    other: u64,
    node: Pubkey,
    a: ShredId,
    b: ShredId,
)
    ensures
        seed != other ==> seq![le_bytes(seed as nat, 8), node.bytes()] != seq![
            le_bytes(other as nat, 8),
            node.bytes(),
        ],
        a != b ==> seq![le_bytes(a.slot as nat, 8), le_bytes(a.index as nat, 4)] != seq![
            le_bytes(b.slot as nat, 8),
            le_bytes(b.index as nat, 4),
        ],
{
    lemma_byte_spans();
    let x = seq![le_bytes(seed as nat, 8), node.bytes()];
    let y = seq![le_bytes(other as nat, 8), node.bytes()];
    if seed != other {
        law_bytes_tell_numbers_apart(seed as nat, other as nat, 8);
        assert(x[0] != y[0]);
    }
    let p = seq![le_bytes(a.slot as nat, 8), le_bytes(a.index as nat, 4)];
    let q = seq![le_bytes(b.slot as nat, 8), le_bytes(b.index as nat, 4)];
    if a.slot != b.slot {
        law_bytes_tell_numbers_apart(a.slot as nat, b.slot as nat, 8);
        assert(p[0] != q[0]);
    } else if a.index != b.index {
        law_bytes_tell_numbers_apart(a.index as nat, b.index as nat, 4);
        assert(p[1] != q[1]);
    }
}

/// The seed of a shred is the digest of its slot and its index, whatever it
/// holds; that of what is no shred is the digest of its bytes, with how many
/// there are before them.
pub proof fn law_seed_is_of_the_shred(id: ShredId, payload: Seq<u8>)
    ensures
        seed_of(Some(id), payload) == DefaultHasher::spec_finish(
            seq![le_bytes(id.slot as nat, 8), le_bytes(id.index as nat, 4)],
        ),
        seed_of(None, payload) == DefaultHasher::spec_finish(
            seq![le_bytes(payload.len(), 8), payload],
        ),
{
    assert(Seq::empty().push(le_bytes(id.slot as nat, 8)).push(le_bytes(id.index as nat, 4))
        =~= seq![le_bytes(id.slot as nat, 8), le_bytes(id.index as nat, 4)]);
    assert(Seq::empty().push(le_bytes(payload.len(), 8)).push(payload) =~= seq![
        le_bytes(payload.len(), 8),
        payload,
    ]);
}

/// `giver` passes to `taker` what it receives, whatever it lists its peers as.
pub open spec fn passes(
    fanout: usize,
    seed: u64,
    all: Set<Pubkey>,
    giver: Pubkey,
    taker: Pubkey,
) -> bool {
    forall|peers: Seq<Pubkey>, out: Seq<Pubkey>| #[trigger]
        (TurbineTree { local: giver, fanout }).passes_to(seed, peers, out) && members(giver, peers)
            == all ==> out.contains(taker)
}

/// `giver` never passes to `taker` what it receives.
pub open spec fn withholds(
    fanout: usize,
    seed: u64,
    all: Set<Pubkey>,
    giver: Pubkey,
    taker: Pubkey,
) -> bool {
    forall|peers: Seq<Pubkey>, out: Seq<Pubkey>| #[trigger]
        (TurbineTree { local: giver, fanout }).passes_to(seed, peers, out) && members(giver, peers)
            == all ==> !out.contains(taker)
}

/// Nodes that know of each other agree on one tree: every node but the first of
/// the shuffle is passed a shred by exactly one other, which comes before it in
/// the shuffle, and the first by none.
pub proof fn law_every_node_is_reached_once(
    fanout: usize,
    seed: u64,
    all: Set<Pubkey>,
    nodes: Seq<Pubkey>,
    taker: Pubkey,
)
    requires
        0 < fanout,
        is_shuffle(seed, all, nodes),
        all.contains(taker),
    ensures
        taker != nodes[0] ==> exists|giver: Pubkey| #[trigger]
            passes(fanout, seed, all, giver, taker) && all.contains(giver) && comes_before(
                seed,
                giver,
                taker,
            ) && forall|other: Pubkey|
                all.contains(other) && other != giver ==> #[trigger] withholds(
                    fanout,
                    seed,
                    all,
                    other,
                    taker,
                ),
        taker == nodes[0] ==> forall|other: Pubkey|
            all.contains(other) ==> #[trigger] withholds(fanout, seed, all, other, taker),
{
    lemma_no_twins(seed, all, nodes);
    assert(nodes.contains(taker));
    let k = nodes.index_of(taker);
    let f = fanout as int;
    let len = nodes.len() as int;
    assert(nodes.contains(nodes[0]));
    if k > 0 {
        law_tree_covers(f, len, k);
        let p = parent(k, f);
        let giver = nodes[p];
        assert(nodes.contains(giver));
        assert forall|peers: Seq<Pubkey>, out: Seq<Pubkey>| #[trigger]
            (TurbineTree { local: giver, fanout }).passes_to(seed, peers, out) && members(
                giver,
                peers,
            ) == all implies out.contains(taker) by {
            let at = lemma_place(fanout, seed, all, nodes, giver, p, peers, out);
            let c = children(p, f, len);
            let j = c.index_of(k);
            assert(out[j] == nodes[c[j]]);
        }
        assert(passes(fanout, seed, all, giver, taker));
        assert(comes_before(seed, nodes[p], nodes[k]));
        assert forall|other: Pubkey|
            all.contains(other) && other != giver implies #[trigger] withholds(
            fanout,
            seed,
            all,
            other,
            taker,
        ) by {
            lemma_withholds(fanout, seed, all, nodes, other, k);
        }
    } else {
        assert forall|other: Pubkey| all.contains(other) implies #[trigger] withholds(
            fanout,
            seed,
            all,
            other,
            taker,
        ) by {
            lemma_withholds(fanout, seed, all, nodes, other, k);
        }
    }
}

/// Where a node stands is the same for all.
proof fn lemma_place(
    fanout: usize,
    seed: u64,
    all: Set<Pubkey>,
    nodes: Seq<Pubkey>,
    giver: Pubkey,
    p: int,
    peers: Seq<Pubkey>,
    out: Seq<Pubkey>,
) -> (at: int)
    requires
        is_shuffle(seed, all, nodes),
        0 <= p < nodes.len(),
        nodes[p] == giver,
        (TurbineTree { local: giver, fanout }).passes_to(seed, peers, out),
        members(giver, peers) == all,
    ensures
        at == p,
        out == nodes_at(nodes, children(p, fanout as int, nodes.len() as int)),
{
    let tree = TurbineTree { local: giver, fanout };
    let (n2, at) = choose|n2: Seq<Pubkey>, at: int| #[trigger]
        tree.stands_at(seed, peers, n2, at) && out == nodes_at(
            n2,
            children(at, fanout as int, n2.len() as int),
        );
    law_shuffle_unique(seed, all, nodes, n2);
    lemma_no_twins(seed, all, nodes);
    at
}

proof fn lemma_withholds(
    fanout: usize,
    seed: u64,
    all: Set<Pubkey>,
    nodes: Seq<Pubkey>,
    other: Pubkey,
    k: int,
)
    requires
        0 < fanout,
        is_shuffle(seed, all, nodes),
        0 <= k < nodes.len(),
        all.contains(other),
        k > 0 ==> other != nodes[parent(k, fanout as int)],
    ensures
        withholds(fanout, seed, all, other, nodes[k]),
{
    let f = fanout as int;
    let len = nodes.len() as int;
    lemma_no_twins(seed, all, nodes);
    assert(nodes.contains(other));
    let q = nodes.index_of(other);
    assert forall|peers: Seq<Pubkey>, out: Seq<Pubkey>| #[trigger]
        (TurbineTree { local: other, fanout }).passes_to(seed, peers, out) && members(
            other,
            peers,
        ) == all implies !out.contains(nodes[k]) by {
        let at = lemma_place(fanout, seed, all, nodes, other, q, peers, out);
        let c = children(q, f, len);
        if out.contains(nodes[k]) {
            let j = out.index_of(nodes[k]);
            lemma_children_below(q, f, len);
            lemma_sibling(q, f);
            lemma_strides(first_child(q, f), child_step(q, f), f as nat, len);
            let step = child_step(q, f);
            assert(0 <= j * step) by (nonlinear_arith)
                requires
                    0 <= j,
                    0 < step,
            ;
            assert(c[j] == first_child(q, f) + j * step);
            assert(0 < c[j] < len);
            assert(nodes[c[j]] == nodes[k]);
            assert(c[j] == k);
            assert(c.contains(k));
            law_tree_covers(f, len, k);
        }
    }
}

/// A shred of its own leaves a node by the root of the tree: the root passes it
/// on as any other, and another node hands it to the root.
pub proof fn law_own_shreds_start_at_the_root(
    tree: TurbineTree,
    seed: u64,
    peers: Seq<Pubkey>,
    nodes: Seq<Pubkey>,
    out: Seq<Pubkey>,
)
    requires
        tree.wf(),
        is_shuffle(seed, members(tree.local, peers), nodes),
        tree.originates_to(seed, peers, out),
    ensures
        nodes[0] == tree.local ==> tree.passes_to(seed, peers, out),
        nodes[0] != tree.local ==> out == seq![nodes[0]],
{
    let (n2, at) = choose|n2: Seq<Pubkey>, at: int| #[trigger]
        tree.stands_at(seed, peers, n2, at) && out == (if at == 0 {
            nodes_at(n2, children(0, tree.fanout as int, n2.len() as int))
        } else {
            seq![n2[0]]
        });
    let all = members(tree.local, peers);
    law_shuffle_unique(seed, all, nodes, n2);
    lemma_no_twins(seed, all, nodes);
    if nodes[0] == tree.local {
        assert(at == 0);
        assert(tree.stands_at(seed, peers, n2, at));
    }
}

/// Where the children of a node stand. Those of the root are the first nodes after
/// it, as many as the fanout. The nodes after the root come in groups as large as
/// the fanout, and those of a group take turns with the nodes of the stretch that
/// the group passes shreds to.
pub proof fn law_children_stand(fanout: int, node_len: int, group: int, k: int, j: int)
    requires
        0 < fanout,
        0 <= group,
        0 <= k < fanout,
        0 <= j < fanout,
    ensures
        ({
            let root = children(0, fanout, node_len);
            let index = 1 + group * fanout + k;
            let other = children(index, fanout, node_len);
            let child = (1 + group * fanout) * fanout + 1 + k + j * fanout;
            &&& 1 + j < node_len ==> j < root.len() && root[j] == 1 + j
            &&& 1 + j >= node_len ==> root.len() <= j
            &&& child < node_len ==> j < other.len() && other[j] == child
            &&& child >= node_len ==> other.len() <= j
            &&& root.len() <= fanout
            &&& other.len() <= fanout
        }),
{
    let index = 1 + group * fanout + k;
    assert(index > 0) by (nonlinear_arith)
        requires
            index == 1 + group * fanout + k,
            0 <= group,
            0 < fanout,
            0 <= k,
    ;
    assert((index - 1) % fanout == k) by {
        vstd::arithmetic::div_mod::lemma_fundamental_div_mod_converse(
            index - 1,
            fanout,
            group,
            k,
        );
    }
    let anchor = 1 + group * fanout;
    assert(sibling(index, fanout) == k);
    assert(index - sibling(index, fanout) == anchor);
    assert(first_child(index, fanout) == anchor * fanout + k + 1);
    assert(first_child(0, fanout) == 1) by {
        assert(0 * fanout == 0);
    }
    lemma_strides_stand(1, 1, fanout as nat, node_len, j);
    lemma_strides_stand(first_child(index, fanout), fanout, fanout as nat, node_len, j);
}

proof fn lemma_strides_stand(start: int, step: int, n: nat, limit: int, j: int)
    requires
        0 < step,
        0 <= j < n,
    ensures
        strides(start, step, n, limit).len() <= n,
        start + j * step < limit ==> j < strides(start, step, n, limit).len() && strides(
            start,
            step,
            n,
            limit,
        )[j] == start + j * step,
        start + j * step >= limit ==> strides(start, step, n, limit).len() <= j,
    decreases n,
{
    let s = strides(start, step, n, limit);
    if start < limit {
        let rest = strides(start + step, step, (n - 1) as nat, limit);
        if j > 0 {
            lemma_strides_stand(start + step, step, (n - 1) as nat, limit, j - 1);
            assert(start + step + (j - 1) * step == start + j * step) by (nonlinear_arith);
        } else if n > 1 {
            lemma_strides_stand(start + step, step, (n - 1) as nat, limit, 0);
        }
    } else {
        assert(j * step >= 0) by (nonlinear_arith)
            requires
                0 <= j,
                0 < step,
        ;
    }
}

} // verus!
