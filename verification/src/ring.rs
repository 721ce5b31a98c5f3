//! Ring lookup by rendezvous hashing.
//!
//! Every (node, partition) pair is given a pseudo-random score; a
//! partition is owned by the node with the highest score, ties broken by
//! the higher node identifier. Placement is deterministic and needs no
//! coordination, and it is stable under membership change: adding a node
//! moves a partition only if the new node itself wins it, so only about
//! one share in (n + 1) of the partitions moves — never a wholesale
//! reshuffle.

use vstd::prelude::*;
use vstd::wrapping::u64_specs;

verus! {

/// A 64-bit finalizer: xor-shifts interleaved with wrapping
/// multiplications by odd constants, spreading every input bit over the
/// whole word.
pub open spec fn mix64_spec(x: u64) -> u64 {
    let a = u64_specs::wrapping_mul(x ^ (x >> 30), 0xBF58476D1CE4E5B9);
    let b = u64_specs::wrapping_mul(a ^ (a >> 27), 0x94D049BB133111EB);
    b ^ (b >> 31)
}

pub fn mix64(x: u64) -> (r: u64)
    ensures
        r == mix64_spec(x),
{
    let a = (x ^ (x >> 30)).wrapping_mul(0xBF58476D1CE4E5B9);
    let b = (a ^ (a >> 27)).wrapping_mul(0x94D049BB133111EB);
    b ^ (b >> 31)
}

/// The rendezvous score of a node for a partition.
pub open spec fn score_spec(node: u64, partition: u64) -> u64 {
    mix64_spec(mix64_spec(partition) ^ node)
}

pub fn score(node: u64, partition: u64) -> (r: u64)
    ensures
        r == score_spec(node, partition),
{
    mix64(mix64(partition) ^ node)
}

/// Node `a` ranks strictly above node `b` for this partition: a higher
/// score, or an equal score and a higher identifier. A strict total order
/// on any set of distinct node identifiers.
pub open spec fn better(a: u64, b: u64, partition: u64) -> bool {
    ||| score_spec(a, partition) > score_spec(b, partition)
    ||| (score_spec(a, partition) == score_spec(b, partition) && a > b)
}

/// No node identifier occurs twice.
pub open spec fn distinct_nodes(nodes: Seq<u64>) -> bool {
    forall|i: int, j: int|
        0 <= i < nodes.len() && 0 <= j < nodes.len() && i != j ==> #[trigger] nodes[i]
            != #[trigger] nodes[j]
}

/// `o` is the member of `nodes` ranking above every other member for this
/// partition.
pub open spec fn is_owner(nodes: Seq<u64>, partition: u64, o: u64) -> bool {
    &&& nodes.contains(o)
    &&& forall|i: int| 0 <= i < nodes.len() && #[trigger] nodes[i] != o ==> better(o, nodes[i], partition)
}

/// A partition has at most one owner among distinct nodes.
pub proof fn lemma_owner_unique(nodes: Seq<u64>, partition: u64, a: u64, b: u64)
    requires
        is_owner(nodes, partition, a),
        is_owner(nodes, partition, b),
    ensures
        a == b,
{
    if a != b {
        let i = choose|i: int| 0 <= i < nodes.len() && nodes[i] == a;
        let j = choose|j: int| 0 <= j < nodes.len() && nodes[j] == b;
        assert(better(a, b, partition) && better(b, a, partition));
    }
}

/// The node owning this partition: the rendezvous winner.
pub fn owner_of(nodes: &Vec<u64>, partition: u64) -> (r: u64)
    requires
        nodes@.len() > 0,
    ensures
        is_owner(nodes@, partition, r),
{
    let mut best: u64 = nodes[0];
    let mut best_score: u64 = score(best, partition);
    let n = nodes.len();
    for i in 1..n
        invariant
            n == nodes@.len(),
            nodes@.contains(best),
            best_score == score_spec(best, partition),
            forall|k: int|
                0 <= k < i && #[trigger] nodes@[k] != best ==> better(best, nodes@[k], partition),
    {
        let c = nodes[i];
        let c_score = score(c, partition);
        if c_score > best_score || (c_score == best_score && c > best) {
            best = c;
            best_score = c_score;
            proof {
                assert(nodes@[i as int] == c);
            }
        }
    }
    best
}

/// Remap stability: when one node joins, a partition's owner either does
/// not move at all or moves to the new node — it never shuffles between
/// old nodes. The owner moves exactly when the new node out-ranks the old
/// owner, which for a well-mixed score happens for about one partition in
/// (n + 1).
pub proof fn lemma_ring_remap_stability(
    nodes: Seq<u64>,
    added: u64,
    partition: u64,
    owner_before: u64,
    owner_after: u64,
)
    requires
        distinct_nodes(nodes),
        !nodes.contains(added),
        is_owner(nodes, partition, owner_before),
        is_owner(nodes.push(added), partition, owner_after),
    ensures
        owner_after == if better(added, owner_before, partition) {
            added
        } else {
            owner_before
        },
{
    let grown = nodes.push(added);
    assert(forall|i: int| 0 <= i < nodes.len() ==> grown[i] == nodes[i]);
    assert(grown[nodes.len() as int] == added);
    if better(added, owner_before, partition) {
        assert(is_owner(grown, partition, added)) by {
            assert(grown.contains(added)) by {
                assert(grown[nodes.len() as int] == added);
            }
            assert forall|i: int|
                0 <= i < grown.len() && #[trigger] grown[i] != added implies better(
                added,
                grown[i],
                partition,
            ) by {
                assert(i < nodes.len());
                assert(grown[i] == nodes[i]);
                if nodes[i] != owner_before {
                    assert(better(owner_before, nodes[i], partition));
                }
            }
        }
        lemma_owner_unique(grown, partition, owner_after, added);
    } else {
        let j = choose|j: int| 0 <= j < nodes.len() && nodes[j] == owner_before;
        assert(owner_before != added);
        assert(better(owner_before, added, partition));
        assert(is_owner(grown, partition, owner_before)) by {
            assert(grown[j] == owner_before);
            assert(grown.contains(owner_before));
            assert forall|i: int|
                0 <= i < grown.len() && #[trigger] grown[i] != owner_before implies better(
                owner_before,
                grown[i],
                partition,
            ) by {
                if i < nodes.len() {
                    assert(grown[i] == nodes[i]);
                } else {
                    assert(grown[i] == added);
                }
            }
        }
        lemma_owner_unique(grown, partition, owner_after, owner_before);
    }
}

/// The replica set of a partition over nodes `0 .. n`: the rendezvous
/// winner first, then its successors around the ring, `count` distinct
/// nodes in all.
pub fn replica_indices(n: usize, replication_factor: usize, partition: u64) -> (r: Vec<usize>)
    requires
        n > 0,
    ensures
        r@.len() == if replication_factor <= n {
            replication_factor as int
        } else {
            n as int
        },
        forall|k: int| 0 <= k < r@.len() ==> #[trigger] r@[k] < n,
        forall|k: int, l: int|
            0 <= k < r@.len() && 0 <= l < r@.len() && k != l ==> #[trigger] r@[k] != #[trigger] r@[l],
{
    let count = if replication_factor <= n {
        replication_factor
    } else {
        n
    };
    let mut best: usize = 0;
    let mut best_score: u64 = score(0, partition);
    for i in 1..n
        invariant
            best < n,
    {
        let c_score = score(i as u64, partition);
        if c_score > best_score {
            best = i;
            best_score = c_score;
        }
    }
    let gap = n - best;
    let mut r: Vec<usize> = Vec::new();
    for k in 0..count
        invariant
            count <= n,
            best < n,
            gap == n - best,
            r@.len() == k,
            forall|t: int|
                0 <= t < k ==> #[trigger] r@[t] == if t < gap {
                    best + t
                } else {
                    t - gap
                },
            forall|t: int| 0 <= t < k ==> #[trigger] r@[t] < n,
    {
        let next = if k < gap {
            best + k
        } else {
            k - gap
        };
        r.push(next);
    }
    r
}

} // verus!
