//! Merkle trees over hashes.

use crate::hashes::{sha256d, sha256d_digest, FullHash};
use vstd::prelude::*;

verus! {

/// The node above two nodes.
pub open spec fn node(left: FullHash, right: FullHash) -> FullHash {
    sha256d(left@ + right@)
}

/// A level of the tree, with its last node twice if there is an odd number of them.
pub open spec fn padded(hashes: Seq<FullHash>) -> Seq<FullHash> {
    if hashes.len() % 2 != 0 {
        hashes.push(hashes.last())
    } else {
        hashes
    }
}

/// The nodes above each two nodes of a level.
pub open spec fn level_above(hashes: Seq<FullHash>) -> Seq<FullHash> {
    Seq::new(
        padded(hashes).len() / 2,
        |i: int| node(padded(hashes)[2 * i], padded(hashes)[2 * i + 1]),
    )
}

/// The position of the other node under the same node.
pub open spec fn sibling(index: int) -> int {
    if index % 2 == 0 {
        index + 1
    } else {
        index - 1
    }
}

/// The root of the tree over the hashes.
pub open spec fn merkle_root(hashes: Seq<FullHash>) -> FullHash
    decreases hashes.len(),
{
    if hashes.len() <= 1 {
        hashes[0]
    } else {
        merkle_root(level_above(hashes))
    }
}

/// The siblings on the way from position `index` up to the root.
pub open spec fn merkle_branch(hashes: Seq<FullHash>, index: int) -> Seq<FullHash>
    decreases hashes.len(),
{
    if hashes.len() <= 1 {
        Seq::empty()
    } else {
        seq![padded(hashes)[sibling(index)]] + merkle_branch(level_above(hashes), index / 2)
    }
}

/// The node that is reached from `start` at position `index` along a branch.
pub open spec fn climb(start: FullHash, index: int, branch: Seq<FullHash>) -> FullHash
    decreases branch.len(),
{
    if branch.len() == 0 {
        start
    } else if index % 2 == 0 {
        climb(node(start, branch[0]), index / 2, branch.drop_first())
    } else {
        climb(node(branch[0], start), index / 2, branch.drop_first())
    }
}

/// Whether there is a branch from position `index`.
pub open spec fn has_branch(hashes: Seq<FullHash>, index: int) -> bool {
    hashes.len() == 1 || (hashes.len() > 1 && 0 <= index < padded(hashes).len())
}

/// The branch from a hash leads from it to the root.
pub proof fn law_branch_leads_to_root(hashes: Seq<FullHash>, index: int)
    requires
        0 <= index < hashes.len(),
    ensures
        climb(hashes[index], index, merkle_branch(hashes, index)) == merkle_root(hashes),
    decreases hashes.len(),
{
    if hashes.len() > 1 {
        let up = level_above(hashes);
        let branch = merkle_branch(hashes, index);
        law_branch_leads_to_root(up, index / 2);
        assert(branch.drop_first() =~= merkle_branch(up, index / 2));
        assert(branch[0] == padded(hashes)[sibling(index)]);
        assert(padded(hashes)[index] == hashes[index]);
        if index % 2 == 0 {
            assert(2 * (index / 2) == index);
        } else {
            assert(2 * (index / 2) + 1 == index);
        }
    }
}

/// A single hash is the root over itself, and the branch from it is empty.
pub proof fn law_single_hash(hash: FullHash)
    ensures
        merkle_root(seq![hash]) == hash,
        merkle_branch(seq![hash], 0).len() == 0,
{
}

/// The root over two hashes is the double SHA-256 of the one followed by the other, and each of
/// them is the branch from the other.
pub proof fn law_two_hashes(left: FullHash, right: FullHash)
    ensures
        merkle_root(seq![left, right]) == sha256d(left@ + right@),
        merkle_branch(seq![left, right], 0) == seq![right],
        merkle_branch(seq![left, right], 1) == seq![left],
{
    let hashes = seq![left, right];
    reveal_with_fuel(merkle_root, 3);
    reveal_with_fuel(merkle_branch, 3);
    assert(level_above(hashes)[0] == node(left, right));
    assert(merkle_branch(hashes, 0) =~= seq![right]);
    assert(merkle_branch(hashes, 1) =~= seq![left]);
}

/// An odd number of hashes, above one, has the tree of these hashes followed by their last one:
/// the same root, and the same branch from each position. The last hash is the first node of
/// the branch from itself.
pub proof fn law_odd_number_of_hashes(hashes: Seq<FullHash>, index: int)
    requires
        hashes.len() > 1,
        hashes.len() % 2 == 1,
        0 <= index < hashes.len(),
    ensures
        merkle_root(hashes) == merkle_root(hashes.push(hashes[hashes.len() - 1])),
        merkle_branch(hashes, index) == merkle_branch(
            hashes.push(hashes[hashes.len() - 1]),
            index,
        ),
        merkle_branch(hashes, hashes.len() - 1)[0] == hashes[hashes.len() - 1],
{
    let even = hashes.push(hashes[hashes.len() - 1]);
    assert(padded(hashes) =~= even);
    assert(padded(even) =~= even);
    assert(level_above(hashes) =~= level_above(even));
}

/// Where each two of an even number of hashes stand under one node, which is the double SHA-256
/// of the first followed by the second, the tree over the hashes is the tree over the nodes with
/// one more level: the root is the same, and the branch from a hash begins with the other hash
/// under its node and goes on with the branch from that node.
pub proof fn law_nodes_above_pairs(hashes: Seq<FullHash>, above: Seq<FullHash>, index: int)
    requires
        above.len() > 0,
        hashes.len() == 2 * above.len(),
        forall|i: int|
            0 <= i < above.len() ==> #[trigger] above[i] == sha256d(
                hashes[2 * i]@ + hashes[2 * i + 1]@,
            ),
        0 <= index < above.len(),
    ensures
        merkle_root(hashes) == merkle_root(above),
        merkle_branch(hashes, 2 * index) == seq![hashes[2 * index + 1]] + merkle_branch(
            above,
            index,
        ),
        merkle_branch(hashes, 2 * index + 1) == seq![hashes[2 * index]] + merkle_branch(
            above,
            index,
        ),
{
    assert(padded(hashes) == hashes);
    assert(level_above(hashes) =~= above);
    assert((2 * index) / 2 == index && (2 * index + 1) / 2 == index);
    assert((2 * index) % 2 == 0 && (2 * index + 1) % 2 == 1);
}

/// A branch has as many nodes as there are levels below the root.
pub open spec fn levels(count: nat) -> nat
    decreases count,
{
    if count <= 1 {
        0
    } else {
        1 + levels((count + count % 2) / 2)
    }
}

/// The length of a branch depends on the number of hashes alone.
pub proof fn law_branch_length(hashes: Seq<FullHash>, index: int)
    ensures
        merkle_branch(hashes, index).len() == levels(hashes.len()),
    decreases hashes.len(),
{
    if hashes.len() > 1 {
        law_branch_length(level_above(hashes), index / 2);
    }
}

/// The node above two nodes: the double SHA-256 of the one followed by the other.
pub fn merklize(left: FullHash, right: FullHash) -> (above: FullHash)
    ensures
        above == node(left, right),
{
    let mut data: Vec<u8> = Vec::new();
    data.extend_from_slice(left.as_slice());
    data.extend_from_slice(right.as_slice());
    assert(data@ =~= left@ + right@);
    sha256d_digest(data.as_slice())
}

/// The siblings on the way from position `index` up to the root, and the root.
pub fn create_merkle_branch_and_root(hashes: Vec<FullHash>, index: usize) -> (result: (
    Vec<FullHash>,
    FullHash,
))
    requires
        has_branch(hashes@, index as int),
    ensures
        result.0@ == merkle_branch(hashes@, index as int),
        result.1 == merkle_root(hashes@),
{
    let mut level = hashes;
    let mut position: usize = index;
    let mut merkle: Vec<FullHash> = Vec::new();
    assert(merkle@ + merkle_branch(level@, position as int) =~= merkle_branch(
        hashes@,
        index as int,
    ));
    while level.len() > 1
        invariant
            has_branch(level@, position as int),
            merkle@ + merkle_branch(level@, position as int) == merkle_branch(
                hashes@,
                index as int,
            ),
            merkle_root(level@) == merkle_root(hashes@),
        decreases level.len(),
    {
        let ghost (below, before) = (level@, merkle@);
        if level.len() % 2 != 0 {
            let last = level[level.len() - 1];
            level.push(last);
        }
        assert(level@ =~= padded(below));
        let other: usize = if position % 2 == 0 {
            position + 1
        } else {
            position - 1
        };
        merkle.push(level[other]);
        let mut above: Vec<FullHash> = Vec::new();
        let half: usize = level.len() / 2;
        for i in 0..half
            invariant
                level@ == padded(below),
                half == level.len() / 2,
                above@ =~= level_above(below).take(i as int),
        {
            above.push(merklize(level[2 * i], level[2 * i + 1]));
        }
        assert(above@ =~= level_above(below));
        assert(merkle@ + merkle_branch(above@, position as int / 2) =~= before + merkle_branch(
            below,
            position as int,
        ));
        position = position / 2;
        level = above;
    }
    assert(merkle@ =~= merkle@ + merkle_branch(level@, position as int));
    (merkle, level[0])
}

} // verus!
