//! Per-file SHA-256 Merkle trees over 16 KiB leaves.
//!
//! A tree is stored bottom-up as a list of layers, each layer a flat buffer
//! of 32-byte hashes. A layer with an odd number of hashes is completed with
//! the *zero hash* of its level: the hash that a subtree of that height would
//! have if every leaf under it were 32 zero bytes.

use crate::blocks::{slot, slots, zero_bytes, zeros};
use crate::digest::{sha256, sha256_digest, SHA256_LEN};
use vstd::prelude::*;
use vstd::slice::slice_subrange;

verus! {

/// Number of bytes of file data under one Merkle leaf.
pub const MERKLE_PIECE_SIZE: u64 = 16384;

/// Number of zero hashes that a fresh `ZeroHashes` table holds. A tree over a
/// file of fewer than 2^64 bytes never asks for more.
pub const FILLER_LEVELS: usize = 50;

/// The hash of an inner node with children `left` and `right`.
pub open spec fn parent(left: Seq<u8>, right: Seq<u8>) -> Seq<u8> {
    sha256_digest(left + right)
}

/// The zero hash of `level`: 32 zero bytes at the leaves, and above them the
/// parent of two zero hashes of the level below.
pub open spec fn filler(level: nat) -> Seq<u8>
    decreases level,
{
    if level == 0 {
        zeros(SHA256_LEN as nat)
    } else {
        parent(filler((level - 1) as nat), filler((level - 1) as nat))
    }
}

/// The layer above `layer`: the parents of its pairs, the last hash paired
/// with `fill` when it has no partner.
pub open spec fn next_layer(layer: Seq<Seq<u8>>, fill: Seq<u8>) -> Seq<Seq<u8>> {
    Seq::new(
        ((layer.len() + 1) / 2) as nat,
        |i: int|
            parent(
                layer[2 * i],
                if 2 * i + 1 < layer.len() {
                    layer[2 * i + 1]
                } else {
                    fill
                },
            ),
    )
}

/// Layer `level` of the tree over `leaves` (layer 0 is `leaves` itself).
pub open spec fn merkle_layer(leaves: Seq<Seq<u8>>, level: nat) -> Seq<Seq<u8>>
    decreases level,
{
    if level == 0 {
        leaves
    } else {
        next_layer(merkle_layer(leaves, (level - 1) as nat), filler((level - 1) as nat))
    }
}

/// Number of layers above the leaves of a tree over `n` leaves.
pub open spec fn tree_height(n: nat) -> nat
    decreases n,
{
    if n <= 1 {
        0
    } else {
        1 + tree_height(((n + 1) / 2) as nat)
    }
}

/// The root of the tree over `leaves`: the single hash of its top layer.
pub open spec fn merkle_root(leaves: Seq<Seq<u8>>) -> Seq<u8> {
    merkle_layer(leaves, tree_height(leaves.len()))[0]
}

/// The zero hashes of the lowest levels, computed once and shared by all
/// trees. The table grows when a tree turns out to be higher.
pub struct ZeroHashes {
    levels: Vec<Vec<u8>>,
}

impl ZeroHashes {
    #[verifier::type_invariant]
    spec fn inv(self) -> bool {
        forall|l: int|
            0 <= l < self.levels@.len() ==> (#[trigger] self.levels@[l])@ == filler(l as nat)
                && self.levels@[l]@.len() == SHA256_LEN
    }

    /// Number of levels that the table holds.
    pub closed spec fn depth(self) -> nat {
        self.levels@.len()
    }

    /// A table of the first `FILLER_LEVELS` zero hashes.
    pub fn new() -> (table: Self)
        ensures
            table.depth() == FILLER_LEVELS,
    {
        let mut table = ZeroHashes { levels: Vec::new() };
        table.extend_to(FILLER_LEVELS - 1);
        table
    }

    /// Grows the table until it holds the zero hash of `level`.
    pub fn extend_to(&mut self, level: usize)
        requires
            level < usize::MAX,
        ensures
            final(self).depth() > level,
            final(self).depth() >= old(self).depth(),
            final(self).depth() == old(self).depth() || final(self).depth() == level + 1,
    {
        proof {
            use_type_invariant(&*self);
        }
        let mut levels: Vec<Vec<u8>> = Vec::new();
        core::mem::swap(&mut self.levels, &mut levels);
        while levels.len() <= level
            invariant
                level < usize::MAX,
                levels@.len() >= old(self).depth(),
                levels@.len() == old(self).depth() || levels@.len() <= level + 1,
                forall|l: int|
                    0 <= l < levels@.len() ==> (#[trigger] levels@[l])@ == filler(l as nat)
                        && levels@[l]@.len() == SHA256_LEN,
            decreases level + 1 - levels.len(),
        {
            let n = levels.len();
            let next = if n == 0 {
                zero_bytes(SHA256_LEN)
            } else {
                let mut both: Vec<u8> = Vec::new();
                both.extend_from_slice(levels[n - 1].as_slice());
                both.extend_from_slice(levels[n - 1].as_slice());
                assert(both@ =~= filler((n - 1) as nat) + filler((n - 1) as nat));
                sha256(both.as_slice())
            };
            levels.push(next);
        }
        self.levels = levels;
    }

    /// The zero hash of `level`.
    pub fn level(&self, level: usize) -> (hash: &Vec<u8>)
        requires
            level < self.depth(),
        ensures
            hash@ == filler(level as nat),
            hash@.len() == SHA256_LEN,
    {
        proof {
            use_type_invariant(self);
        }
        &self.levels[level]
    }
}

/// Builds the layer above `src`: one hash for each pair of hashes in `src`,
/// and one more that pairs a last lone hash with `fill`.
pub fn next_layer_bytes(src: &[u8], fill: &[u8]) -> (dst: Vec<u8>)
    requires
        src@.len() % 32 == 0,
        fill@.len() == 32,
    ensures
        dst@.len() == 32 * ((src@.len() / 32 + 1) / 2),
        slots(dst@, 32) == next_layer(slots(src@, 32), fill@),
{
    let ghost layer = slots(src@, 32);
    let total = src.len();
    let pairs = total / 64;
    let mut dst: Vec<u8> = Vec::new();
    let mut i: usize = 0;
    while i < pairs
        invariant
            total == src@.len(),
            pairs == total / 64,
            src@.len() % 32 == 0,
            layer == slots(src@, 32),
            i <= pairs,
            dst@.len() == 32 * i,
            forall|k: int|
                0 <= k < i ==> #[trigger] slot(dst@, 32, k) == parent(layer[2 * k], layer[2 * k + 1]),
        decreases pairs - i,
    {
        let mut hash = sha256(slice_subrange(src, i * 64, i * 64 + 64));
        proof {
            assert(src@.subrange(i * 64, i * 64 + 64) =~= layer[2 * i] + layer[2 * i + 1]);
        }
        let ghost before = dst@;
        dst.append(&mut hash);
        proof {
            assert forall|k: int| 0 <= k < i + 1 implies #[trigger] slot(dst@, 32, k) == parent(
                layer[2 * k],
                layer[2 * k + 1],
            ) by {
                if k < i {
                    assert(slot(dst@, 32, k) =~= slot(before, 32, k));
                } else {
                    assert(slot(dst@, 32, k) =~= parent(layer[2 * k], layer[2 * k + 1]));
                }
            }
        }
        i += 1;
    }
    if total % 64 != 0 {
        let mut both: Vec<u8> = Vec::new();
        both.extend_from_slice(slice_subrange(src, pairs * 64, total));
        both.extend_from_slice(fill);
        proof {
            assert(both@ =~= layer[2 * pairs] + fill@);
        }
        let mut hash = sha256(both.as_slice());
        let ghost before = dst@;
        dst.append(&mut hash);
        proof {
            assert forall|k: int| 0 <= k < pairs implies #[trigger] slot(dst@, 32, k) == slot(
                before,
                32,
                k,
            ) by {
                assert(slot(dst@, 32, k) =~= slot(before, 32, k));
            }
            assert(slot(dst@, 32, pairs as int) =~= parent(layer[2 * pairs], fill@));
        }
    }
    proof {
        let above = next_layer(layer, fill@);
        assert(slots(dst@, 32).len() == above.len());
        assert forall|k: int| 0 <= k < above.len() implies slots(dst@, 32)[k] == above[k] by {
            assert(slots(dst@, 32)[k] == slot(dst@, 32, k));
        }
        assert(slots(dst@, 32) =~= above);
    }
    dst
}

/// Completes a tree whose only layer so far is the leaf layer: appends the
/// layers above it, up to the root.
pub fn complete_tree(tree: &mut Vec<Vec<u8>>, zero: &mut ZeroHashes)
    requires
        old(tree)@.len() == 1,
        old(tree)@[0]@.len() % 32 == 0,
        old(tree)@[0]@.len() >= 32,
    ensures
        final(tree)@.len() == tree_height(old(tree)@[0]@.len() / 32) + 1,
        final(tree)@[0] == old(tree)@[0],
        forall|l: int|
            0 <= l < final(tree)@.len() ==> (#[trigger] final(tree)@[l])@.len() % 32 == 0 && slots(
                final(tree)@[l]@,
                32,
            ) == merkle_layer(slots(old(tree)@[0]@, 32), l as nat),
        final(tree)@.last()@.len() == 32,
        final(zero).depth() >= old(zero).depth(),
{
    let ghost leaves = slots(tree@[0]@, 32);
    let mut level: usize = 0;
    while tree[level].len() != 32
        invariant
            old(tree)@.len() == 1,
            tree@.len() == level + 1,
            tree@[0] == old(tree)@[0],
            leaves == slots(old(tree)@[0]@, 32),
            forall|l: int|
                0 <= l <= level ==> (#[trigger] tree@[l])@.len() % 32 == 0 && tree@[l]@.len() >= 32
                    && slots(tree@[l]@, 32) == merkle_layer(leaves, l as nat),
            tree_height(leaves.len()) == level + tree_height(tree@[level as int]@.len() / 32),
            zero.depth() >= old(zero).depth(),
        decreases tree@[level as int]@.len(),
    {
        let layers = tree.len();
        zero.extend_to(level);
        let above = next_layer_bytes(tree[level].as_slice(), zero.level(level).as_slice());
        tree.push(above);
        level += 1;
    }
}

} // verus!
