//! What holds of every Merkle tree built here: how long its layers are, and
//! that its root is the root of the complete binary tree over the leaves
//! padded with zero leaves to a power of two.

use crate::blocks::{block_count, zeros};
use crate::digest::SHA256_LEN;
use crate::merkle::{filler, merkle_layer, merkle_root, next_layer, parent, tree_height};
use vstd::arithmetic::div_mod::lemma_div_denominator;
use vstd::arithmetic::power2::{lemma_pow2_pos, lemma_pow2_unfold, pow2};
use vstd::prelude::*;

verus! {

/// The parents of the pairs of a layer with an even number of hashes.
pub open spec fn pair_up(layer: Seq<Seq<u8>>) -> Seq<Seq<u8>> {
    Seq::new(layer.len() / 2, |i: int| parent(layer[2 * i], layer[2 * i + 1]))
}

/// Layer `level` of the complete binary tree over `leaves`, whose number is
/// a power of two.
pub open spec fn full_layer(leaves: Seq<Seq<u8>>, level: nat) -> Seq<Seq<u8>>
    decreases level,
{
    if level == 0 {
        leaves
    } else {
        pair_up(full_layer(leaves, (level - 1) as nat))
    }
}

/// `leaves` followed by as many zero leaves as it takes to make `2^height`.
pub open spec fn padded(leaves: Seq<Seq<u8>>, height: nat) -> Seq<Seq<u8>> {
    leaves + Seq::new((pow2(height) - leaves.len()) as nat, |i: int| zeros(SHA256_LEN as nat))
}

/// Halving a rounded-up quotient, rounding up again, is dividing by twice
/// as much.
proof fn lemma_halve_block_count(n: nat, size: nat)
    requires
        size > 0,
    ensures
        (block_count(n, size) + 1) / 2 == block_count(n, 2 * size),
{
    if n > 0 {
        lemma_div_denominator(n - 1, size as int, 2);
        assert(size * 2 == 2 * size);
    }
}

/// Layer `level` of a tree over `n` leaves holds `ceil(n / 2^level)` hashes.
pub proof fn lemma_layer_len(leaves: Seq<Seq<u8>>, level: nat)
    ensures
        merkle_layer(leaves, level).len() == block_count(leaves.len(), pow2(level)),
    decreases level,
{
    if level == 0 {
        assert(pow2(0) == 1) by {
            lemma_pow2_unfold(1);
            vstd::arithmetic::power2::lemma2_to64();
        }
    } else {
        let below = (level - 1) as nat;
        lemma_layer_len(leaves, below);
        lemma_pow2_pos(below);
        lemma_pow2_unfold(level);
        lemma_halve_block_count(leaves.len(), pow2(below));
    }
}

/// The height of a tree is the least `h` with `n <= 2^h`.
pub proof fn lemma_tree_height(n: nat)
    requires
        n >= 1,
    ensures
        n <= pow2(tree_height(n)),
        n > 1 ==> tree_height(n) >= 1 && pow2((tree_height(n) - 1) as nat) < n,
    decreases n,
{
    vstd::arithmetic::power2::lemma2_to64();
    if n > 1 {
        let half = ((n + 1) / 2) as nat;
        lemma_tree_height(half);
        lemma_pow2_unfold(tree_height(n));
        if half > 1 {
            lemma_pow2_unfold(tree_height(half));
        }
    }
}

/// In the complete tree over the padded leaves, each layer begins with the
/// layer of the tree over `leaves` and goes on with zero hashes of its level.
proof fn lemma_full_layer(leaves: Seq<Seq<u8>>, height: nat, level: nat)
    requires
        leaves.len() <= pow2(height),
        level <= height,
    ensures
        full_layer(padded(leaves, height), level).len() == pow2((height - level) as nat),
        merkle_layer(leaves, level).len() <= pow2((height - level) as nat),
        forall|i: int|
            0 <= i < pow2((height - level) as nat) ==> #[trigger] full_layer(
                padded(leaves, height),
                level,
            )[i] == if i < merkle_layer(leaves, level).len() {
                merkle_layer(leaves, level)[i]
            } else {
                filler(level)
            },
    decreases level,
{
    let all = padded(leaves, height);
    if level == 0 {
    } else {
        let below = (level - 1) as nat;
        lemma_full_layer(leaves, height, below);
        lemma_pow2_unfold((height - below) as nat);
        let wide = full_layer(all, below);
        let narrow = merkle_layer(leaves, below);
        let top = full_layer(all, level);
        let want = merkle_layer(leaves, level);
        assert(want == next_layer(narrow, filler(below)));
        assert forall|i: int| 0 <= i < pow2((height - level) as nat) implies #[trigger] top[i] == if i
            < want.len() {
            want[i]
        } else {
            filler(level)
        } by {
            assert(top[i] == parent(wide[2 * i], wide[2 * i + 1]));
        }
    }
}

/// The root of a file's tree is the root of the complete binary tree over
/// its leaves padded with zero leaves to the next power of two.
pub proof fn lemma_root_of_padded_tree(leaves: Seq<Seq<u8>>)
    requires
        leaves.len() >= 1,
    ensures
        leaves.len() <= pow2(tree_height(leaves.len())),
        leaves.len() > 1 ==> pow2((tree_height(leaves.len()) - 1) as nat) < leaves.len(),
        merkle_root(leaves) == full_layer(
            padded(leaves, tree_height(leaves.len())),
            tree_height(leaves.len()),
        )[0],
        full_layer(padded(leaves, tree_height(leaves.len())), tree_height(leaves.len())).len()
            == 1,
{
    let height = tree_height(leaves.len());
    lemma_tree_height(leaves.len());
    lemma_full_layer(leaves, height, height);
    lemma_layer_len(leaves, height);
    vstd::arithmetic::power2::lemma2_to64();
    lemma_pow2_pos(height);
    crate::blocks::lemma_block_count(leaves.len(), pow2(height));
}

} // verus!
