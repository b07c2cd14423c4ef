//! The two hash streams of a stretch of file data: one SHA-1 digest per
//! piece, and one SHA-256 digest per 16 KiB leaf.

use crate::blocks::{
    block, block_count, lemma_append_slot, lemma_block_count, lemma_block_index, lemma_slots_are,
    slot, slots, zero_bytes, zeros,
};
use crate::digest::{sha1, sha1_digest, sha256, sha256_digest};
use crate::merkle::MERKLE_PIECE_SIZE;
use vstd::prelude::*;
use vstd::slice::slice_subrange;

verus! {

/// Smallest piece size: one Merkle leaf.
pub const MIN_PIECE_SIZE: u64 = 16384;

/// Largest piece size: 2 MiB.
pub const MAX_PIECE_SIZE: u64 = 2097152;

/// Whether `size` is a power of two between 16 KiB and 2 MiB.
pub open spec fn is_piece_size(size: u64) -> bool {
    size == 16384 || size == 32768 || size == 65536 || size == 131072 || size == 262144 || size
        == 524288 || size == 1048576 || size == 2097152
}

/// The piece size of a torrent of less than 50 GiB, unless the caller names
/// one.
pub const SMALL_TORRENT_PIECE_SIZE: u64 = 262144;

/// The piece size of a torrent of 50 GiB or more, unless the caller names
/// one.
pub const LARGE_TORRENT_PIECE_SIZE: u64 = 1048576;

/// From this total size on a torrent counts as large: 50 GiB.
pub const LARGE_TORRENT_BYTES: u64 = 53687091200;

/// The piece size of a torrent of `total` bytes: the size that the caller
/// names, or else one chosen by the total size.
pub open spec fn chosen_piece_size(user: Option<u64>, total: nat) -> u64 {
    match user {
        Some(size) => size,
        None => if total < LARGE_TORRENT_BYTES {
            SMALL_TORRENT_PIECE_SIZE
        } else {
            LARGE_TORRENT_PIECE_SIZE
        },
    }
}

/// The binary logarithm of the number of leaves under one piece: the index
/// of the Merkle layer that holds one hash per piece.
pub open spec fn piece_level_of(size: u64) -> u64 {
    if size <= 16384 {
        0
    } else if size <= 32768 {
        1
    } else if size <= 65536 {
        2
    } else if size <= 131072 {
        3
    } else if size <= 262144 {
        4
    } else if size <= 524288 {
        5
    } else if size <= 1048576 {
        6
    } else {
        7
    }
}

/// Picks the piece size of a torrent of `total` bytes.
pub fn choose_piece_size(user: Option<u64>, total: u64) -> (size: u64)
    ensures
        size == chosen_piece_size(user, total as nat),
        user is None ==> is_piece_size(size),
{
    match user {
        Some(size) => size,
        None => if total < LARGE_TORRENT_BYTES {
            SMALL_TORRENT_PIECE_SIZE
        } else {
            LARGE_TORRENT_PIECE_SIZE
        },
    }
}

/// Counts how often 16 KiB doubles until it reaches `size`.
pub fn piece_level(size: u64) -> (level: u64)
    requires
        is_piece_size(size),
    ensures
        level == piece_level_of(size),
        size == 16384 * vstd::arithmetic::power2::pow2(level as nat),
{
    let mut level: u64 = 0;
    let mut tmp: u64 = MIN_PIECE_SIZE;
    proof {
        vstd::arithmetic::power2::lemma2_to64();
    }
    while tmp < size
        invariant
            is_piece_size(size),
            is_piece_size(tmp),
            tmp <= size,
            level == piece_level_of(tmp),
            tmp == 16384 * vstd::arithmetic::power2::pow2(level as nat),
        decreases size - tmp,
    {
        proof {
            vstd::arithmetic::power2::lemma_pow2_unfold((level + 1) as nat);
        }
        tmp = tmp * 2;
        level = level + 1;
    }
    level
}

/// Tests whether `size` is a power of two between 16 KiB and 2 MiB.
pub fn check_piece_size(size: u64) -> (ok: bool)
    ensures
        ok == is_piece_size(size),
{
    if size < MIN_PIECE_SIZE || size > MAX_PIECE_SIZE {
        return false;
    }
    let ok = size & (size - 1) == 0;
    assert(ok == is_piece_size(size)) by (bit_vector)
        requires
            16384 <= size <= 2097152,
            ok == (size & ((size - 1) as u64) == 0),
            is_piece_size(size) == (size == 16384 || size == 32768 || size == 65536 || size
                == 131072 || size == 262144 || size == 524288 || size == 1048576 || size
                == 2097152),
    ;
    ok
}

/// What is hashed for piece `k` of `data`: its `k`-th block of `piece_size`
/// bytes, followed, where `zero_fill` is set, by the zero bytes that a short
/// block lacks.
pub open spec fn v1_piece_input(data: Seq<u8>, piece_size: nat, k: int, zero_fill: bool) -> Seq<u8> {
    let bytes = block(data, piece_size, k);
    if zero_fill {
        bytes + zeros((piece_size - bytes.len()) as nat)
    } else {
        bytes
    }
}

/// The SHA-1 digests of the pieces of `data`, in order.
pub open spec fn v1_digests(data: Seq<u8>, piece_size: nat, zero_fill: bool) -> Seq<Seq<u8>> {
    Seq::new(
        block_count(data.len(), piece_size),
        |k: int| sha1_digest(v1_piece_input(data, piece_size, k, zero_fill)),
    )
}

/// The SHA-256 digests of the 16 KiB leaves of `data`, in order.
pub open spec fn leaf_digests(data: Seq<u8>) -> Seq<Seq<u8>> {
    Seq::new(
        block_count(data.len(), MERKLE_PIECE_SIZE as nat),
        |k: int| sha256_digest(block(data, MERKLE_PIECE_SIZE as nat, k)),
    )
}

/// The digests that hashing one stretch of data yields: `v1` holds its SHA-1
/// piece digests and `v2` its SHA-256 leaf digests, each back to back.
#[derive(Clone, Debug)]
pub struct JobOutput {
    pub v1: Vec<u8>,
    pub v2: Vec<u8>,
}

/// Appends the leaf digests of `region[from..to]` to `v2`, where `from` is
/// on a leaf boundary.
fn hash_leaves(region: &[u8], from: usize, to: usize, v2: &mut Vec<u8>)
    requires
        from % 16384 == 0,
        from < to <= region@.len(),
        to == region@.len() || to % 16384 == 0,
        old(v2)@.len() == 32 * (from / 16384),
        forall|k: int|
            0 <= k < from / 16384 ==> #[trigger] slot(old(v2)@, 32, k) == leaf_digests(region@)[k],
    ensures
        final(v2)@.len() == 32 * block_count(to as nat, 16384),
        forall|k: int|
            0 <= k < block_count(to as nat, 16384) ==> #[trigger] slot(final(v2)@, 32, k)
                == leaf_digests(region@)[k],
{
    let mut cursor: usize = from;
    while cursor < to
        invariant
            from <= cursor <= to <= region@.len(),
            to == region@.len() || to % 16384 == 0,
            cursor == to || cursor % 16384 == 0,
            v2@.len() == 32 * block_count(cursor as nat, 16384),
            forall|k: int|
                0 <= k < block_count(cursor as nat, 16384) ==> #[trigger] slot(v2@, 32, k)
                    == leaf_digests(region@)[k],
        decreases to - cursor,
    {
        let leaf_end: usize = if to - cursor > 16384 {
            cursor + 16384
        } else {
            to
        };
        let ghost k0 = cursor as int / 16384;
        proof {
            lemma_block_index(region@.len(), 16384, k0);
            assert(block(region@, 16384, k0) =~= region@.subrange(cursor as int, leaf_end as int));
        }
        let mut hash = sha256(slice_subrange(region, cursor, leaf_end));
        let ghost before = v2@;
        let ghost digest = hash@;
        v2.append(&mut hash);
        proof {
            lemma_append_slot(before, digest, 32, k0);
        }
        cursor = leaf_end;
    }
}

/// Hashes `region` as a stretch of data of its own: one SHA-1 digest per
/// piece of `piece_size` bytes and one SHA-256 digest per 16 KiB leaf. With
/// `zero_fill`, a short last piece is hashed as if zero bytes completed it.
pub fn hash_region(region: &[u8], piece_size: usize, zero_fill: bool) -> (out: JobOutput)
    requires
        is_piece_size(piece_size as u64),
    ensures
        out.v1@.len() == 20 * block_count(region@.len(), piece_size as nat),
        slots(out.v1@, 20) == v1_digests(region@, piece_size as nat, zero_fill),
        out.v2@.len() == 32 * block_count(region@.len(), 16384),
        slots(out.v2@, 32) == leaf_digests(region@),
{
    let len: usize = region.len();
    let mut v1: Vec<u8> = Vec::new();
    let mut v2: Vec<u8> = Vec::new();
    let mut piece_start: usize = 0;
    let ghost mut done: int = 0;
    while piece_start < len
        invariant
            is_piece_size(piece_size as u64),
            len == region@.len(),
            0 <= done,
            piece_start <= len,
            piece_start == len || piece_start == done * piece_size,
            piece_start == len || piece_start % 16384 == 0,
            piece_start == len ==> done == block_count(len as nat, piece_size as nat),
            v1@.len() == 20 * done,
            forall|k: int|
                0 <= k < done ==> #[trigger] slot(v1@, 20, k) == v1_digests(
                    region@,
                    piece_size as nat,
                    zero_fill,
                )[k],
            v2@.len() == 32 * block_count(piece_start as nat, 16384),
            forall|k: int|
                0 <= k < block_count(piece_start as nat, 16384) ==> #[trigger] slot(v2@, 32, k)
                    == leaf_digests(region@)[k],
        decreases len - piece_start,
    {
        let piece_end: usize = if len - piece_start > piece_size {
            piece_start + piece_size
        } else {
            len
        };
        proof {
            lemma_block_index(len as nat, piece_size as nat, done);
            assert((done + 1) * piece_size == done * piece_size + piece_size)
                by (nonlinear_arith);
            if piece_end < len {
                assert(piece_end % 16384 == 0);
            }
            assert(block(region@, piece_size as nat, done) =~= region@.subrange(
                piece_start as int,
                piece_end as int,
            ));
        }
        hash_leaves(region, piece_start, piece_end, &mut v2);
        let bytes = slice_subrange(region, piece_start, piece_end);
        let mut hash = if zero_fill {
            let mut whole: Vec<u8> = Vec::new();
            whole.extend_from_slice(bytes);
            let mut pad = zero_bytes(piece_size - (piece_end - piece_start));
            whole.append(&mut pad);
            proof {
                assert(whole@ =~= v1_piece_input(region@, piece_size as nat, done, zero_fill));
            }
            sha1(whole.as_slice())
        } else {
            sha1(bytes)
        };
        let ghost before = v1@;
        let ghost digest = hash@;
        v1.append(&mut hash);
        proof {
            lemma_append_slot(before, digest, 20, done);
            if piece_end == len {
                lemma_block_count(len as nat, piece_size as nat);
                lemma_block_index(len as nat, piece_size as nat, done + 1);
            }
            done = done + 1;
        }
        piece_start = piece_end;
    }
    proof {
        lemma_slots_are(v1@, 20, v1_digests(region@, piece_size as nat, zero_fill));
        lemma_slots_are(v2@, 32, leaf_digests(region@));
    }
    JobOutput { v1, v2 }
}

} // verus!
