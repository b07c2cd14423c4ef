//! Hash jobs: how a file is cut into stretches that can be hashed
//! independently, and what hashing one stretch yields.
//!
//! A job covers a run of whole pieces of one file (the last job of a file
//! may end in a short piece). Jobs of one file cover it without gaps or
//! overlap, so each digest of the file is computed by exactly one job.

use crate::blocks::{
    block, block_count, lemma_block_count_exact, lemma_block_index, slots, zeros,
};
use crate::merkle::MERKLE_PIECE_SIZE;
use crate::pieces::{
    check_piece_size, hash_region, is_piece_size, leaf_digests, v1_digests, v1_piece_input,
    JobOutput,
};
use vstd::arithmetic::div_mod::{
    lemma_div_is_ordered_by_denominator, lemma_fundamental_div_mod, lemma_mod_bound,
};
use vstd::prelude::*;
use vstd::slice::slice_subrange;

verus! {

/// No job covers more than this many bytes of file data, short of one piece.
pub const MAX_JOB_BYTES: u64 = 1073741824;

/// A unit of hashing work: a stretch of one file.
#[derive(Clone, Copy, Debug, PartialEq, Eq, Structural)]
pub struct HashJob {
    /// Index of the file in the torrent's file list.
    pub file: usize,
    /// Where the stretch starts in the file; a multiple of the piece size.
    pub offset: u64,
    /// How many bytes of file data the stretch holds.
    pub data_len: u64,
    /// How many SHA-1 piece digests the job yields.
    pub v1_pieces: u64,
    /// The piece size of the torrent.
    pub v1_piece_size: u64,
    /// Whether a short last piece is hashed as if zero bytes completed it.
    pub v1_last_hash_zero_fill: bool,
    /// How many SHA-256 leaf digests the job yields.
    pub v2_pieces: u64,
}

/// Into how many jobs a file of `length` bytes is cut.
pub open spec fn job_count(length: nat) -> nat {
    block_count(length, MAX_JOB_BYTES as nat)
}

/// How many of a file's `pieces` pieces job `j` of `jobs` gets: the pieces
/// are shared out evenly, the first jobs taking one more where the division
/// leaves a remainder.
pub open spec fn job_pieces(pieces: nat, jobs: nat, j: int) -> nat {
    if j < pieces % jobs {
        pieces / jobs + 1
    } else {
        pieces / jobs
    }
}

/// Index of the first piece of job `j`: the number of pieces that the jobs
/// before it get.
pub open spec fn job_first_piece(pieces: nat, jobs: nat, j: int) -> nat {
    let extra = if j < pieces % jobs {
        j
    } else {
        (pieces % jobs) as int
    };
    (j * (pieces / jobs) + extra) as nat
}

/// Job `j` of the file with index `file`, `length` bytes long, in a torrent
/// with pieces of `piece_size` bytes. `is_last` says that the file is the
/// last one of the torrent that holds data: its last piece is hashed as it
/// is, where that of any other file is completed with zero bytes.
pub open spec fn planned_job(
    file: usize,
    length: u64,
    piece_size: u64,
    is_last: bool,
    j: int,
) -> HashJob {
    let pieces = block_count(length as nat, piece_size as nat);
    let leaves = block_count(length as nat, MERKLE_PIECE_SIZE as nat) as int;
    let jobs = job_count(length as nat);
    let first = job_first_piece(pieces, jobs, j) as int;
    let count = job_pieces(pieces, jobs, j) as int;
    let factor = piece_size as int / MERKLE_PIECE_SIZE as int;
    let offset = first * piece_size;
    let right = if (first + count) * piece_size <= length {
        (first + count) * piece_size
    } else {
        length as int
    };
    let leaves_left = leaves - first * factor;
    HashJob {
        file,
        offset: offset as u64,
        data_len: (right - offset) as u64,
        v1_pieces: count as u64,
        v1_piece_size: piece_size,
        v1_last_hash_zero_fill: !(j == jobs - 1 && is_last),
        v2_pieces: (if count * factor <= leaves_left {
            count * factor
        } else {
            leaves_left
        }) as u64,
    }
}

/// The jobs of one file, in order.
pub open spec fn planned_jobs(file: usize, length: u64, piece_size: u64, is_last: bool) -> Seq<
    HashJob,
> {
    Seq::new(
        job_count(length as nat),
        |j: int| planned_job(file, length, piece_size, is_last, j),
    )
}

/// How the pieces and leaves of a file are shared among its jobs: every job
/// gets at least one piece; each job starts where the one before it ends;
/// all jobs but the last lie wholly inside the file, and the last ends with
/// the file's last piece.
pub proof fn lemma_job_shares(length: u64, piece_size: u64, j: int)
    requires
        is_piece_size(piece_size),
        length > 0,
        0 <= j < job_count(length as nat),
    ensures
        ({
            let pieces = block_count(length as nat, piece_size as nat);
            let leaves = block_count(length as nat, MERKLE_PIECE_SIZE as nat);
            let jobs = job_count(length as nat);
            let first = job_first_piece(pieces, jobs, j);
            let count = job_pieces(pieces, jobs, j);
            let factor = piece_size as nat / MERKLE_PIECE_SIZE as nat;
            &&& 1 <= jobs <= pieces
            &&& pieces <= 0x4_0000_0000_0000
            &&& leaves <= 0x4_0000_0000_0000
            &&& count >= 1
            &&& j == 0 ==> first == 0
            &&& job_first_piece(pieces, jobs, j + 1) == first + count
            &&& first * piece_size < length
            &&& first * factor < leaves
            &&& j < jobs - 1 ==> first + count < pieces && (first + count) * piece_size < length
                && (first + count) * factor < leaves
            &&& j == jobs - 1 ==> first + count == pieces && (first + count) * piece_size >= length
                && (first + count) * factor >= leaves
        }),
{
    let size = piece_size as int;
    let len = length as int;
    let pieces = block_count(length as nat, piece_size as nat) as int;
    let leaves = block_count(length as nat, MERKLE_PIECE_SIZE as nat) as int;
    let jobs = job_count(length as nat) as int;
    let first = job_first_piece(pieces as nat, jobs as nat, j) as int;
    let next = job_first_piece(pieces as nat, jobs as nat, j + 1) as int;
    let count = job_pieces(pieces as nat, jobs as nat, j) as int;
    let factor = size / 16384;
    let q = pieces / jobs;
    let r = pieces % jobs;
    lemma_div_is_ordered_by_denominator(len - 1, size, MAX_JOB_BYTES as int);
    lemma_fundamental_div_mod(pieces, jobs);
    lemma_mod_bound(pieces, jobs);
    assert(q >= 1) by (nonlinear_arith)
        requires
            pieces == jobs * q + r,
            0 <= r < jobs,
            pieces >= jobs,
    ;
    assert((j + 1) * q == j * q + q) by (nonlinear_arith);
    assert(next == first + count);
    // The jobs after this one get at least one piece each.
    assert(next + (jobs - j - 1) <= pieces) by (nonlinear_arith)
        requires
            pieces == jobs * q + r,
            0 <= r < jobs,
            q >= 1,
            0 <= j < jobs,
            next == (j + 1) * q + (if j + 1 < r {
                j + 1
            } else {
                r
            }),
    ;
    assert(j == jobs - 1 ==> next == pieces) by (nonlinear_arith)
        requires
            pieces == jobs * q + r,
            0 <= r < jobs,
            next == (j + 1) * q + (if j + 1 < r {
                j + 1
            } else {
                r
            }),
    ;
    assert(size == factor * 16384);
    lemma_block_index(length as nat, size as nat, first);
    lemma_block_index(length as nat, size as nat, next);
    assert(first * factor * 16384 == first * size) by (nonlinear_arith)
        requires
            size == factor * 16384,
    ;
    assert(next * factor * 16384 == next * size) by (nonlinear_arith)
        requires
            size == factor * 16384,
    ;
    assert(first * factor >= 0 && next * factor >= 0) by (nonlinear_arith)
        requires
            first >= 0,
            next >= 0,
            factor >= 0,
    ;
    lemma_block_index(length as nat, 16384, first * factor);
    lemma_block_index(length as nat, 16384, next * factor);
    // What the contract lists, item by item.
    assert(1 <= jobs <= pieces);
    assert(pieces <= 0x4_0000_0000_0000);
    assert(leaves == (len - 1) / 16384 + 1);
    assert(leaves <= 0x4_0000_0000_0000);
    assert(count >= 1);
    assert(j == 0 ==> first == 0) by {
        assert(0 * q == 0);
    }
    assert(first * size < len);
    assert(first * factor < leaves);
    assert(j < jobs - 1 ==> next < pieces && next * size < len && next * factor < leaves);
    assert(j == jobs - 1 ==> next == pieces && next * size >= len && next * factor >= leaves);
}

/// Appends the jobs of one file to `jobs`.
pub fn plan_file(file: usize, length: u64, piece_size: u64, is_last: bool, jobs: &mut Vec<HashJob>)
    requires
        is_piece_size(piece_size),
        length > 0,
    ensures
        final(jobs)@ == old(jobs)@ + planned_jobs(file, length, piece_size, is_last),
{
    let num_jobs: u64 = (length - 1) / MAX_JOB_BYTES + 1;
    let pieces: u64 = (length - 1) / piece_size + 1;
    let leaves: u64 = (length - 1) / MERKLE_PIECE_SIZE + 1;
    let factor: u64 = piece_size / MERKLE_PIECE_SIZE;
    let share: u64 = pieces / num_jobs;
    let extra: u64 = pieces % num_jobs;
    let ghost plan = planned_jobs(file, length, piece_size, is_last);
    let mut piece_offset: u64 = 0;
    let mut leaves_left: u64 = leaves;
    let mut idx: u64 = 0;
    proof {
        lemma_job_shares(length, piece_size, 0);
    }
    while idx < num_jobs
        invariant
            is_piece_size(piece_size),
            length > 0,
            num_jobs == job_count(length as nat),
            pieces == block_count(length as nat, piece_size as nat),
            leaves == block_count(length as nat, MERKLE_PIECE_SIZE as nat),
            factor == piece_size as int / MERKLE_PIECE_SIZE as int,
            share == pieces / num_jobs,
            extra == pieces % num_jobs,
            plan == planned_jobs(file, length, piece_size, is_last),
            idx <= num_jobs,
            piece_offset == job_first_piece(pieces as nat, num_jobs as nat, idx as int),
            idx < num_jobs ==> leaves_left == leaves - piece_offset * factor,
            jobs@.len() == old(jobs)@.len() + idx,
            forall|t: int| 0 <= t < old(jobs)@.len() ==> jobs@[t] == old(jobs)@[t],
            forall|t: int| 0 <= t < idx ==> jobs@[old(jobs)@.len() + t] == plan[t],
        decreases num_jobs - idx,
    {
        proof {
            lemma_job_shares(length, piece_size, idx as int);
        }
        let this_v1: u64 = if idx < extra {
            share + 1
        } else {
            share
        };
        let end_piece: u64 = piece_offset + this_v1;
        proof {
            assert(this_v1 * factor <= 0x4_0000_0000_0000 * 128) by (nonlinear_arith)
                requires
                    0 <= this_v1 <= 0x4_0000_0000_0000,
                    0 <= factor <= 128,
            ;
            assert(end_piece * factor == piece_offset * factor + this_v1 * factor)
                by (nonlinear_arith)
                requires
                    end_piece == piece_offset + this_v1,
            ;
            assert(end_piece * piece_size == piece_offset * piece_size + this_v1 * piece_size)
                by (nonlinear_arith)
                requires
                    end_piece == piece_offset + this_v1,
            ;
        }
        let this_v2: u64 = if this_v1 * factor <= leaves_left {
            this_v1 * factor
        } else {
            leaves_left
        };
        let offset: u64 = piece_offset * piece_size;
        let right: u64 = if end_piece < pieces {
            end_piece * piece_size
        } else {
            length
        };
        let job = HashJob {
            file,
            offset,
            data_len: right - offset,
            v1_pieces: this_v1,
            v1_piece_size: piece_size,
            v1_last_hash_zero_fill: !(idx == num_jobs - 1 && is_last),
            v2_pieces: this_v2,
        };
        assert(job == plan[idx as int]);
        jobs.push(job);
        piece_offset = end_piece;
        leaves_left = leaves_left - this_v2;
        idx += 1;
    }
    assert(jobs@ =~= old(jobs)@ + plan);
}

impl HashJob {
    /// What every job of a plan satisfies, and what hashing asks of a job:
    /// the stretch starts on a piece boundary and holds data, and the two
    /// digest counts are those of its length.
    pub open spec fn wf(&self) -> bool {
        &&& is_piece_size(self.v1_piece_size)
        &&& self.offset % self.v1_piece_size == 0
        &&& self.data_len > 0
        &&& self.offset + self.data_len <= u64::MAX
        &&& self.v1_pieces == block_count(self.data_len as nat, self.v1_piece_size as nat)
        &&& self.v2_pieces == block_count(self.data_len as nat, MERKLE_PIECE_SIZE as nat)
    }

    /// Whether the job can be run on a file of `file_len` bytes.
    pub open spec fn fits(&self, file_len: nat) -> bool {
        self.wf() && self.offset + self.data_len <= file_len
    }

    /// The stretch of `data`, the contents of the job's file, that the job
    /// covers.
    pub open spec fn region(&self, data: Seq<u8>) -> Seq<u8> {
        data.subrange(self.offset as int, self.offset + self.data_len)
    }

    /// Tests `fits`.
    pub fn check_fits(&self, file_len: u64) -> (ok: bool)
        ensures
            ok == self.fits(file_len as nat),
    {
        if !check_piece_size(self.v1_piece_size) || self.data_len == 0 {
            return false;
        }
        let len: u64 = file_len;
        self.offset % self.v1_piece_size == 0 && self.offset <= len && self.data_len <= len
            - self.offset && self.v1_pieces == (self.data_len - 1) / self.v1_piece_size + 1
            && self.v2_pieces == (self.data_len - 1) / MERKLE_PIECE_SIZE + 1
    }

    /// Runs the job on `data`, the contents of its file: hashes the stretch
    /// that the job covers. Yields nothing if the job does not fit the data.
    pub fn hash(&self, data: &[u8]) -> (out: Option<JobOutput>)
        ensures
            out is Some <==> self.fits(data@.len()),
            out matches Some(digests) ==> {
                &&& digests.v1@.len() == 20 * self.v1_pieces
                &&& slots(digests.v1@, 20) == v1_digests(
                    self.region(data@),
                    self.v1_piece_size as nat,
                    self.v1_last_hash_zero_fill,
                )
                &&& digests.v2@.len() == 32 * self.v2_pieces
                &&& slots(digests.v2@, 32) == leaf_digests(self.region(data@))
            },
    {
        if !self.check_fits(data.len() as u64) {
            return None;
        }
        let start: usize = self.offset as usize;
        let end: usize = start + self.data_len as usize;
        let region = slice_subrange(data, start, end);
        Some(hash_region(region, self.v1_piece_size as usize, self.v1_last_hash_zero_fill))
    }
}

/// Every job of a plan is well formed and fits its file.
pub proof fn lemma_planned_job_fits(
    file: usize,
    length: u64,
    piece_size: u64,
    is_last: bool,
    j: int,
)
    requires
        is_piece_size(piece_size),
        length > 0,
        0 <= j < job_count(length as nat),
    ensures
        planned_job(file, length, piece_size, is_last, j).fits(length as nat),
        planned_job(file, length, piece_size, is_last, j).v2_pieces > 0,
        planned_job(file, length, piece_size, is_last, j).v1_pieces > 0,
{
    lemma_job_shares(length, piece_size, j);
    let job = planned_job(file, length, piece_size, is_last, j);
    let size = piece_size as int;
    let pieces = block_count(length as nat, piece_size as nat);
    let leaves = block_count(length as nat, MERKLE_PIECE_SIZE as nat) as int;
    let jobs = job_count(length as nat);
    let first = job_first_piece(pieces, jobs, j) as int;
    let count = job_pieces(pieces, jobs, j) as int;
    let factor = size / 16384;
    assert((first + count) * size == first * size + count * size) by (nonlinear_arith);
    assert((first + count) * factor == first * factor + count * factor) by (nonlinear_arith);
    assert(count * factor * 16384 == count * size) by (nonlinear_arith)
        requires
            size == factor * 16384,
    ;
    assert(first * factor * 16384 == first * size) by (nonlinear_arith)
        requires
            size == factor * 16384,
    ;
    assert((count - 1) * size == count * size - size) by (nonlinear_arith);
    assert(job.offset == first * size);
    assert(job.offset % piece_size == 0) by (nonlinear_arith)
        requires
            job.offset == first * size,
            size == piece_size,
            size > 0,
    ;
    let len = job.data_len as int;
    lemma_block_count_exact(len as nat, size as nat, count);
    assert(job.v2_pieces * 16384 >= len);
    assert((job.v2_pieces - 1) * 16384 < len);
    lemma_block_count_exact(len as nat, 16384, job.v2_pieces as int);
}

/// Index, among the pieces of its file, of the first piece of a planned
/// job, and index, among the leaves of its file, of its first leaf.
pub open spec fn planned_first_piece(length: u64, piece_size: u64, j: int) -> int {
    job_first_piece(
        block_count(length as nat, piece_size as nat),
        job_count(length as nat),
        j,
    ) as int
}

pub open spec fn planned_first_leaf(length: u64, piece_size: u64, j: int) -> int {
    planned_first_piece(length, piece_size, j) * (piece_size as int / MERKLE_PIECE_SIZE as int)
}

/// A stretch of a sequence, cut out of a stretch of it, is a stretch of the
/// sequence itself.
proof fn lemma_subrange_of_subrange(data: Seq<u8>, from: int, to: int, a: int, b: int)
    requires
        0 <= from <= to <= data.len(),
        0 <= a <= b <= to - from,
    ensures
        data.subrange(from, to).subrange(a, b) == data.subrange(from + a, from + b),
{
    assert(data.subrange(from, to).subrange(a, b) =~= data.subrange(from + a, from + b));
}

/// The digests that a planned job yields are those of its file, from the
/// job's first piece and first leaf on: each digest lands where its bytes
/// lie in the file. The jobs of a file follow each other without a gap, the
/// first beginning with the file's first piece and leaf and the last ending
/// with its last ones, so that together they yield every digest of the
/// file once.
pub proof fn lemma_job_digests(
    data: Seq<u8>,
    file: usize,
    length: u64,
    piece_size: u64,
    is_last: bool,
    j: int,
)
    requires
        is_piece_size(piece_size),
        length > 0,
        data.len() == length,
        0 <= j < job_count(length as nat),
    ensures
        ({
            let job = planned_job(file, length, piece_size, is_last, j);
            let first = planned_first_piece(length, piece_size, j);
            let first_leaf = planned_first_leaf(length, piece_size, j);
            &&& job.offset == first * piece_size
            &&& job.offset == first_leaf * MERKLE_PIECE_SIZE
            &&& j == 0 ==> first == 0 && first_leaf == 0
            &&& 0 <= first
            &&& first + job.v1_pieces <= block_count(length as nat, piece_size as nat)
            &&& 0 <= first_leaf
            &&& first_leaf + job.v2_pieces <= block_count(length as nat, MERKLE_PIECE_SIZE as nat)
            &&& planned_first_piece(length, piece_size, j + 1) == first + job.v1_pieces
            &&& j < job_count(length as nat) - 1 ==> planned_first_leaf(length, piece_size, j + 1)
                == first_leaf + job.v2_pieces
            &&& j == job_count(length as nat) - 1 ==> first + job.v1_pieces == block_count(
                length as nat,
                piece_size as nat,
            ) && first_leaf + job.v2_pieces == block_count(
                length as nat,
                MERKLE_PIECE_SIZE as nat,
            )
            &&& forall|k: int|
                0 <= k < job.v1_pieces ==> #[trigger] v1_digests(
                    job.region(data),
                    piece_size as nat,
                    job.v1_last_hash_zero_fill,
                )[k] == v1_digests(data, piece_size as nat, !is_last)[first + k]
            &&& forall|k: int|
                0 <= k < job.v2_pieces ==> #[trigger] leaf_digests(job.region(data))[k]
                    == leaf_digests(data)[first_leaf + k]
        }),
{
    lemma_job_shares(length, piece_size, j);
    lemma_planned_job_fits(file, length, piece_size, is_last, j);
    let job = planned_job(file, length, piece_size, is_last, j);
    let size = piece_size as int;
    let len = length as int;
    let pieces = block_count(length as nat, piece_size as nat) as int;
    let leaves = block_count(length as nat, MERKLE_PIECE_SIZE as nat) as int;
    let jobs = job_count(length as nat) as int;
    let first = planned_first_piece(length, piece_size, j);
    let count = job.v1_pieces as int;
    let factor = size / 16384;
    let first_leaf = first * factor;
    let off = job.offset as int;
    let dl = job.data_len as int;
    let region = job.region(data);
    assert((first + count) * size == first * size + count * size) by (nonlinear_arith);
    assert((first + count) * factor == first * factor + count * factor) by (nonlinear_arith);
    assert(first * factor * 16384 == first * size) by (nonlinear_arith)
        requires
            size == factor * 16384,
    ;
    assert(count * factor * 16384 == count * size) by (nonlinear_arith)
        requires
            size == factor * 16384,
    ;
    assert(first_leaf >= 0) by (nonlinear_arith)
        requires
            first_leaf == first * factor,
            first >= 0,
            factor >= 0,
    ;
    assert(off == first * size);
    assert(off + dl <= len);
    assert(j < jobs - 1 ==> dl == count * size && off + dl < len);
    assert(j == jobs - 1 ==> off + dl == len);
    assert forall|k: int| 0 <= k < job.v1_pieces implies #[trigger] v1_digests(
        region,
        piece_size as nat,
        job.v1_last_hash_zero_fill,
    )[k] == v1_digests(data, piece_size as nat, !is_last)[first + k] by {
        lemma_block_index(dl as nat, size as nat, k);
        assert((first + k) * size == off + k * size) by (nonlinear_arith)
            requires
                off == first * size,
        ;
        assert((first + k + 1) * size == off + (k + 1) * size) by (nonlinear_arith)
            requires
                off == first * size,
        ;
        assert((k + 1) * size == k * size + size) by (nonlinear_arith);
        assert(k * size >= 0) by (nonlinear_arith)
            requires
                k >= 0,
                size > 0,
        ;
        if j < jobs - 1 {
            assert((k + 1) * size <= count * size) by (nonlinear_arith)
                requires
                    k + 1 <= count,
                    size > 0,
            ;
        }
        let end_r = if (k + 1) * size <= dl {
            (k + 1) * size
        } else {
            dl
        };
        lemma_subrange_of_subrange(data, off, off + dl, k * size, end_r);
        assert(block(region, size as nat, k) == block(data, size as nat, first + k));
        let bytes = block(data, size as nat, first + k);
        if j < jobs - 1 {
            assert(bytes.len() == size);
            assert(bytes + zeros(0) =~= bytes);
        }
        assert(v1_piece_input(region, size as nat, k, job.v1_last_hash_zero_fill)
            == v1_piece_input(data, size as nat, first + k, !is_last));
    }
    assert forall|k: int| 0 <= k < job.v2_pieces implies #[trigger] leaf_digests(region)[k]
        == leaf_digests(data)[first_leaf + k] by {
        lemma_block_index(dl as nat, 16384, k);
        let end_r = if (k + 1) * 16384 <= dl {
            (k + 1) * 16384
        } else {
            dl
        };
        lemma_subrange_of_subrange(data, off, off + dl, k * 16384, end_r);
        assert(block(region, 16384, k) == block(data, 16384, first_leaf + k));
    }
}

} // verus!
