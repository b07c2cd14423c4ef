//! Torrents with both hash streams: SHA-1 pieces for version 1 of the protocol
//! and a SHA-256 Merkle tree per file for version 2, with padding files
//! between the files so that every file starts on a piece boundary.

use crate::blocks::{
    block_count, lemma_slots_are, lemma_written_extends, slot, slots, write_at, written,
    zero_bytes, zeros,
};
use crate::dirwalker::{
    check_paths, check_roots, data_fits, first_misfit, fits_at, last_data_file, path_ok,
    same_root, size_ok, total_length, total_size, DataFile, WalkedDir,
};
use crate::bencode::{
    dict_insert, lemma_list_view, values_view, BencodeDict, BencodeValue, BencodeView,
};
use crate::error::TorrentError;
use crate::file_tree::{leaf_entry, leaf_entry_value, names, put_file, tree_insert};
use crate::metainfo::{
    file_entry, file_entry_value, key, key_bytes, pad_entry, pad_entry_value, put_trackers, text,
    text_value, with_trackers, Entries,
};
use crate::job::{
    lemma_job_digests, lemma_planned_job_fits, plan_file, planned_first_leaf,
    planned_first_piece, planned_job, planned_jobs, HashJob,
};
use crate::merkle::{complete_tree, merkle_layer, tree_height, ZeroHashes, MERKLE_PIECE_SIZE};
use crate::merkle_laws::{lemma_layer_len, lemma_tree_height};
use crate::pieces::{
    check_piece_size, choose_piece_size, chosen_piece_size, is_piece_size, leaf_digests,
    piece_level, piece_level_of, v1_digests, JobOutput,
};
use vstd::arithmetic::div_mod::lemma_div_is_ordered_by_denominator;
use vstd::prelude::*;

verus! {

/// How many bytes of padding follow a file of `length` bytes so that the
/// next file starts on a piece boundary. The last file that holds data is
/// followed by none.
pub open spec fn padding_after(length: u64, piece_size: u64, is_last: bool) -> u64 {
    if length == 0 || length % piece_size == 0 || is_last {
        0
    } else {
        (piece_size - length % piece_size) as u64
    }
}

/// One file of a torrent, with the buffers that hashing fills.
pub struct FileMetadata {
    pub file: DataFile,
    /// Number of leaves of the file's Merkle tree.
    pub merkle_piece_count: u64,
    /// The layers of the Merkle tree, bottom-up, each a run of 32-byte
    /// hashes. Layer 0 holds the leaf hashes. Empty for an empty file.
    pub merkle_tree: Vec<Vec<u8>>,
    /// Number of SHA-1 pieces of the file.
    pub hash_v1_piece_count: u64,
    /// The SHA-1 digests of the file's pieces, 20 bytes each.
    pub hash_v1: Vec<u8>,
    /// Number of padding bytes that follow the file.
    pub padding: u64,
    /// Whether this is the last file of the torrent that holds data.
    pub is_last_data_file: bool,
}

impl FileMetadata {
    /// The counts and buffer sizes are those of the file's length.
    pub open spec fn wf(&self, piece_size: u64) -> bool {
        &&& self.merkle_piece_count == block_count(
            self.file.length as nat,
            MERKLE_PIECE_SIZE as nat,
        )
        &&& self.hash_v1_piece_count == block_count(self.file.length as nat, piece_size as nat)
        &&& self.hash_v1@.len() == 20 * self.hash_v1_piece_count
        &&& self.padding == padding_after(self.file.length, piece_size, self.is_last_data_file)
        &&& if self.file.length == 0 {
            self.merkle_tree@.len() == 0 && !self.is_last_data_file
        } else {
            self.merkle_tree@.len() >= 1 && self.merkle_tree@[0]@.len() == 32
                * self.merkle_piece_count
        }
    }

    /// Nothing has been hashed yet: the buffers hold zero bytes, and the
    /// tree has no layer above the leaves.
    pub open spec fn fresh(&self) -> bool {
        &&& self.hash_v1@ == zeros(self.hash_v1@.len())
        &&& self.merkle_tree@.len() <= 1
        &&& self.merkle_tree@.len() == 1 ==> self.merkle_tree@[0]@ == zeros(
            self.merkle_tree@[0]@.len(),
        )
    }

    /// The leaf layer of the file's tree, empty for an empty file.
    pub open spec fn leaves(&self) -> Seq<u8> {
        if self.merkle_tree@.len() == 0 {
            Seq::empty()
        } else {
            self.merkle_tree@[0]@
        }
    }

    /// The record of a file that is not the last to hold data, before
    /// anything is hashed.
    pub fn new(f: DataFile, piece_size: u64) -> (record: Self)
        requires
            is_piece_size(piece_size),
            32 * block_count(f.length as nat, MERKLE_PIECE_SIZE as nat) <= usize::MAX,
        ensures
            record.file == f,
            record.wf(piece_size),
            record.fresh(),
            !record.is_last_data_file,
    {
        let l: u64 = f.length;
        if l == 0 {
            let record = FileMetadata {
                file: f,
                merkle_piece_count: 0,
                merkle_tree: Vec::new(),
                hash_v1_piece_count: 0,
                hash_v1: Vec::new(),
                padding: 0,
                is_last_data_file: false,
            };
            assert(record.hash_v1@ =~= zeros(0));
            record
        } else {
            let merkle_piece_count: u64 = (l - 1) / MERKLE_PIECE_SIZE + 1;
            let hash_v1_piece_count: u64 = (l - 1) / piece_size + 1;
            proof {
                lemma_div_is_ordered_by_denominator(
                    l - 1,
                    MERKLE_PIECE_SIZE as int,
                    piece_size as int,
                );
            }
            let mut merkle_tree: Vec<Vec<u8>> = Vec::new();
            merkle_tree.push(zero_bytes((merkle_piece_count * 32) as usize));
            let hash_v1 = zero_bytes((hash_v1_piece_count * 20) as usize);
            FileMetadata {
                file: f,
                merkle_piece_count,
                merkle_tree,
                hash_v1_piece_count,
                hash_v1,
                padding: if l % piece_size == 0 {
                    0
                } else {
                    piece_size - (l % piece_size)
                },
                is_last_data_file: false,
            }
        }
    }
}

/// Why `TorrentMetadata::new` turns a request down, if it does. The first
/// fault found, in this order, is the one reported.
pub open spec fn new_error(
    announces: Seq<Vec<String>>,
    nodes: Seq<(String, u16)>,
    user_piece_size: Option<u64>,
    files: Seq<DataFile>,
) -> Option<TorrentError> {
    if user_piece_size is Some && !is_piece_size(user_piece_size->0) {
        Some(TorrentError::BadPieceSize)
    } else if files.len() == 0 {
        Some(TorrentError::NoInput)
    } else if announces.len() == 0 && nodes.len() == 0 {
        Some(TorrentError::NoTracker)
    } else if announces.len() > 0 && announces[0]@.len() == 0 {
        Some(TorrentError::EmptyTier)
    } else if !(forall|i: int| 0 <= i < files.len() ==> path_ok(#[trigger] files[i])) {
        Some(TorrentError::BadPath)
    } else if !(forall|i: int| 0 <= i < files.len() ==> same_root(files[0], #[trigger] files[i])) {
        Some(TorrentError::RootMismatch)
    } else if !(forall|i: int| 0 <= i < files.len() ==> size_ok(#[trigger] files[i]))
        || total_length(files, files.len()) > u64::MAX {
        Some(TorrentError::TooLarge)
    } else {
        None
    }
}

/// A torrent in the making: what it announces, its files, and the digests
/// gathered so far.
pub struct TorrentMetadata {
    pub files: Vec<FileMetadata>,
    pub total_bytes: u64,
    /// Tracker URLs in tiers.
    pub announces: Vec<Vec<String>>,
    /// Bytes per piece.
    pub piece_size: u64,
    /// Leaves per piece.
    pub piece_factor: u64,
    /// `piece_factor` is two to the power of `piece_level`.
    pub piece_level: u64,
    pub private: bool,
    /// Hosts and ports of DHT nodes.
    pub nodes: Vec<(String, u16)>,
    pub webseeds: Vec<String>,
}

impl TorrentMetadata {
    /// The files as they were handed in.
    pub open spec fn data_files(&self) -> Seq<DataFile> {
        Seq::new(self.files@.len(), |i: int| self.files@[i].file)
    }

    /// What `new` establishes and every method keeps: the torrent is one
    /// that `new` does not turn down, the piece size has its factor and its
    /// level, every file has the counts, the buffer sizes and the padding of
    /// its length, and the last file that holds data, and no other, is
    /// marked as such. See `lemma_config_ok` and `lemma_file_ok`.
    #[verifier::opaque]
    pub open spec fn wf(&self) -> bool {
        &&& is_piece_size(self.piece_size)
        &&& self.piece_factor == self.piece_size / MERKLE_PIECE_SIZE
        &&& self.piece_level == piece_level_of(self.piece_size)
        &&& new_error(self.announces@, self.nodes@, Some(self.piece_size), self.data_files())
            is None
        &&& self.total_bytes == total_length(self.data_files(), self.files@.len())
        &&& forall|i: int|
            0 <= i < self.files@.len() ==> (#[trigger] self.files@[i]).wf(self.piece_size)
                && (self.files@[i].is_last_data_file <==> i == last_data_file(
                self.data_files(),
                self.files@.len(),
            ))
    }

    /// Nothing has been hashed yet.
    pub open spec fn fresh(&self) -> bool {
        forall|i: int| 0 <= i < self.files@.len() ==> (#[trigger] self.files@[i]).fresh()
    }

    /// Sets up a torrent over the files of `walked_dir`. The piece size is
    /// `user_piece_size` if one is given, and else follows from the total
    /// size of the files.
    pub fn new(
        announces: Vec<Vec<String>>,
        nodes: Vec<(String, u16)>,
        private: bool,
        user_piece_size: Option<u64>,
        webseeds: Vec<String>,
        walked_dir: WalkedDir,
    ) -> (made: Result<Self, TorrentError>)
        ensures
            match made {
                Ok(torrent) => {
                    &&& new_error(announces@, nodes@, user_piece_size, walked_dir.files@) is None
                    &&& torrent.wf()
                    &&& torrent.fresh()
                    &&& torrent.data_files() == walked_dir.files@
                    &&& torrent.announces == announces
                    &&& torrent.nodes == nodes
                    &&& torrent.webseeds == webseeds
                    &&& torrent.private == private
                    &&& torrent.piece_size == chosen_piece_size(
                        user_piece_size,
                        total_length(walked_dir.files@, walked_dir.files@.len()),
                    )
                },
                Err(e) => new_error(announces@, nodes@, user_piece_size, walked_dir.files@)
                    == Some(e),
            },
    {
        if let Some(x) = user_piece_size {
            if !check_piece_size(x) {
                return Err(TorrentError::BadPieceSize);
            }
        }
        if walked_dir.files.len() == 0 {
            return Err(TorrentError::NoInput);
        }
        if announces.len() == 0 && nodes.len() == 0 {
            return Err(TorrentError::NoTracker);
        }
        if announces.len() > 0 && announces[0].len() == 0 {
            return Err(TorrentError::EmptyTier);
        }
        if !check_paths(&walked_dir.files) {
            return Err(TorrentError::BadPath);
        }
        if !check_roots(&walked_dir.files) {
            return Err(TorrentError::RootMismatch);
        }
        let total_bytes: u64 = match total_size(&walked_dir.files) {
            Some(total) => total,
            None => {
                return Err(TorrentError::TooLarge);
            },
        };
        let piece_size: u64 = choose_piece_size(user_piece_size, total_bytes);
        let piece_level: u64 = piece_level(piece_size);
        let ghost given = walked_dir.files@;
        let count: usize = walked_dir.files.len();
        // The last file that holds data, if any does.
        let mut last: usize = count;
        let mut i: usize = count;
        while i > 0 && last == count
            invariant
                count == given.len(),
                given == walked_dir.files@,
                i <= count,
                last <= count,
                last == count ==> last_data_file(given, count as nat) == last_data_file(
                    given,
                    i as nat,
                ),
                last < count ==> last == last_data_file(given, count as nat) && given[last as int].length
                    > 0,
            decreases i,
        {
            i -= 1;
            if walked_dir.files[i].length > 0 {
                last = i;
            }
        }
        let mut files: Vec<FileMetadata> = Vec::new();
        for f in it: walked_dir.files
            invariant
                it.seq() == given,
                count == given.len(),
                is_piece_size(piece_size),
                last <= count,
                forall|k: int| 0 <= k < given.len() ==> size_ok(#[trigger] given[k]),
                last < count ==> last == last_data_file(given, count as nat) && given[last as int].length
                    > 0,
                last == count ==> last_data_file(given, count as nat) == -1,
                files@.len() == it.index(),
                forall|k: int|
                    0 <= k < files@.len() ==> (#[trigger] files@[k]).file == given[k]
                        && files@[k].wf(piece_size) && files@[k].fresh() && (
                    files@[k].is_last_data_file <==> k == last),
        {
            let index: usize = files.len();
            assert(f == given[index as int]);
            let mut record = FileMetadata::new(f, piece_size);
            if index == last {
                record.is_last_data_file = true;
                record.padding = 0;
            }
            assert(record.wf(piece_size));
            assert(record.fresh());
            files.push(record);
        }
        let torrent = TorrentMetadata {
            files,
            total_bytes,
            announces,
            piece_size,
            piece_factor: piece_size / MERKLE_PIECE_SIZE,
            piece_level,
            private,
            nodes,
            webseeds,
        };
        assert(torrent.data_files() =~= given);
        proof {
            reveal(TorrentMetadata::wf);
        }
        Ok(torrent)
    }
}

impl FileMetadata {
    /// The digest buffers hold the digests of `data`, the contents of the
    /// file: one SHA-1 digest per piece, the last piece completed with zero
    /// bytes unless the file is the last to hold data, and one SHA-256
    /// digest per leaf.
    pub open spec fn hashed(&self, data: Seq<u8>, piece_size: u64) -> bool {
        &&& slots(self.hash_v1@, 20) == v1_digests(
            data,
            piece_size as nat,
            !self.is_last_data_file,
        )
        &&& slots(self.leaves(), 32) == leaf_digests(data)
    }

    /// The Merkle tree stands complete over its leaf layer, up to the root.
    /// An empty file has no tree.
    pub open spec fn tree_complete(&self) -> bool {
        self.file.length > 0 ==> {
            &&& self.merkle_tree@.len() == tree_height(self.merkle_piece_count as nat) + 1
            &&& self.merkle_tree@.last()@.len() == 32
            &&& forall|l: int|
                0 <= l < self.merkle_tree@.len() ==> (#[trigger] self.merkle_tree@[l])@.len() % 32
                    == 0 && slots(self.merkle_tree@[l]@, 32) == merkle_layer(
                    slots(self.merkle_tree@[0]@, 32),
                    l as nat,
                )
        }
    }
}

impl TorrentMetadata {
    /// The jobs of the first `upto` files, in the order of the files. An
    /// empty file has no job.
    pub open spec fn planned(&self, upto: nat) -> Seq<HashJob>
        decreases upto,
    {
        if upto == 0 || upto > self.files@.len() {
            Seq::empty()
        } else {
            let file = self.files@[upto - 1];
            self.planned((upto - 1) as nat) + (if file.file.length > 0 {
                planned_jobs(
                    (upto - 1) as usize,
                    file.file.length,
                    self.piece_size,
                    file.is_last_data_file,
                )
            } else {
                Seq::empty()
            })
        }
    }

    /// Cuts the files into hash jobs.
    pub fn plan_jobs(&self) -> (jobs: Vec<HashJob>)
        requires
            self.wf(),
        ensures
            jobs@ == self.planned(self.files@.len()),
    {
        let mut jobs: Vec<HashJob> = Vec::new();
        let mut i: usize = 0;
        while i < self.files.len()
            invariant
                self.wf(),
                i <= self.files@.len(),
                jobs@ == self.planned(i as nat),
            decreases self.files@.len() - i,
        {
            proof {
                self.lemma_config_ok();
            }
            let f = &self.files[i];
            if f.file.length > 0 {
                plan_file(i, f.file.length, self.piece_size, f.is_last_data_file, &mut jobs);
            } else {
                assert(jobs@ + Seq::<HashJob>::empty() =~= jobs@);
            }
            i += 1;
        }
        jobs
    }

    /// Whether the digests `digests` of job `job` can be stored: the job
    /// fits its file and the torrent, and the digests fit the job and the
    /// buffers of the file.
    pub open spec fn takes(&self, job: HashJob, digests: JobOutput) -> bool {
        &&& job.file < self.files@.len()
        &&& job.v1_piece_size == self.piece_size
        &&& job.fits(self.files@[job.file as int].file.length as nat)
        &&& digests.v1@.len() == 20 * job.v1_pieces
        &&& digests.v2@.len() == 32 * job.v2_pieces
        &&& 20 * (job.offset / self.piece_size) + digests.v1@.len()
            <= self.files@[job.file as int].hash_v1@.len()
        &&& 32 * (job.offset / MERKLE_PIECE_SIZE) + digests.v2@.len()
            <= self.files@[job.file as int].leaves().len()
    }

    /// Tests `takes`.
    pub fn check_takes(&self, job: &HashJob, digests: &JobOutput) -> (ok: bool)
        requires
            self.wf(),
        ensures
            ok == self.takes(*job, *digests),
    {
        if job.file >= self.files.len() || job.v1_piece_size != self.piece_size {
            return false;
        }
        proof {
            self.lemma_config_ok();
            self.lemma_file_ok(job.file as int);
        }
        let f = &self.files[job.file];
        if !job.check_fits(f.file.length) {
            return false;
        }
        let v1_len: u64 = digests.v1.len() as u64;
        let v2_len: u64 = digests.v2.len() as u64;
        if job.v1_pieces > u64::MAX / 20 || job.v2_pieces > u64::MAX / 32 {
            return false;
        }
        if v1_len != 20 * job.v1_pieces || v2_len != 32 * job.v2_pieces {
            return false;
        }
        let first_piece: u64 = job.offset / self.piece_size;
        let first_leaf: u64 = job.offset / MERKLE_PIECE_SIZE;
        let v1_room: u64 = f.hash_v1.len() as u64;
        let v2_room: u64 = f.merkle_tree[0].len() as u64;
        if first_piece > (u64::MAX - v1_len) / 20 || 20 * first_piece + v1_len > v1_room {
            return false;
        }
        if first_leaf > (u64::MAX - v2_len) / 32 || 32 * first_leaf + v2_len > v2_room {
            return false;
        }
        true
    }

    /// Stores the digests that a job has yielded in the buffers of the
    /// job's file, each digest in the slot of its piece or leaf. Nothing
    /// else changes; and nothing at all where the digests cannot be stored.
    pub fn store(&mut self, job: &HashJob, digests: &JobOutput) -> (stored: bool)
        requires
            old(self).wf(),
        ensures
            stored == old(self).takes(*job, *digests),
            final(self).wf(),
            !stored ==> *final(self) == *old(self),
            stored ==> {
                let before = old(self).files@[job.file as int];
                let after = final(self).files@[job.file as int];
                &&& final(self).files@.len() == old(self).files@.len()
                &&& forall|i: int|
                    0 <= i < old(self).files@.len() && i != job.file ==> final(self).files@[i]
                        == old(self).files@[i]
                &&& after.hash_v1@ == written(
                    before.hash_v1@,
                    20 * (job.offset / old(self).piece_size),
                    digests.v1@,
                )
                &&& after.merkle_tree@.len() == before.merkle_tree@.len()
                &&& after.leaves() == written(
                    before.leaves(),
                    32 * (job.offset / MERKLE_PIECE_SIZE),
                    digests.v2@,
                )
                &&& forall|l: int|
                    1 <= l < before.merkle_tree@.len() ==> after.merkle_tree@[l]
                        == before.merkle_tree@[l]
                &&& after.file == before.file
                &&& after.is_last_data_file == before.is_last_data_file
                &&& final(self).data_files() == old(self).data_files()
                &&& final(self).announces == old(self).announces
                &&& final(self).nodes == old(self).nodes
                &&& final(self).webseeds == old(self).webseeds
                &&& final(self).private == old(self).private
                &&& final(self).piece_size == old(self).piece_size
            },
    {
        if !self.check_takes(job, digests) {
            return false;
        }
        proof {
            reveal(TorrentMetadata::wf);
        }
        let v1_room: usize = self.files[job.file].hash_v1.len();
        let v2_room: usize = self.files[job.file].merkle_tree[0].len();
        let v1_start: usize = (20 * (job.offset / self.piece_size)) as usize;
        let v2_start: usize = (32 * (job.offset / MERKLE_PIECE_SIZE)) as usize;
        let ghost files_before = self.data_files();
        let ghost before = self.files@[job.file as int];
        let f = &mut self.files[job.file];
        write_at(&mut f.hash_v1, v1_start, digests.v1.as_slice());
        write_at(&mut f.merkle_tree[0], v2_start, digests.v2.as_slice());
        assert(f.leaves() == written(before.leaves(), v2_start as int, digests.v2@));
        assert(self.data_files() =~= files_before);
        true
    }
}

impl TorrentMetadata {
    /// What no step of hashing changes: the files and what the torrent
    /// announces.
    pub open spec fn same_torrent(&self, other: &TorrentMetadata) -> bool {
        &&& self.data_files() == other.data_files()
        &&& self.announces == other.announces
        &&& self.nodes == other.nodes
        &&& self.webseeds == other.webseeds
        &&& self.private == other.private
        &&& self.piece_size == other.piece_size
    }

    /// Builds the Merkle tree of every file over its leaf layer. Layers
    /// that stand above a leaf layer already are built anew.
    pub fn complete_trees(&mut self)
        requires
            old(self).wf(),
        ensures
            final(self).wf(),
            final(self).same_torrent(old(self)),
            final(self).files@.len() == old(self).files@.len(),
            forall|i: int|
                0 <= i < final(self).files@.len() ==> (#[trigger] final(self).files@[i]).tree_complete()
                    && final(self).files@[i].leaves() == old(self).files@[i].leaves()
                    && final(self).files@[i].hash_v1 == old(self).files@[i].hash_v1
                    && final(self).files@[i].is_last_data_file == old(
                    self,
                ).files@[i].is_last_data_file,
    {
        let mut zero = ZeroHashes::new();
        let ghost files_before = self.data_files();
        let mut i: usize = 0;
        while i < self.files.len()
            invariant
                self.wf(),
                self.same_torrent(old(self)),
                self.files@.len() == old(self).files@.len(),
                i <= self.files@.len(),
                forall|k: int|
                    0 <= k < i ==> (#[trigger] self.files@[k]).tree_complete()
                        && self.files@[k].leaves() == old(self).files@[k].leaves()
                        && self.files@[k].hash_v1 == old(self).files@[k].hash_v1
                        && self.files@[k].is_last_data_file == old(
                        self,
                    ).files@[k].is_last_data_file,
                forall|k: int| i <= k < self.files@.len() ==> self.files@[k] == old(self).files@[k],
            decreases self.files@.len() - i,
        {
            proof {
                reveal(TorrentMetadata::wf);
            }
            let ghost files_now = self.data_files();
            let ghost before = self.files@[i as int];
            let f = &mut self.files[i];
            if f.file.length > 0 {
                f.merkle_tree.truncate(1);
                complete_tree(&mut f.merkle_tree, &mut zero);
            }
            assert(self.data_files() =~= files_now);
            i += 1;
        }
    }
}

impl FileMetadata {
    /// The top layer of the file's tree: its pieces root, once the tree is
    /// complete. Empty for an empty file.
    pub open spec fn root(&self) -> Seq<u8> {
        if self.merkle_tree@.len() == 0 {
            Seq::empty()
        } else {
            self.merkle_tree@.last()@
        }
    }
}

/// The SHA-1 digests of the first `n` files, one file after the other.
pub open spec fn pieces_view(files: Seq<FileMetadata>, n: nat) -> Seq<u8>
    decreases n,
{
    if n == 0 || n > files.len() {
        Seq::empty()
    } else {
        pieces_view(files, (n - 1) as nat) + files[n - 1].hash_v1@
    }
}

/// The `files` list over the first `n` files: an entry for each file, and
/// after each file that is followed by padding the entry of a padding file.
pub open spec fn files_view(files: Seq<FileMetadata>, n: nat) -> Seq<BencodeView>
    decreases n,
{
    if n == 0 || n > files.len() {
        Seq::empty()
    } else {
        let f = files[n - 1];
        let with_file = files_view(files, (n - 1) as nat).push(
            file_entry(f.file.length, f.file.path_components@),
        );
        if f.padding > 0 {
            with_file.push(pad_entry(f.padding))
        } else {
            with_file
        }
    }
}

/// The file tree over the first `n` files, their paths taken without
/// their first `strip` names.
pub open spec fn file_tree_view(files: Seq<FileMetadata>, n: nat, strip: int) -> Entries
    decreases n,
{
    if n == 0 || n > files.len() {
        Seq::empty()
    } else {
        let f = files[n - 1];
        tree_insert(
            file_tree_view(files, (n - 1) as nat, strip),
            names(f.file.path_components@).skip(strip),
            leaf_entry(f.file.length, f.root()),
        )
    }
}

/// The `piece layers` over the first `n` files: for each file longer than
/// one piece, under its pieces root, the layer of its tree that holds one
/// hash per piece.
pub open spec fn piece_layers_view(
    files: Seq<FileMetadata>,
    n: nat,
    piece_size: u64,
    level: int,
) -> Entries
    decreases n,
{
    if n == 0 || n > files.len() {
        Seq::empty()
    } else {
        let f = files[n - 1];
        let before = piece_layers_view(files, (n - 1) as nat, piece_size, level);
        if f.file.length > piece_size {
            dict_insert(before, f.root(), BencodeView::Bytes(f.merkle_tree@[level]@))
        } else {
            before
        }
    }
}

impl TorrentMetadata {
    /// The name of the torrent: the first name of every path.
    pub open spec fn name(&self) -> Seq<char> {
        self.files@[0].file.path_components@[0]@
    }

    /// Whether the torrent is a single file: one file, with one name.
    pub open spec fn single_file(&self) -> bool {
        self.files@.len() == 1 && self.files@[0].file.path_components@.len() == 1
    }

    /// How many leading names the file tree leaves out: the root, where
    /// every file lies below it.
    pub open spec fn strip(&self) -> int {
        if forall|i: int|
            0 <= i < self.files@.len() ==> (#[trigger] self.files@[i]).file.path_components@.len()
                > 1 {
            1
        } else {
            0
        }
    }

    /// Whether every file longer than one piece has the layer of its tree
    /// that holds one hash per piece.
    pub open spec fn layers_present(&self) -> bool {
        forall|i: int|
            0 <= i < self.files@.len() && (#[trigger] self.files@[i]).file.length
                > self.piece_size ==> self.piece_level < self.files@[i].merkle_tree@.len()
    }

    /// What every `info` dictionary holds: the name of the torrent, the
    /// piece size, and the mark of a private torrent.
    pub open spec fn info_base_view(&self) -> Entries {
        let named = dict_insert(
            dict_insert(Seq::empty(), key("name"), text(self.name())),
            key("piece length"),
            BencodeView::Integer(self.piece_size as i64),
        );
        if self.private {
            dict_insert(named, key("private"), BencodeView::Integer(1))
        } else {
            named
        }
    }

    /// `entries` with what version 1 reads: the SHA-1 digests
    /// of all pieces, and the length of the single file or the list of the
    /// files.
    pub open spec fn with_v1_view(&self, entries: Entries) -> Entries {
        let with_pieces = dict_insert(
            entries,
            key("pieces"),
            BencodeView::Bytes(pieces_view(self.files@, self.files@.len())),
        );
        if self.single_file() {
            dict_insert(
                with_pieces,
                key("length"),
                BencodeView::Integer(self.files@[0].file.length as i64),
            )
        } else {
            dict_insert(
                with_pieces,
                key("files"),
                BencodeView::List(files_view(self.files@, self.files@.len())),
            )
        }
    }

    /// `entries` with what version 2 reads: the version and the file tree.
    pub open spec fn with_v2_view(&self, entries: Entries) -> Entries {
        dict_insert(
            dict_insert(entries, key("meta version"), BencodeView::Integer(2)),
            key("file tree"),
            BencodeView::Dict(file_tree_view(self.files@, self.files@.len(), self.strip())),
        )
    }

    /// The `info` dictionary.
    pub open spec fn info_view(&self, write_v1: bool, write_v2: bool) -> Entries {
        let base = self.info_base_view();
        let with_v1 = if write_v1 {
            self.with_v1_view(base)
        } else {
            base
        };
        if write_v2 {
            self.with_v2_view(with_v1)
        } else {
            with_v1
        }
    }

    /// The outer dictionary without its `info` entry: the `piece layers`
    /// of version 2, and the trackers, nodes and web seeds.
    pub open spec fn outer_view(&self, write_v2: bool) -> Entries {
        let layers = if write_v2 {
            dict_insert(
                Seq::empty(),
                key("piece layers"),
                BencodeView::Dict(
                    piece_layers_view(
                        self.files@,
                        self.files@.len(),
                        self.piece_size,
                        self.piece_level as int,
                    ),
                ),
            )
        } else {
            Seq::empty()
        };
        with_trackers(layers, self.announces@, self.nodes@, self.webseeds@)
    }

    /// The metainfo dictionary of the torrent, as the digest buffers stand.
    pub open spec fn torrent_view(&self, write_v1: bool, write_v2: bool) -> BencodeView {
        BencodeView::Dict(
            dict_insert(
                self.outer_view(write_v2),
                key("info"),
                BencodeView::Dict(self.info_view(write_v1, write_v2)),
            ),
        )
    }
}

impl TorrentMetadata {
    /// What `wf` says of the torrent as a whole.
    pub proof fn lemma_config_ok(&self)
        requires
            self.wf(),
        ensures
            is_piece_size(self.piece_size),
            self.piece_factor == self.piece_size / MERKLE_PIECE_SIZE,
            self.piece_level == piece_level_of(self.piece_size),
            self.files@.len() > 0,
            self.announces@.len() > 0 || self.nodes@.len() > 0,
            self.announces@.len() > 0 ==> self.announces@[0]@.len() > 0,
            self.total_bytes == total_length(self.data_files(), self.files@.len()),
    {
        reveal(TorrentMetadata::wf);
    }

    /// What `wf` says of one file.
    pub proof fn lemma_file_ok(&self, i: int)
        requires
            self.wf(),
            0 <= i < self.files@.len(),
        ensures
            path_ok(self.files@[i].file),
            size_ok(self.files@[i].file),
            same_root(self.files@[0].file, self.files@[i].file),
            self.files@[i].wf(self.piece_size),
            self.files@[i].padding < self.piece_size,
            self.files@[i].is_last_data_file <==> i == last_data_file(
                self.data_files(),
                self.files@.len(),
            ),
            is_piece_size(self.piece_size),
    {
        reveal(TorrentMetadata::wf);
        assert(self.data_files()[i] == self.files@[i].file);
        assert(self.data_files()[0] == self.files@[0].file);
        let f = self.files@[i];
        if f.file.length % self.piece_size != 0 {
            assert(0 < f.file.length % self.piece_size < self.piece_size) by (nonlinear_arith)
                requires
                    f.file.length % self.piece_size != 0,
                    self.piece_size > 0,
            ;
        }
    }

    /// The SHA-1 digests of all files, one file after the other.
    fn pieces_bytes(&self) -> (bytes: Vec<u8>)
        ensures
            bytes@ == pieces_view(self.files@, self.files@.len()),
    {
        let mut bytes: Vec<u8> = Vec::new();
        let mut i: usize = 0;
        while i < self.files.len()
            invariant
                i <= self.files@.len(),
                bytes@ == pieces_view(self.files@, i as nat),
            decreases self.files@.len() - i,
        {
            bytes.extend_from_slice(self.files[i].hash_v1.as_slice());
            assert(bytes@ =~= pieces_view(self.files@, (i + 1) as nat));
            i += 1;
        }
        bytes
    }

    /// The `files` list.
    fn files_list(&self) -> (list: Vec<BencodeValue>)
        requires
            self.wf(),
        ensures
            values_view(list@) == files_view(self.files@, self.files@.len()),
    {
        let mut list: Vec<BencodeValue> = Vec::new();
        let mut i: usize = 0;
        assert(values_view(list@) =~= files_view(self.files@, 0));
        while i < self.files.len()
            invariant
                self.wf(),
                i <= self.files@.len(),
                values_view(list@) == files_view(self.files@, i as nat),
            decreases self.files@.len() - i,
        {
            proof {
                self.lemma_file_ok(i as int);
            }
            let f = &self.files[i];
            let ghost before = list@;
            let entry = file_entry_value(f.file.length, &f.file.path_components);
            let ghost entry_view = entry@;
            list.push(entry);
            assert(values_view(list@) =~= values_view(before).push(entry_view));
            if f.padding > 0 {
                let ghost with_file = list@;
                let pad = pad_entry_value(f.padding);
                let ghost pad_view = pad@;
                list.push(pad);
                assert(values_view(list@) =~= values_view(with_file).push(pad_view));
            }
            i += 1;
        }
        list
    }

    /// Tests whether every file lies below the root.
    fn can_strip(&self) -> (yes: bool)
        ensures
            yes <==> self.strip() == 1,
            !yes <==> self.strip() == 0,
    {
        let mut i: usize = 0;
        while i < self.files.len()
            invariant
                i <= self.files@.len(),
                forall|k: int|
                    0 <= k < i ==> (#[trigger] self.files@[k]).file.path_components@.len() > 1,
            decreases self.files@.len() - i,
        {
            if self.files[i].file.path_components.len() <= 1 {
                return false;
            }
            i += 1;
        }
        true
    }

    /// The file tree, the paths taken without their first `strip` names.
    fn file_tree(&self, strip: usize) -> (tree: BencodeDict)
        requires
            self.wf(),
            strip <= 1,
        ensures
            tree@ == file_tree_view(self.files@, self.files@.len(), strip as int),
    {
        let mut tree = BencodeDict::new();
        let mut i: usize = 0;
        while i < self.files.len()
            invariant
                self.wf(),
                strip <= 1,
                i <= self.files@.len(),
                tree@ == file_tree_view(self.files@, i as nat, strip as int),
            decreases self.files@.len() - i,
        {
            proof {
                self.lemma_file_ok(i as int);
            }
            let f = &self.files[i];
            let leaf = if f.merkle_tree.len() == 0 {
                let none: Vec<u8> = Vec::new();
                leaf_entry_value(f.file.length, none.as_slice())
            } else {
                leaf_entry_value(f.file.length, f.merkle_tree[f.merkle_tree.len() - 1].as_slice())
            };
            put_file(&mut tree, &f.file.path_components, strip, leaf);
            i += 1;
        }
        tree
    }

    /// Tests `layers_present`.
    fn check_layers(&self) -> (ok: bool)
        ensures
            ok == self.layers_present(),
    {
        let mut i: usize = 0;
        while i < self.files.len()
            invariant
                i <= self.files@.len(),
                forall|k: int|
                    0 <= k < i && (#[trigger] self.files@[k]).file.length > self.piece_size
                        ==> self.piece_level < self.files@[k].merkle_tree@.len(),
            decreases self.files@.len() - i,
        {
            let f = &self.files[i];
            if f.file.length > self.piece_size && self.piece_level >= f.merkle_tree.len() as u64 {
                return false;
            }
            i += 1;
        }
        true
    }

    /// The `piece layers`.
    fn piece_layers(&self) -> (layers: BencodeDict)
        requires
            self.wf(),
            self.layers_present(),
        ensures
            layers@ == piece_layers_view(
                self.files@,
                self.files@.len(),
                self.piece_size,
                self.piece_level as int,
            ),
    {
        let mut layers = BencodeDict::new();
        let mut i: usize = 0;
        while i < self.files.len()
            invariant
                self.wf(),
                self.layers_present(),
                i <= self.files@.len(),
                layers@ == piece_layers_view(
                    self.files@,
                    i as nat,
                    self.piece_size,
                    self.piece_level as int,
                ),
            decreases self.files@.len() - i,
        {
            proof {
                self.lemma_config_ok();
            }
            let f = &self.files[i];
            if f.file.length > self.piece_size {
                assert(self.piece_level < self.files@[i as int].merkle_tree@.len());
                let top = &f.merkle_tree[f.merkle_tree.len() - 1];
                let layer = &f.merkle_tree[self.piece_level as usize];
                layers.put(
                    vstd::slice::slice_to_vec(top.as_slice()),
                    BencodeValue::Bytes(vstd::slice::slice_to_vec(layer.as_slice())),
                );
            }
            i += 1;
        }
        layers
    }

    /// Starts an `info` dictionary.
    fn info_base(&self) -> (info: BencodeDict)
        requires
            self.wf(),
        ensures
            info@ == self.info_base_view(),
    {
        proof {
            self.lemma_config_ok();
            self.lemma_file_ok(0);
        }
        let mut info = BencodeDict::new();
        info.put(key_bytes("name"), text_value(self.files[0].file.path_components[0].as_str()));
        info.put(key_bytes("piece length"), BencodeValue::Integer(self.piece_size as i64));
        if self.private {
            info.put(key_bytes("private"), BencodeValue::Integer(1));
        }
        info
    }

    /// Puts into `info` what version 1 reads.
    fn put_v1(&self, info: &mut BencodeDict)
        requires
            self.wf(),
        ensures
            final(info)@ == self.with_v1_view(old(info)@),
    {
        proof {
            self.lemma_config_ok();
            self.lemma_file_ok(0);
        }
        info.put(key_bytes("pieces"), BencodeValue::Bytes(self.pieces_bytes()));
        if self.files.len() == 1 && self.files[0].file.path_components.len() == 1 {
            info.put(key_bytes("length"), BencodeValue::Integer(self.files[0].file.length as i64));
        } else {
            let list = self.files_list();
            proof {
                lemma_list_view(list);
            }
            info.put(key_bytes("files"), BencodeValue::List(list));
        }
    }

    /// Puts into `info` what version 2 reads.
    fn put_v2(&self, info: &mut BencodeDict)
        requires
            self.wf(),
        ensures
            final(info)@ == self.with_v2_view(old(info)@),
    {
        info.put(key_bytes("meta version"), BencodeValue::Integer(2));
        let strip: usize = if self.can_strip() {
            1
        } else {
            0
        };
        info.put(key_bytes("file tree"), BencodeValue::Dict(self.file_tree(strip)));
    }

    /// The `info` dictionary.
    fn info(&self, write_v1: bool, write_v2: bool) -> (info: BencodeDict)
        requires
            self.wf(),
        ensures
            info@ == self.info_view(write_v1, write_v2),
    {
        let mut info = self.info_base();
        if write_v1 {
            self.put_v1(&mut info);
        }
        if write_v2 {
            self.put_v2(&mut info);
        }
        info
    }

    /// The outer dictionary without its `info` entry.
    fn outer(&self, write_v2: bool) -> (outer: BencodeDict)
        requires
            self.wf(),
            write_v2 ==> self.layers_present(),
        ensures
            outer@ == self.outer_view(write_v2),
    {
        proof {
            self.lemma_config_ok();
        }
        let mut ret = BencodeDict::new();
        if write_v2 {
            ret.put(key_bytes("piece layers"), BencodeValue::Dict(self.piece_layers()));
        }
        put_trackers(&mut ret, &self.announces, &self.nodes, &self.webseeds);
        ret
    }

    /// Builds the metainfo dictionary from the digest buffers as they
    /// stand. Fails if no output is asked for, and if the tree of a file
    /// longer than one piece lacks the layer that version 2 output lists.
    pub fn assemble(&self, write_v1: bool, write_v2: bool) -> (made: Result<
        BencodeValue,
        TorrentError,
    >)
        requires
            self.wf(),
        ensures
            match made {
                Ok(value) => (write_v1 || write_v2) && (write_v2 ==> self.layers_present())
                    && value@ == self.torrent_view(write_v1, write_v2),
                Err(e) => if !write_v1 && !write_v2 {
                    e == TorrentError::NoOutput
                } else {
                    e == TorrentError::Inconsistent && write_v2 && !self.layers_present()
                },
            },
    {
        if !write_v1 && !write_v2 {
            return Err(TorrentError::NoOutput);
        }
        if write_v2 && !self.check_layers() {
            return Err(TorrentError::Inconsistent);
        }
        let info = self.info(write_v1, write_v2);
        let mut ret = self.outer(write_v2);
        ret.put(key_bytes("info"), BencodeValue::Dict(info));
        Ok(BencodeValue::Dict(ret))
    }
}

impl TorrentMetadata {
    /// Hashes file `i` from `data`, its contents: runs the jobs of the file
    /// one after the other and stores what they yield.
    pub fn hash_file(&mut self, i: usize, data: &[u8])
        requires
            old(self).wf(),
            i < old(self).files@.len(),
            data@.len() == old(self).files@[i as int].file.length,
        ensures
            final(self).wf(),
            final(self).same_torrent(old(self)),
            final(self).files@.len() == old(self).files@.len(),
            forall|k: int|
                0 <= k < old(self).files@.len() && k != i ==> final(self).files@[k] == old(
                    self,
                ).files@[k],
            final(self).files@[i as int].hashed(data@, final(self).piece_size),
    {
        proof {
            self.lemma_config_ok();
            self.lemma_file_ok(i as int);
        }
        let length: u64 = self.files[i].file.length;
        let piece_size: u64 = self.piece_size;
        let is_last: bool = self.files[i].is_last_data_file;
        let ghost want1 = v1_digests(data@, piece_size as nat, !is_last);
        let ghost want2 = leaf_digests(data@);
        if length == 0 {
            proof {
                let f = self.files@[i as int];
                lemma_slots_are(f.hash_v1@, 20, want1);
                lemma_slots_are(f.leaves(), 32, want2);
            }
            return ;
        }
        let mut jobs: Vec<HashJob> = Vec::new();
        plan_file(i, length, piece_size, is_last, &mut jobs);
        assert(jobs@ =~= planned_jobs(i, length, piece_size, is_last));
        proof {
            lemma_job_digests(data@, i, length, piece_size, is_last, 0);
            assert(planned_first_piece(length, piece_size, 0) == 0);
            assert(0 * (piece_size as int / MERKLE_PIECE_SIZE as int) == 0) by (nonlinear_arith);
        }
        let mut j: usize = 0;
        while j < jobs.len()
            invariant
                self.wf(),
                self.same_torrent(old(self)),
                self.files@.len() == old(self).files@.len(),
                i < self.files@.len(),
                length > 0,
                length == self.files@[i as int].file.length,
                data@.len() == length,
                piece_size == self.piece_size,
                is_last == self.files@[i as int].is_last_data_file,
                want1 == v1_digests(data@, piece_size as nat, !is_last),
                want2 == leaf_digests(data@),
                jobs@ == planned_jobs(i, length, piece_size, is_last),
                j <= jobs@.len(),
                forall|k: int|
                    0 <= k < old(self).files@.len() && k != i ==> self.files@[k] == old(
                        self,
                    ).files@[k],
                j < jobs@.len() ==> forall|k: int|
                    0 <= k < planned_first_piece(length, piece_size, j as int) ==> #[trigger] slot(
                        self.files@[i as int].hash_v1@,
                        20,
                        k,
                    ) == want1[k],
                j < jobs@.len() ==> forall|k: int|
                    0 <= k < planned_first_leaf(length, piece_size, j as int) ==> #[trigger] slot(
                        self.files@[i as int].leaves(),
                        32,
                        k,
                    ) == want2[k],
                j == jobs@.len() ==> forall|k: int|
                    0 <= k < want1.len() ==> #[trigger] slot(self.files@[i as int].hash_v1@, 20, k)
                        == want1[k],
                j == jobs@.len() ==> forall|k: int|
                    0 <= k < want2.len() ==> #[trigger] slot(self.files@[i as int].leaves(), 32, k)
                        == want2[k],
            decreases jobs@.len() - j,
        {
            let job = &jobs[j];
            let ghost before = self.files@[i as int];
            proof {
                self.lemma_config_ok();
                self.lemma_file_ok(i as int);
                lemma_job_digests(data@, i, length, piece_size, is_last, j as int);
                lemma_planned_job_fits(i, length, piece_size, is_last, j as int);
                assert(*job == planned_job(i, length, piece_size, is_last, j as int));
            }
            match job.hash(data) {
                Some(digests) => {
                    let ghost first = planned_first_piece(length, piece_size, j as int);
                    let ghost first_leaf = planned_first_leaf(length, piece_size, j as int);
                    proof {
                        vstd::arithmetic::div_mod::lemma_div_multiples_vanish(
                            first,
                            piece_size as int,
                        );
                        vstd::arithmetic::div_mod::lemma_div_multiples_vanish(first_leaf, 16384);
                        assert(first * piece_size == piece_size * first) by (nonlinear_arith);
                        assert(job.offset as int / piece_size as int == first);
                        assert(job.offset as int / 16384 == first_leaf);
                    }
                    let stored = self.store(job, &digests);
                    proof {
                        assert(stored);
                        let after = self.files@[i as int];
                        let items1 = v1_digests(
                            job.region(data@),
                            piece_size as nat,
                            job.v1_last_hash_zero_fill,
                        );
                        let items2 = leaf_digests(job.region(data@));
                        assert(20 * first == first * 20);
                        assert(32 * first_leaf == first_leaf * 32);
                        lemma_written_extends(
                            before.hash_v1@,
                            20,
                            first,
                            digests.v1@,
                            items1,
                            want1,
                        );
                        lemma_written_extends(
                            before.leaves(),
                            32,
                            first_leaf,
                            digests.v2@,
                            items2,
                            want2,
                        );
                    }
                },
                None => {
                    assert(false);
                },
            }
            j += 1;
        }
        proof {
            self.lemma_file_ok(i as int);
            let f = self.files@[i as int];
            lemma_slots_are(f.hash_v1@, 20, want1);
            lemma_slots_are(f.leaves(), 32, want2);
        }
    }
}

/// A piece size is 16 KiB doubled as often as its level says.
pub proof fn lemma_piece_level(piece_size: u64)
    requires
        is_piece_size(piece_size),
    ensures
        piece_size == 16384 * vstd::arithmetic::power2::pow2(piece_level_of(piece_size) as nat),
        piece_size as int / 16384 == vstd::arithmetic::power2::pow2(
            piece_level_of(piece_size) as nat,
        ),
{
    vstd::arithmetic::power2::lemma2_to64();
}

/// Of a file longer than one piece whose tree is complete: the tree has
/// the layer that holds one hash per piece, and that layer holds as many
/// hashes as the file has pieces, which are at least two.
pub proof fn lemma_piece_layer(f: FileMetadata, piece_size: u64)
    requires
        is_piece_size(piece_size),
        f.wf(piece_size),
        f.tree_complete(),
        f.file.length > piece_size,
    ensures
        piece_level_of(piece_size) < f.merkle_tree@.len(),
        f.merkle_tree@[piece_level_of(piece_size) as int]@.len() == 32 * f.hash_v1_piece_count,
        f.hash_v1_piece_count == block_count(
            f.merkle_piece_count as nat,
            (piece_size / MERKLE_PIECE_SIZE) as nat,
        ),
        f.hash_v1_piece_count >= 2,
{
    let level = piece_level_of(piece_size) as nat;
    let factor = piece_size as int / 16384;
    let leaves = f.merkle_piece_count as nat;
    let length = f.file.length as nat;
    let height = tree_height(leaves);
    lemma_piece_level(piece_size);
    crate::blocks::lemma_block_count(length, 16384);
    crate::blocks::lemma_block_count(length, piece_size as nat);
    // More than one piece of data takes more leaves than one piece holds.
    assert(leaves > factor) by (nonlinear_arith)
        requires
            leaves * 16384 >= length,
            length > piece_size,
            piece_size == factor * 16384,
    ;
    lemma_tree_height(leaves);
    if height <= level {
        if height < level {
            vstd::arithmetic::power2::lemma_pow2_strictly_increases(height, level);
        }
        assert(false);
    }
    let layer = f.merkle_tree@[level as int];
    let base = slots(f.merkle_tree@[0]@, 32);
    assert(base.len() == leaves);
    lemma_layer_len(base, level);
    assert(slots(layer@, 32).len() == block_count(leaves, factor as nat));
    // Counting leaves, then pieces of leaves, counts pieces.
    vstd::arithmetic::div_mod::lemma_div_denominator(length - 1, 16384, factor);
    assert(16384 * factor == piece_size);
    assert(block_count(leaves, factor as nat) == block_count(length, piece_size as nat));
    assert(f.hash_v1_piece_count >= 2) by {
        crate::blocks::lemma_block_index(length, piece_size as nat, 1);
    }
}

impl TorrentMetadata {
    /// Every file is hashed from its contents, and its tree is complete.
    pub open spec fn hashed(&self, contents: Seq<Vec<u8>>) -> bool {
        forall|i: int|
            0 <= i < self.files@.len() ==> (#[trigger] self.files@[i]).hashed(
                contents[i]@,
                self.piece_size,
            ) && self.files@[i].tree_complete()
    }

    /// Tests that `contents` holds the data of every file and no more.
    /// Yields the index where it first fails to.
    pub fn check_data(&self, contents: &Vec<Vec<u8>>) -> (fault: Option<usize>)
        ensures
            match fault {
                None => contents@.len() == self.files@.len() && data_fits(
                    self.data_files(),
                    contents@,
                    self.files@.len() as int,
                ),
                Some(i) => first_misfit(self.data_files(), contents@, i as int),
            },
    {
        let mut i: usize = 0;
        while i < self.files.len()
            invariant
                i <= self.files@.len(),
                data_fits(self.data_files(), contents@, i as int),
            decreases self.files@.len() - i,
        {
            if i >= contents.len() || contents[i].len() as u64 != self.files[i].file.length {
                return Some(i);
            }
            assert(fits_at(self.data_files(), contents@, i as int));
            i += 1;
        }
        proof {
            if i > 0 {
                assert(fits_at(self.data_files(), contents@, i - 1));
            }
        }
        if contents.len() > self.files.len() {
            Some(i)
        } else {
            None
        }
    }

    /// Makes the torrent from the contents of its files, `contents[i]`
    /// holding those of file `i`: hashes every file, builds the Merkle
    /// trees and assembles the metainfo dictionary, with the parts of
    /// version 1 (`write_v1`), of version 2 (`write_v2`), or both.
    ///
    /// The result depends on nothing but the torrent as it was set up, the
    /// contents and the two flags.
    pub fn hash(&mut self, contents: &Vec<Vec<u8>>, write_v1: bool, write_v2: bool) -> (made:
        Result<BencodeValue, TorrentError>)
        requires
            old(self).wf(),
        ensures
            final(self).wf(),
            final(self).same_torrent(old(self)),
            match made {
                Ok(value) => {
                    &&& write_v1 || write_v2
                    &&& contents@.len() == old(self).files@.len()
                    &&& data_fits(old(self).data_files(), contents@, contents@.len() as int)
                    &&& final(self).hashed(contents@)
                    &&& value@ == final(self).torrent_view(write_v1, write_v2)
                },
                Err(e) => {
                    &&& *final(self) == *old(self)
                    &&& if !write_v1 && !write_v2 {
                        e == TorrentError::NoOutput
                    } else {
                        e matches TorrentError::DataMismatch(i) && first_misfit(
                            old(self).data_files(),
                            contents@,
                            i as int,
                        )
                    }
                },
            },
    {
        if !write_v1 && !write_v2 {
            return Err(TorrentError::NoOutput);
        }
        if let Some(i) = self.check_data(contents) {
            return Err(TorrentError::DataMismatch(i));
        }
        let mut i: usize = 0;
        while i < self.files.len()
            invariant
                self.wf(),
                self.same_torrent(old(self)),
                self.files@.len() == old(self).files@.len(),
                contents@.len() == self.files@.len(),
                data_fits(old(self).data_files(), contents@, contents@.len() as int),
                i <= self.files@.len(),
                forall|k: int|
                    0 <= k < i ==> (#[trigger] self.files@[k]).hashed(
                        contents@[k]@,
                        self.piece_size,
                    ),
                forall|k: int| i <= k < self.files@.len() ==> self.files@[k] == old(self).files@[k],
            decreases self.files@.len() - i,
        {
            assert(fits_at(old(self).data_files(), contents@, i as int));
            assert(old(self).data_files()[i as int] == self.data_files()[i as int]);
            assert(contents@[i as int]@.len() == self.files@[i as int].file.length);
            self.hash_file(i, contents[i].as_slice());
            i += 1;
        }
        let ghost hashed = *self;
        self.complete_trees();
        proof {
            self.lemma_config_ok();
            assert forall|k: int| 0 <= k < self.files@.len() implies (#[trigger] self.files@[k]).hashed(
                contents@[k]@,
                self.piece_size,
            ) && self.files@[k].tree_complete() by {
                assert(hashed.files@[k].hashed(contents@[k]@, self.piece_size));
            }
            assert forall|k: int|
                0 <= k < self.files@.len() && (#[trigger] self.files@[k]).file.length
                    > self.piece_size implies self.piece_level < self.files@[k].merkle_tree@.len() by {
                self.lemma_file_ok(k);
                lemma_piece_layer(self.files@[k], self.piece_size);
            }
        }
        self.assemble(write_v1, write_v2)
    }
}

} // verus!
