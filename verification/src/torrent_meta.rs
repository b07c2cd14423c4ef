//! Torrents of version 1 of the protocol alone: one stream of SHA-1 piece
//! digests over the files laid end to end, with no padding between them.

use crate::bencode::{
    dict_insert, lemma_list_view, values_view, BencodeDict, BencodeValue, BencodeView,
};
use crate::blocks::{block, block_count, lemma_block_count_exact};
use crate::digest::{sha1, sha1_digest};
use crate::dirwalker::{
    check_data, check_paths, check_roots, data_fits, end_to_end, first_misfit, path_ok,
    same_root, size_ok, total_length, total_size, DataFile, WalkedDir,
};
use crate::error::TorrentError;
use crate::metainfo::{
    file_entry, file_entry_value, key, key_bytes, put_trackers, text, text_value, with_trackers,
    Entries,
};
use crate::sorting::{paths_sorted, sort_files};
use crate::pieces::{
    check_piece_size, choose_piece_size, chosen_piece_size, is_piece_size, v1_digests,
    };
use vstd::prelude::*;
use vstd::slice::slice_subrange;

verus! {

/// Cuts a stream of bytes, handed over file by file, into pieces and hashes
/// each piece. A piece may begin in one file and end in another.
pub struct Bep3Hasher {
    piece_size: u64,
    /// The digests of the pieces that are complete.
    hashes: Vec<Vec<u8>>,
    /// The bytes of the piece in the making.
    pending: Vec<u8>,
    /// How many bytes the piece in the making holds.
    hashed_size: u64,
    /// All bytes handed over so far.
    stream: Ghost<Seq<u8>>,
}

impl Bep3Hasher {
    /// All bytes handed over so far.
    pub closed spec fn stream(&self) -> Seq<u8> {
        self.stream@
    }

    /// The piece size.
    pub closed spec fn piece_size(&self) -> u64 {
        self.piece_size
    }

    /// The digests gathered so far.
    pub closed spec fn digests(&self) -> Seq<Seq<u8>> {
        Seq::new(self.hashes@.len(), |k: int| self.hashes@[k]@)
    }

    /// The hasher is taking bytes: every complete piece of the stream is
    /// hashed, and the rest of the stream waits for the piece to fill.
    pub closed spec fn wf(&self) -> bool {
        &&& is_piece_size(self.piece_size)
        &&& self.hashed_size == self.pending@.len()
        &&& self.pending@.len() < self.piece_size
        &&& self.stream@.len() == self.hashes@.len() * self.piece_size + self.pending@.len()
        &&& self.pending@ == self.stream@.subrange(
            self.hashes@.len() * self.piece_size,
            self.stream@.len() as int,
        )
        &&& forall|k: int|
            0 <= k < self.hashes@.len() ==> (#[trigger] self.hashes@[k])@ == sha1_digest(
                self.stream@.subrange(k * self.piece_size, k * self.piece_size + self.piece_size),
            )
    }

    /// The piece size.
    pub fn size(&self) -> (size: u64)
        ensures
            size == self.piece_size(),
    {
        self.piece_size
    }

    /// A hasher that has taken no bytes yet.
    pub fn new(piece_size: u64) -> (hasher: Bep3Hasher)
        requires
            is_piece_size(piece_size),
        ensures
            hasher.wf(),
            hasher.piece_size() == piece_size,
            hasher.stream() == Seq::<u8>::empty(),
    {
        let hasher = Bep3Hasher {
            piece_size,
            hashes: Vec::new(),
            pending: Vec::new(),
            hashed_size: 0,
            stream: Ghost(Seq::empty()),
        };
        assert(hasher.pending@ =~= hasher.stream@.subrange(0, 0));
        hasher
    }

    /// Takes the bytes of one more file.
    pub fn visit_file(&mut self, data: &[u8])
        requires
            old(self).wf(),
        ensures
            final(self).wf(),
            final(self).piece_size() == old(self).piece_size(),
            final(self).stream() == old(self).stream() + data@,
    {
        let size: usize = self.piece_size as usize;
        let total: usize = data.len();
        let mut offset: usize = 0;
        proof {
            assert(self.stream@ =~= old(self).stream@ + data@.take(0));
        }
        while offset < total
            invariant
                self.wf(),
                size == self.piece_size,
                self.piece_size == old(self).piece_size,
                total == data@.len(),
                offset <= total,
                self.stream@ == old(self).stream@ + data@.take(offset as int),
            decreases total - offset,
        {
            let ghost before = self.stream@;
            let ghost count = self.hashes@.len() as int;
            let file_left: usize = total - offset;
            if self.pending.len() == 0 && file_left >= size {
                let piece = slice_subrange(data, offset, offset + size);
                let hash = sha1(piece);
                proof {
                    self.stream@ = before + piece@;
                    lemma_stream_grows(before, piece@, size as int, count);
                    assert(self.stream@.subrange(count * size, count * size + size) =~= piece@);
                    assert((count + 1) * size == count * size + size) by (nonlinear_arith);
                    assert(data@.take(offset + size) =~= data@.take(offset as int) + piece@);
                    assert(self.stream@ =~= old(self).stream@ + data@.take(offset + size));
                }
                self.hashes.push(hash);
                proof {
                    assert(self.pending@ =~= self.stream@.subrange(
                        (count + 1) * size,
                        self.stream@.len() as int,
                    ));
                }
                offset += size;
            } else {
                let piece_left: usize = size - self.pending.len();
                let consume: usize = if piece_left < file_left {
                    piece_left
                } else {
                    file_left
                };
                let part = slice_subrange(data, offset, offset + consume);
                self.pending.extend_from_slice(part);
                proof {
                    self.stream@ = before + part@;
                    lemma_stream_grows(before, part@, size as int, count);
                    assert(self.pending@ =~= self.stream@.subrange(
                        count * size,
                        self.stream@.len() as int,
                    ));
                    assert(data@.take(offset + consume) =~= data@.take(offset as int) + part@);
                    assert(self.stream@ =~= old(self).stream@ + data@.take(offset + consume));
                }
                offset += consume;
                if self.pending.len() == size {
                    let hash = sha1(self.pending.as_slice());
                    proof {
                        assert((count + 1) * size == count * size + size) by (nonlinear_arith);
                    }
                    self.hashes.push(hash);
                    self.pending.clear();
                    proof {
                        assert(self.pending@ =~= self.stream@.subrange(
                            (count + 1) * size,
                            self.stream@.len() as int,
                        ));
                    }
                }
                self.hashed_size = self.pending.len() as u64;
            }
        }
        proof {
            assert(data@.take(total as int) =~= data@);
        }
    }

    /// Ends the stream: hashes the last piece if it holds any bytes. The
    /// digests are then those of the pieces of the whole stream, the last
    /// piece hashed as it is.
    pub fn visit_end(&mut self)
        requires
            old(self).wf(),
        ensures
            final(self).piece_size() == old(self).piece_size(),
            final(self).stream() == old(self).stream(),
            final(self).digests() == v1_digests(
                old(self).stream(),
                old(self).piece_size() as nat,
                false,
            ),
    {
        let ghost count = self.hashes@.len() as int;
        let ghost size = self.piece_size as int;
        let ghost all = self.stream@;
        if self.hashed_size > 0 {
            let hash = sha1(self.pending.as_slice());
            self.hashes.push(hash);
            self.pending.clear();
            self.hashed_size = 0;
        }
        proof {
            let want = v1_digests(all, size as nat, false);
            assert((count + 1) * size == count * size + size) by (nonlinear_arith);
            assert(count * size >= 0) by (nonlinear_arith)
                requires
                    count >= 0,
                    size > 0,
            ;
            if all.len() > 0 {
                if all.len() == count * size {
                    assert((count - 1) * size == count * size - size) by (nonlinear_arith);
                    lemma_block_count_exact(all.len(), size as nat, count);
                } else {
                    lemma_block_count_exact(all.len(), size as nat, count + 1);
                }
            } else {
                assert(count == 0) by (nonlinear_arith)
                    requires
                        count * size <= 0,
                        count >= 0,
                        size > 0,
                ;
            }
            assert(self.digests().len() == want.len());
            assert forall|k: int| 0 <= k < want.len() implies self.digests()[k] == want[k] by {
                assert((k + 1) * size == k * size + size) by (nonlinear_arith);
                if k < count {
                    assert((k + 1) * size <= count * size) by (nonlinear_arith)
                        requires
                            k + 1 <= count,
                            size > 0,
                    ;
                    assert(block(all, size as nat, k) == all.subrange(k * size, k * size + size));
                } else {
                    assert(block(all, size as nat, k) == all.subrange(
                        count * size,
                        all.len() as int,
                    ));
                }
            }
            assert(self.digests() =~= want);
        }
    }

    /// The digests gathered, one after the other.
    pub fn pieces(&self) -> (bytes: Vec<u8>)
        ensures
            bytes@ == joined(self.digests(), self.digests().len()),
    {
        let mut bytes: Vec<u8> = Vec::new();
        let mut i: usize = 0;
        while i < self.hashes.len()
            invariant
                i <= self.hashes@.len(),
                bytes@ == joined(self.digests(), i as nat),
            decreases self.hashes@.len() - i,
        {
            bytes.extend_from_slice(self.hashes[i].as_slice());
            assert(bytes@ =~= joined(self.digests(), (i + 1) as nat));
            i += 1;
        }
        bytes
    }
}

/// The first `n` of `items`, one after the other.
pub open spec fn joined(items: Seq<Seq<u8>>, n: nat) -> Seq<u8>
    decreases n,
{
    if n == 0 || n > items.len() {
        Seq::empty()
    } else {
        joined(items, (n - 1) as nat) + items[n - 1]
    }
}

/// Appending to a stream leaves its complete pieces as they were.
proof fn lemma_stream_grows(stream: Seq<u8>, more: Seq<u8>, size: int, count: int)
    requires
        size > 0,
        0 <= count,
        count * size <= stream.len(),
    ensures
        forall|k: int|
            0 <= k < count ==> #[trigger] (stream + more).subrange(k * size, k * size + size)
                == stream.subrange(k * size, k * size + size),
        (stream + more).subrange(count * size, (stream + more).len() as int) == stream.subrange(
            count * size,
            stream.len() as int,
        ) + more,
{
    assert forall|k: int| 0 <= k < count implies #[trigger] (stream + more).subrange(
        k * size,
        k * size + size,
    ) == stream.subrange(k * size, k * size + size) by {
        assert(0 <= k * size && k * size + size <= count * size) by (nonlinear_arith)
            requires
                0 <= k < count,
                size > 0,
        ;
        assert((stream + more).subrange(k * size, k * size + size) =~= stream.subrange(
            k * size,
            k * size + size,
        ));
    }
    assert(count * size >= 0) by (nonlinear_arith)
        requires
            count >= 0,
            size > 0,
    ;
    assert((stream + more).subrange(count * size, (stream + more).len() as int)
        =~= stream.subrange(count * size, stream.len() as int) + more);
}

/// Whether the torrent is a single file: one file, with one name.
pub open spec fn single_file(files: Seq<DataFile>) -> bool {
    files.len() == 1 && files[0].path_components@.len() == 1
}

/// Whether every file lies below the root.
pub open spec fn all_below_root(files: Seq<DataFile>) -> bool {
    forall|i: int| 0 <= i < files.len() ==> (#[trigger] files[i]).path_components@.len() > 1
}

/// Why a torrent cannot be set up with these trackers, nodes and piece
/// size, if it cannot.
pub open spec fn new_error(
    announces: Seq<Vec<String>>,
    nodes: Seq<(String, u16)>,
    user_piece_size: Option<u64>,
) -> Option<TorrentError> {
    if user_piece_size is Some && !is_piece_size(user_piece_size->0) {
        Some(TorrentError::BadPieceSize)
    } else if announces.len() == 0 && nodes.len() == 0 {
        Some(TorrentError::NoTracker)
    } else if announces.len() > 0 && announces[0]@.len() == 0 {
        Some(TorrentError::EmptyTier)
    } else {
        None
    }
}

/// Why a file list cannot be made a torrent of, if it cannot. The first
/// fault found, in this order, is the one reported.
pub open spec fn files_error(files: Seq<DataFile>) -> Option<TorrentError> {
    if files.len() == 0 {
        Some(TorrentError::NoInput)
    } else if !(forall|i: int| 0 <= i < files.len() ==> path_ok(#[trigger] files[i])) {
        Some(TorrentError::BadPath)
    } else if !single_file(files) && !all_below_root(files) {
        Some(TorrentError::BadPath)
    } else if !(forall|i: int| 0 <= i < files.len() ==> same_root(files[0], #[trigger] files[i])) {
        Some(TorrentError::RootMismatch)
    } else if !(forall|i: int| 0 <= i < files.len() ==> size_ok(#[trigger] files[i]))
        || total_length(files, files.len()) > u64::MAX {
        Some(TorrentError::TooLarge)
    } else {
        None
    }
}

/// The `files` list over the first `n` files.
pub open spec fn files_view(files: Seq<DataFile>, n: nat) -> Seq<BencodeView>
    decreases n,
{
    if n == 0 || n > files.len() {
        Seq::empty()
    } else {
        files_view(files, (n - 1) as nat).push(
            file_entry(files[n - 1].length, files[n - 1].path_components@),
        )
    }
}

/// A version 1 torrent in the making.
pub struct TorrentMetadata {
    pub files: Vec<DataFile>,
    /// Tracker URLs in tiers.
    pub announces: Vec<Vec<String>>,
    /// Bytes per piece; 0 until a size is chosen.
    pub piece_size: u64,
    pub private: bool,
    /// Hosts and ports of DHT nodes.
    pub nodes: Vec<(String, u16)>,
    pub webseeds: Vec<String>,
}

impl TorrentMetadata {
    /// What `new` establishes and every method keeps.
    pub open spec fn wf(&self) -> bool {
        &&& self.piece_size == 0 || is_piece_size(self.piece_size)
        &&& self.announces@.len() > 0 || self.nodes@.len() > 0
        &&& self.announces@.len() > 0 ==> self.announces@[0]@.len() > 0
    }

    /// Sets up a torrent without files.
    pub fn new(
        announces: Vec<Vec<String>>,
        nodes: Vec<(String, u16)>,
        private: bool,
        user_piece_size: Option<u64>,
        webseeds: Vec<String>,
    ) -> (made: Result<Self, TorrentError>)
        ensures
            match made {
                Ok(torrent) => {
                    &&& new_error(announces@, nodes@, user_piece_size) is None
                    &&& torrent.wf()
                    &&& torrent.files@.len() == 0
                    &&& torrent.announces == announces
                    &&& torrent.nodes == nodes
                    &&& torrent.webseeds == webseeds
                    &&& torrent.private == private
                    &&& torrent.piece_size == (if user_piece_size is Some {
                        user_piece_size->0
                    } else {
                        0
                    })
                },
                Err(e) => new_error(announces@, nodes@, user_piece_size) == Some(e),
            },
    {
        if let Some(x) = user_piece_size {
            if !check_piece_size(x) {
                return Err(TorrentError::BadPieceSize);
            }
        }
        if announces.len() == 0 && nodes.len() == 0 {
            return Err(TorrentError::NoTracker);
        }
        if announces.len() > 0 && announces[0].len() == 0 {
            return Err(TorrentError::EmptyTier);
        }
        Ok(
            TorrentMetadata {
                files: Vec::new(),
                announces,
                piece_size: match user_piece_size {
                    Some(x) => x,
                    None => 0,
                },
                private,
                nodes,
                webseeds,
            },
        )
    }

    /// The `info` dictionary over the piece digests `pieces`.
    pub open spec fn info_view(&self, pieces: Seq<u8>) -> Entries {
        let named = dict_insert(
            dict_insert(
                Seq::empty(),
                key("name"),
                text(self.files@[0].path_components@[0]@),
            ),
            key("piece length"),
            BencodeView::Integer(self.piece_size as i64),
        );
        let marked = if self.private {
            dict_insert(named, key("private"), BencodeView::Integer(1))
        } else {
            named
        };
        let with_pieces = dict_insert(marked, key("pieces"), BencodeView::Bytes(pieces));
        if single_file(self.files@) {
            dict_insert(
                with_pieces,
                key("length"),
                BencodeView::Integer(self.files@[0].length as i64),
            )
        } else {
            dict_insert(
                with_pieces,
                key("files"),
                BencodeView::List(files_view(self.files@, self.files@.len())),
            )
        }
    }

    /// The metainfo dictionary over the piece digests `pieces`.
    pub open spec fn torrent_view(&self, pieces: Seq<u8>) -> BencodeView {
        BencodeView::Dict(
            dict_insert(
                with_trackers(Seq::empty(), self.announces@, self.nodes@, self.webseeds@),
                key("info"),
                BencodeView::Dict(self.info_view(pieces)),
            ),
        )
    }

    /// Tests whether every file lies below the root.
    fn check_below_root(&self) -> (yes: bool)
        ensures
            yes == all_below_root(self.files@),
    {
        let mut i: usize = 0;
        while i < self.files.len()
            invariant
                i <= self.files@.len(),
                forall|k: int| 0 <= k < i ==> (#[trigger] self.files@[k]).path_components@.len() > 1,
            decreases self.files@.len() - i,
        {
            if self.files[i].path_components.len() <= 1 {
                return false;
            }
            i += 1;
        }
        true
    }

    /// Tests the file list. Yields the total size of the files.
    pub fn check_files(&self) -> (checked: Result<u64, TorrentError>)
        ensures
            match checked {
                Ok(total) => files_error(self.files@) is None && total == total_length(
                    self.files@,
                    self.files@.len(),
                ),
                Err(e) => files_error(self.files@) == Some(e),
            },
    {
        if self.files.len() == 0 {
            return Err(TorrentError::NoInput);
        }
        if !check_paths(&self.files) {
            return Err(TorrentError::BadPath);
        }
        let single: bool = self.files.len() == 1 && self.files[0].path_components.len() == 1;
        if !single && !self.check_below_root() {
            return Err(TorrentError::BadPath);
        }
        if !check_roots(&self.files) {
            return Err(TorrentError::RootMismatch);
        }
        match total_size(&self.files) {
            Some(total) => Ok(total),
            None => Err(TorrentError::TooLarge),
        }
    }

    /// The `files` list.
    fn files_list(&self) -> (list: Vec<BencodeValue>)
        requires
            files_error(self.files@) is None,
        ensures
            values_view(list@) == files_view(self.files@, self.files@.len()),
    {
        let mut list: Vec<BencodeValue> = Vec::new();
        let mut i: usize = 0;
        assert(values_view(list@) =~= files_view(self.files@, 0));
        while i < self.files.len()
            invariant
                files_error(self.files@) is None,
                i <= self.files@.len(),
                values_view(list@) == files_view(self.files@, i as nat),
            decreases self.files@.len() - i,
        {
            let f = &self.files[i];
            assert(path_ok(self.files@[i as int]) && size_ok(self.files@[i as int]));
            let ghost before = list@;
            let entry = file_entry_value(f.length, &f.path_components);
            let ghost entry_view = entry@;
            list.push(entry);
            assert(values_view(list@) =~= values_view(before).push(entry_view));
            i += 1;
        }
        list
    }

    /// Builds the metainfo dictionary over the piece digests `pieces`.
    pub fn assemble(&self, pieces: Vec<u8>) -> (value: BencodeValue)
        requires
            self.wf(),
            is_piece_size(self.piece_size),
            files_error(self.files@) is None,
        ensures
            value@ == self.torrent_view(pieces@),
    {
        assert(path_ok(self.files@[0]) && size_ok(self.files@[0]));
        let mut info = BencodeDict::new();
        info.put(key_bytes("name"), text_value(self.files[0].path_components[0].as_str()));
        info.put(key_bytes("piece length"), BencodeValue::Integer(self.piece_size as i64));
        if self.private {
            info.put(key_bytes("private"), BencodeValue::Integer(1));
        }
        info.put(key_bytes("pieces"), BencodeValue::Bytes(pieces));
        if self.files.len() == 1 && self.files[0].path_components.len() == 1 {
            info.put(key_bytes("length"), BencodeValue::Integer(self.files[0].length as i64));
        } else {
            let list = self.files_list();
            proof {
                lemma_list_view(list);
            }
            info.put(key_bytes("files"), BencodeValue::List(list));
        }
        let mut ret = BencodeDict::new();
        put_trackers(&mut ret, &self.announces, &self.nodes, &self.webseeds);
        ret.put(key_bytes("info"), BencodeValue::Dict(info));
        BencodeValue::Dict(ret)
    }
}

impl TorrentMetadata {
    /// What neither scanning nor hashing changes.
    pub open spec fn same_torrent(&self, other: &TorrentMetadata) -> bool {
        &&& self.announces == other.announces
        &&& self.nodes == other.nodes
        &&& self.webseeds == other.webseeds
        &&& self.private == other.private
    }

    /// Takes the files of `walked_dir` into the torrent, and puts the file
    /// list in the order of the paths.
    pub fn scan(&mut self, walked_dir: WalkedDir)
        ensures
            final(self).files@.to_multiset() == (old(self).files@ + walked_dir.files@).to_multiset(),
            paths_sorted(final(self).files@),
            final(self).same_torrent(old(self)),
            final(self).piece_size == old(self).piece_size,
    {
        let mut incoming = walked_dir.files;
        self.files.append(&mut incoming);
        sort_files(&mut self.files);
    }

    /// The piece size that hashing settles on: the one set, or else one
    /// chosen by the total size of the files.
    pub open spec fn settled_piece_size(&self) -> u64 {
        if self.piece_size != 0 {
            self.piece_size
        } else {
            chosen_piece_size(None, total_length(self.files@, self.files@.len()))
        }
    }

    /// Starts hashing: tests the file list, settles the piece size, and
    /// yields a hasher that has taken no bytes yet. It is to be fed the
    /// contents of the files, one file after the other.
    pub fn begin_hash(&mut self) -> (begun: Result<Bep3Hasher, TorrentError>)
        requires
            old(self).wf(),
        ensures
            final(self).wf(),
            final(self).same_torrent(old(self)),
            final(self).files == old(self).files,
            match begun {
                Ok(hasher) => {
                    &&& files_error(old(self).files@) is None
                    &&& final(self).piece_size == old(self).settled_piece_size()
                    &&& is_piece_size(final(self).piece_size)
                    &&& hasher.wf()
                    &&& hasher.piece_size() == final(self).piece_size
                    &&& hasher.stream() == Seq::<u8>::empty()
                },
                Err(e) => *final(self) == *old(self) && files_error(old(self).files@) == Some(e),
            },
    {
        let total: u64 = match self.check_files() {
            Ok(total) => total,
            Err(e) => {
                return Err(e);
            },
        };
        if self.piece_size == 0 {
            self.piece_size = choose_piece_size(None, total);
        }
        Ok(Bep3Hasher::new(self.piece_size))
    }

    /// Ends hashing: lets `hasher` hash its last piece and assembles the
    /// metainfo dictionary over its digests. Fails if the hasher is not one
    /// that `begin_hash` has yielded for this torrent.
    pub fn finish_hash(&self, hasher: &mut Bep3Hasher) -> (made: Result<BencodeValue, TorrentError>)
        requires
            self.wf(),
            old(hasher).wf(),
        ensures
            match made {
                Ok(value) => {
                    &&& files_error(self.files@) is None
                    &&& old(hasher).piece_size() == self.piece_size
                    &&& value@ == self.torrent_view(
                        joined(
                            v1_digests(old(hasher).stream(), self.piece_size as nat, false),
                            block_count(old(hasher).stream().len(), self.piece_size as nat),
                        ),
                    )
                },
                Err(e) => if files_error(self.files@) is Some {
                    files_error(self.files@) == Some(e)
                } else {
                    e == TorrentError::Inconsistent && old(hasher).piece_size() != self.piece_size
                },
            },
    {
        if let Err(e) = self.check_files() {
            return Err(e);
        }
        if hasher.size() != self.piece_size {
            return Err(TorrentError::Inconsistent);
        }
        hasher.visit_end();
        let pieces = hasher.pieces();
        Ok(self.assemble(pieces))
    }

    /// Makes the torrent from the contents of its files, `contents[i]`
    /// holding those of file `i`: settles the piece size, hashes the
    /// contents laid end to end piece by piece, and assembles the metainfo
    /// dictionary.
    pub fn hash(&mut self, contents: &Vec<Vec<u8>>) -> (made: Result<BencodeValue, TorrentError>)
        requires
            old(self).wf(),
        ensures
            final(self).wf(),
            final(self).same_torrent(old(self)),
            final(self).files == old(self).files,
            match made {
                Ok(value) => {
                    &&& files_error(old(self).files@) is None
                    &&& contents@.len() == old(self).files@.len()
                    &&& data_fits(old(self).files@, contents@, contents@.len() as int)
                    &&& final(self).piece_size == old(self).settled_piece_size()
                    &&& value@ == final(self).torrent_view(
                        joined(
                            v1_digests(
                                end_to_end(contents@, contents@.len()),
                                final(self).piece_size as nat,
                                false,
                            ),
                            block_count(
                                end_to_end(contents@, contents@.len()).len(),
                                final(self).piece_size as nat,
                            ),
                        ),
                    )
                },
                Err(e) => {
                    &&& *final(self) == *old(self)
                    &&& if files_error(old(self).files@) is Some {
                        files_error(old(self).files@) == Some(e)
                    } else {
                        e matches TorrentError::DataMismatch(i) && first_misfit(
                            old(self).files@,
                            contents@,
                            i as int,
                        )
                    }
                },
            },
    {
        if let Err(e) = self.check_files() {
            return Err(e);
        }
        if let Some(i) = check_data(&self.files, contents) {
            return Err(TorrentError::DataMismatch(i));
        }
        let mut hasher = match self.begin_hash() {
            Ok(hasher) => hasher,
            Err(e) => {
                return Err(e);
            },
        };
        let mut i: usize = 0;
        while i < contents.len()
            invariant
                i <= contents@.len(),
                hasher.wf(),
                hasher.piece_size() == self.piece_size,
                hasher.stream() == end_to_end(contents@, i as nat),
            decreases contents@.len() - i,
        {
            hasher.visit_file(contents[i].as_slice());
            i += 1;
        }
        self.finish_hash(&mut hasher)
    }
}

} // verus!
