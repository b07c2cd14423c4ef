//! What holds of every torrent with both hash streams: where the roots and
//! the piece layers of its files come from, that `piece layers` lists
//! every file longer than a piece, and that nothing but the files, their
//! contents and the piece size decides what is written.

use crate::bencode::{dict_get, keys_increase, lemma_dict_insert_get, BencodeView};
use crate::blocks::{block_count, lemma_slots_unique, slots};
use crate::merkle::{merkle_layer, merkle_root, tree_height, MERKLE_PIECE_SIZE};
use crate::merkle_laws::{full_layer, lemma_root_of_padded_tree, padded};
use crate::job::{
    job_count, lemma_job_digests, planned_first_leaf, planned_first_piece, planned_job,
};
use crate::pieces::{is_piece_size, leaf_digests};
use crate::torrent_meta_v2::{
    file_tree_view, files_view, piece_layers_view, pieces_view, FileMetadata,
    TorrentMetadata,
};
use vstd::prelude::*;

verus! {

/// The pieces root of a file that is hashed, with its tree complete, is
/// the root of the Merkle tree over the SHA-256 digests of the file's
/// 16 KiB leaves: the root of the complete binary tree over these digests
/// padded with zero leaves to the next power of two.
pub proof fn lemma_pieces_root(f: FileMetadata, data: Seq<u8>, piece_size: u64)
    requires
        is_piece_size(piece_size),
        f.wf(piece_size),
        f.file.length > 0,
        data.len() == f.file.length,
        f.hashed(data, piece_size),
        f.tree_complete(),
    ensures
        f.root().len() == 32,
        f.root() == merkle_root(leaf_digests(data)),
        leaf_digests(data).len() == block_count(data.len(), MERKLE_PIECE_SIZE as nat),
        f.root() == full_layer(
            padded(leaf_digests(data), tree_height(leaf_digests(data).len())),
            tree_height(leaf_digests(data).len()),
        )[0],
{
    let leaves = leaf_digests(data);
    let height = tree_height(leaves.len());
    let top = f.merkle_tree@.last()@;
    crate::blocks::lemma_block_count(data.len(), 16384);
    assert(f.merkle_tree@[height as int]@ == top);
    assert(slots(top, 32) == merkle_layer(leaves, height));
    assert(slots(top, 32)[0] == crate::blocks::slot(top, 32, 0));
    assert(crate::blocks::slot(top, 32, 0) =~= top);
    lemma_root_of_padded_tree(leaves);
}

/// The keys of `piece layers` are strictly increasing.
pub proof fn lemma_piece_layers_sorted(
    files: Seq<FileMetadata>,
    n: nat,
    piece_size: u64,
    level: int,
)
    ensures
        keys_increase(piece_layers_view(files, n, piece_size, level)),
    decreases n,
{
    if n > 0 && n <= files.len() {
        lemma_piece_layers_sorted(files, (n - 1) as nat, piece_size, level);
        let f = files[n - 1];
        let before = piece_layers_view(files, (n - 1) as nat, piece_size, level);
        lemma_dict_insert_get(before, f.root(), BencodeView::Bytes(f.merkle_tree@[level]@), f.root());
    }
}

/// `piece layers` holds an entry under the pieces root of every file that
/// is longer than one piece.
pub proof fn lemma_piece_layers_listed(
    files: Seq<FileMetadata>,
    n: nat,
    piece_size: u64,
    level: int,
    i: int,
)
    requires
        0 <= i < n <= files.len(),
        files[i].file.length > piece_size,
    ensures
        dict_get(piece_layers_view(files, n, piece_size, level), files[i].root()) is Some,
    decreases n,
{
    let f = files[n - 1];
    let before = piece_layers_view(files, (n - 1) as nat, piece_size, level);
    lemma_piece_layers_sorted(files, (n - 1) as nat, piece_size, level);
    if i < n - 1 {
        lemma_piece_layers_listed(files, (n - 1) as nat, piece_size, level, i);
    }
    if f.file.length > piece_size {
        lemma_dict_insert_get(
            before,
            f.root(),
            BencodeView::Bytes(f.merkle_tree@[level]@),
            files[i].root(),
        );
    }
}

/// Whether two records say the same of their file: the same file, the same
/// padding, and the same digests in every buffer.
pub open spec fn same_record(a: FileMetadata, b: FileMetadata) -> bool {
    &&& a.file == b.file
    &&& a.padding == b.padding
    &&& a.hash_v1@ == b.hash_v1@
    &&& a.merkle_tree@.len() == b.merkle_tree@.len()
    &&& forall|l: int|
        0 <= l < a.merkle_tree@.len() ==> (#[trigger] a.merkle_tree@[l])@ == b.merkle_tree@[l]@
}

/// What hashing leaves in the buffers of a file is decided by the file's
/// contents, the piece size and the file's place in the list alone: two
/// records of the file that are both hashed from the same contents hold
/// the same digests, however the work was cut up and in whatever order it
/// was done.
pub proof fn lemma_buffers_determined(
    a: FileMetadata,
    b: FileMetadata,
    data: Seq<u8>,
    piece_size: u64,
)
    requires
        is_piece_size(piece_size),
        a.wf(piece_size),
        b.wf(piece_size),
        a.file == b.file,
        a.is_last_data_file == b.is_last_data_file,
        a.hashed(data, piece_size),
        b.hashed(data, piece_size),
        a.tree_complete(),
        b.tree_complete(),
    ensures
        same_record(a, b),
{
    lemma_slots_unique(a.hash_v1@, b.hash_v1@, 20);
    if a.file.length > 0 {
        lemma_slots_unique(a.merkle_tree@[0]@, b.merkle_tree@[0]@, 32);
        assert forall|l: int| 0 <= l < a.merkle_tree@.len() implies (#[trigger] a.merkle_tree@[l])@
            == b.merkle_tree@[l]@ by {
            let x = a.merkle_tree@[l]@;
            let y = b.merkle_tree@[l]@;
            assert(slots(x, 32) == slots(y, 32));
            assert(slots(x, 32).len() == x.len() / 32);
            assert(slots(y, 32).len() == y.len() / 32);
            lemma_slots_unique(x, y, 32);
        }
    }
}

/// The digests of all pieces depend on the records as far as
/// `same_record` goes.
proof fn lemma_same_pieces(a: Seq<FileMetadata>, b: Seq<FileMetadata>, n: nat)
    requires
        a.len() == b.len(),
        forall|i: int| 0 <= i < a.len() ==> same_record(#[trigger] a[i], b[i]),
    ensures
        pieces_view(a, n) == pieces_view(b, n),
    decreases n,
{
    if n > 0 && n <= a.len() {
        lemma_same_pieces(a, b, (n - 1) as nat);
        assert(same_record(a[n - 1], b[n - 1]));
    }
}

/// The `files` list depends on the records as far as `same_record` goes.
proof fn lemma_same_files(a: Seq<FileMetadata>, b: Seq<FileMetadata>, n: nat)
    requires
        a.len() == b.len(),
        forall|i: int| 0 <= i < a.len() ==> same_record(#[trigger] a[i], b[i]),
    ensures
        files_view(a, n) == files_view(b, n),
    decreases n,
{
    if n > 0 && n <= a.len() {
        lemma_same_files(a, b, (n - 1) as nat);
        assert(same_record(a[n - 1], b[n - 1]));
    }
}

/// The file tree depends on the records as far as `same_record` goes.
proof fn lemma_same_file_tree(a: Seq<FileMetadata>, b: Seq<FileMetadata>, n: nat, strip: int)
    requires
        a.len() == b.len(),
        forall|i: int| 0 <= i < a.len() ==> same_record(#[trigger] a[i], b[i]),
    ensures
        file_tree_view(a, n, strip) == file_tree_view(b, n, strip),
    decreases n,
{
    if n > 0 && n <= a.len() {
        lemma_same_file_tree(a, b, (n - 1) as nat, strip);
        assert(same_record(a[n - 1], b[n - 1]));
        if a[n - 1].merkle_tree@.len() > 0 {
            let top = a[n - 1].merkle_tree@.len() - 1;
            assert(a[n - 1].merkle_tree@[top]@ == b[n - 1].merkle_tree@[top]@);
        }
    }
}

/// The piece layers depend on the records as far as `same_record` goes.
proof fn lemma_same_piece_layers(
    a: Seq<FileMetadata>,
    b: Seq<FileMetadata>,
    n: nat,
    piece_size: u64,
    level: int,
)
    requires
        a.len() == b.len(),
        forall|i: int| 0 <= i < a.len() ==> same_record(#[trigger] a[i], b[i]),
        0 <= level,
        forall|i: int|
            0 <= i < a.len() && (#[trigger] a[i]).file.length > piece_size ==> level
                < a[i].merkle_tree@.len(),
    ensures
        piece_layers_view(a, n, piece_size, level) == piece_layers_view(b, n, piece_size, level),
    decreases n,
{
    if n > 0 && n <= a.len() {
        lemma_same_piece_layers(a, b, (n - 1) as nat, piece_size, level);
        assert(same_record(a[n - 1], b[n - 1]));
        if a[n - 1].merkle_tree@.len() > 0 {
            let top = a[n - 1].merkle_tree@.len() - 1;
            assert(a[n - 1].merkle_tree@[top]@ == b[n - 1].merkle_tree@[top]@);
        }
        if a[n - 1].file.length > piece_size {
            assert(a[n - 1].merkle_tree@[level]@ == b[n - 1].merkle_tree@[level]@);
        }
    }
}

/// What is written depends on the torrent as it was set up, the contents
/// of the files and the two flags alone: two torrents over the same files,
/// with the same trackers and piece size, both hashed from the same
/// contents, give the same metainfo dictionary. How many workers hashed,
/// and in what order they stored their digests, makes no difference.
pub proof fn lemma_torrent_determined(
    a: TorrentMetadata,
    b: TorrentMetadata,
    contents: Seq<Vec<u8>>,
    write_v1: bool,
    write_v2: bool,
)
    requires
        a.wf(),
        b.wf(),
        a.same_torrent(&b),
        a.hashed(contents),
        b.hashed(contents),
    ensures
        a.files@.len() == b.files@.len(),
        forall|i: int| 0 <= i < a.files@.len() ==> same_record(#[trigger] a.files@[i], b.files@[i]),
        a.torrent_view(write_v1, write_v2) == b.torrent_view(write_v1, write_v2),
{
    a.lemma_config_ok();
    b.lemma_config_ok();
    assert(a.files@.len() == b.files@.len()) by {
        assert(a.data_files().len() == b.data_files().len());
    }
    let n = a.files@.len();
    assert forall|i: int| 0 <= i < n implies same_record(#[trigger] a.files@[i], b.files@[i]) by {
        a.lemma_file_ok(i);
        b.lemma_file_ok(i);
        assert(a.data_files()[i] == a.files@[i].file);
        assert(b.data_files()[i] == b.files@[i].file);
        lemma_buffers_determined(a.files@[i], b.files@[i], contents[i]@, a.piece_size);
    }
    assert forall|i: int|
        0 <= i < n && (#[trigger] a.files@[i]).file.length > a.piece_size implies (a.piece_level
        as int) < a.files@[i].merkle_tree@.len() by {
        a.lemma_file_ok(i);
        crate::torrent_meta_v2::lemma_piece_layer(a.files@[i], a.piece_size);
    }
    lemma_same_pieces(a.files@, b.files@, n);
    lemma_same_files(a.files@, b.files@, n);
    lemma_same_piece_layers(a.files@, b.files@, n, a.piece_size, a.piece_level as int);
    assert(same_record(a.files@[0], b.files@[0]));
    assert(a.strip() == b.strip()) by {
        if a.strip() == 1 {
            assert forall|i: int| 0 <= i < n implies (#[trigger] b.files@[i]).file.path_components@.len()
                > 1 by {
                assert(same_record(a.files@[i], b.files@[i]));
            }
        }
        if b.strip() == 1 {
            assert forall|i: int| 0 <= i < n implies (#[trigger] a.files@[i]).file.path_components@.len()
                > 1 by {
                assert(same_record(a.files@[i], b.files@[i]));
            }
        }
    }
    lemma_same_file_tree(a.files@, b.files@, n, a.strip());
}

/// The jobs of a file lie apart: a job ends, in pieces and in leaves, no
/// later than any job after it begins. So the digests of two jobs land in
/// slots of their own, and it makes no difference which are stored first.
pub proof fn lemma_jobs_apart(
    data: Seq<u8>,
    file: usize,
    length: u64,
    piece_size: u64,
    is_last: bool,
    j1: int,
    j2: int,
)
    requires
        is_piece_size(piece_size),
        length > 0,
        data.len() == length,
        0 <= j1 < j2 < job_count(length as nat),
    ensures
        planned_first_piece(length, piece_size, j1) + planned_job(
            file,
            length,
            piece_size,
            is_last,
            j1,
        ).v1_pieces <= planned_first_piece(length, piece_size, j2),
        planned_first_leaf(length, piece_size, j1) + planned_job(
            file,
            length,
            piece_size,
            is_last,
            j1,
        ).v2_pieces <= planned_first_leaf(length, piece_size, j2),
    decreases j2 - j1,
{
    lemma_job_digests(data, file, length, piece_size, is_last, j1);
    if j1 + 1 < j2 {
        lemma_job_digests(data, file, length, piece_size, is_last, j1 + 1);
        lemma_jobs_apart(data, file, length, piece_size, is_last, j1 + 1, j2);
    }
}

} // verus!
