//! The `file tree` of a version 2 torrent: nested dictionaries that follow
//! the paths of the files, each file a dictionary under the empty key.

use crate::bencode::{
    dict_get, dict_insert, lemma_insert_after_remove, BencodeDict, BencodeValue,
    BencodeView,
};
use crate::metainfo::{key, key_bytes, Entries};
use vstd::prelude::*;
use vstd::utf8::encode_utf8;

verus! {

/// The names of a path as dictionary keys.
pub open spec fn names(components: Seq<String>) -> Seq<Seq<u8>> {
    Seq::new(components.len(), |i: int| encode_utf8(components[i]@))
}

/// What a file tree says of one file: its length and, unless it is empty,
/// the root of its Merkle tree.
pub open spec fn leaf_entry(length: u64, root: Seq<u8>) -> BencodeView {
    let with_length = dict_insert(Seq::empty(), key("length"), BencodeView::Integer(length as i64));
    BencodeView::Dict(
        if length != 0 {
            dict_insert(with_length, key("pieces root"), BencodeView::Bytes(root))
        } else {
            with_length
        },
    )
}

/// The directory that `tree` holds under `name`: empty if it holds none.
pub open spec fn subtree(tree: Entries, name: Seq<u8>) -> Entries {
    match dict_get(tree, name) {
        Some(BencodeView::Dict(below)) => below,
        _ => Seq::empty(),
    }
}

/// `tree` with `leaf` put at the end of `path`: under the empty key of the
/// directory that the names of `path` lead to, one after the other. A
/// directory on the way that is not there yet is made.
pub open spec fn tree_insert(tree: Entries, path: Seq<Seq<u8>>, leaf: BencodeView) -> Entries
    decreases path.len(),
{
    if path.len() == 0 {
        dict_insert(tree, Seq::empty(), leaf)
    } else {
        dict_insert(
            tree,
            path[0],
            BencodeView::Dict(tree_insert(subtree(tree, path[0]), path.drop_first(), leaf)),
        )
    }
}

/// Puts `leaf` into `tree` at the end of the path `components[from..]`.
pub fn put_file(tree: &mut BencodeDict, components: &Vec<String>, from: usize, leaf: BencodeValue)
    requires
        from <= components@.len(),
    ensures
        final(tree)@ == tree_insert(old(tree)@, names(components@).skip(from as int), leaf@),
    decreases components@.len() - from,
{
    let ghost path = names(components@).skip(from as int);
    if from >= components.len() {
        tree.put(Vec::new(), leaf);
    } else {
        let name = key_bytes(components[from].as_str());
        assert(name@ == path[0]);
        assert(path.drop_first() =~= names(components@).skip(from + 1));
        let mut below = match tree.remove(name.as_slice()) {
            Some(BencodeValue::Dict(found)) => found,
            _ => BencodeDict::new(),
        };
        assert(below@ == subtree(old(tree)@, path[0]));
        put_file(&mut below, components, from + 1, leaf);
        proof {
            lemma_insert_after_remove(old(tree)@, path[0], BencodeView::Dict(below@));
        }
        tree.put(name, BencodeValue::Dict(below));
    }
}

/// What a file tree says of one file.
pub fn leaf_entry_value(length: u64, root: &[u8]) -> (value: BencodeValue)
    requires
        length <= i64::MAX,
    ensures
        value@ == leaf_entry(length, root@),
{
    let mut inner = BencodeDict::new();
    inner.put(key_bytes("length"), BencodeValue::Integer(length as i64));
    if length != 0 {
        inner.put(
            key_bytes("pieces root"),
            BencodeValue::Bytes(vstd::slice::slice_to_vec(root)),
        );
    }
    BencodeValue::Dict(inner)
}

} // verus!
