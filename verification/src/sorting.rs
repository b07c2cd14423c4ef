//! The order in which a torrent lists its files: by their paths, name by
//! name, each name compared as a byte string.

use crate::bytestring::{
    compare_bytes, lemma_lex_irreflexive, lemma_lex_total, lemma_lex_transitive, lex_less, Place,
};
use crate::dirwalker::{DataFile, WalkedDir};
use crate::file_tree::names;
use std::cmp::Ordering;
use vstd::prelude::*;

verus! {

/// Whether path `a` comes strictly before path `b`: at the first name
/// where they differ `a` holds the smaller name, or `a` is a proper prefix
/// of `b`.
pub open spec fn path_less(a: Seq<Seq<u8>>, b: Seq<Seq<u8>>) -> bool
    decreases a.len(),
{
    if b.len() == 0 {
        false
    } else if a.len() == 0 {
        true
    } else if a[0] != b[0] {
        lex_less(a[0], b[0])
    } else {
        path_less(a.drop_first(), b.drop_first())
    }
}

/// The path of a file as compared.
pub open spec fn path_of(file: DataFile) -> Seq<Seq<u8>> {
    names(file.path_components@)
}

/// Whether no file comes before a file that stands earlier in the list.
pub open spec fn paths_sorted(files: Seq<DataFile>) -> bool {
    forall|i: int, j: int|
        0 <= i < j < files.len() ==> !path_less(
            path_of(#[trigger] files[j]),
            path_of(#[trigger] files[i]),
        )
}

/// Of two paths exactly one holds: the first comes before the second, they
/// are equal, or the second comes before the first.
pub proof fn lemma_path_total(a: Seq<Seq<u8>>, b: Seq<Seq<u8>>)
    ensures
        path_less(a, b) || a == b || path_less(b, a),
        !(path_less(a, b) && path_less(b, a)),
        !(path_less(a, b) && a == b),
    decreases a.len(),
{
    if a.len() == 0 || b.len() == 0 {
        if a.len() == 0 && b.len() == 0 {
            assert(a =~= b);
        }
    } else if a[0] == b[0] {
        lemma_path_total(a.drop_first(), b.drop_first());
        if a.drop_first() == b.drop_first() {
            assert(a =~= seq![a[0]] + a.drop_first());
            assert(b =~= seq![b[0]] + b.drop_first());
        }
    } else {
        lemma_lex_total(a[0], b[0]);
    }
}

/// The order of paths is transitive.
pub proof fn lemma_path_transitive(a: Seq<Seq<u8>>, b: Seq<Seq<u8>>, c: Seq<Seq<u8>>)
    requires
        path_less(a, b),
        path_less(b, c),
    ensures
        path_less(a, c),
    decreases a.len(),
{
    if a.len() > 0 {
        if a[0] == b[0] && b[0] == c[0] {
            lemma_path_transitive(a.drop_first(), b.drop_first(), c.drop_first());
        } else if a[0] == b[0] {
        } else if b[0] == c[0] {
        } else {
            lemma_lex_transitive(a[0], b[0], c[0]);
            lemma_lex_irreflexive(a[0]);
        }
    }
}

/// Compares two paths.
pub fn compare_paths(a: &Vec<String>, b: &Vec<String>) -> (place: Place)
    ensures
        place == Place::Before <==> path_less(names(a@), names(b@)),
        place == Place::Same <==> names(a@) == names(b@),
        place == Place::After <==> path_less(names(b@), names(a@)),
{
    let ghost pa = names(a@);
    let ghost pb = names(b@);
    let n: usize = if a.len() < b.len() {
        a.len()
    } else {
        b.len()
    };
    let mut i: usize = 0;
    proof {
        assert(pa.skip(0) =~= pa);
        assert(pb.skip(0) =~= pb);
    }
    while i < n
        invariant
            pa == names(a@),
            pb == names(b@),
            i <= n,
            n <= pa.len(),
            n <= pb.len(),
            n == pa.len() || n == pb.len(),
            pa.take(i as int) == pb.take(i as int),
            path_less(pa, pb) == path_less(pa.skip(i as int), pb.skip(i as int)),
            path_less(pb, pa) == path_less(pb.skip(i as int), pa.skip(i as int)),
        decreases n - i,
    {
        proof {
            assert(pa.skip(i as int).drop_first() =~= pa.skip(i + 1));
            assert(pb.skip(i as int).drop_first() =~= pb.skip(i + 1));
            assert(pa.skip(i as int)[0] == pa[i as int]);
            assert(pb.skip(i as int)[0] == pb[i as int]);
            lemma_lex_total(pa[i as int], pb[i as int]);
            lemma_path_total(pa, pb);
        }
        match compare_bytes(a[i].as_str().as_bytes(), b[i].as_str().as_bytes()) {
            Place::Before => {
                return Place::Before;
            },
            Place::After => {
                return Place::After;
            },
            Place::Same => {},
        }
        proof {
            assert(pa.take(i + 1) =~= pa.take(i as int).push(pa[i as int]));
            assert(pb.take(i + 1) =~= pb.take(i as int).push(pb[i as int]));
        }
        i += 1;
    }
    proof {
        lemma_path_total(pa, pb);
        if pa.len() == pb.len() {
            assert(pa =~= pa.take(n as int));
            assert(pb =~= pb.take(n as int));
        }
    }
    if a.len() < b.len() {
        Place::Before
    } else if a.len() > b.len() {
        Place::After
    } else {
        Place::Same
    }
}

/// Compares two files by their paths.
pub fn path_order(a: &DataFile, b: &DataFile) -> (order: Ordering)
    ensures
        order == Ordering::Less <==> path_less(path_of(*a), path_of(*b)),
        order == Ordering::Equal <==> path_of(*a) == path_of(*b),
        order == Ordering::Greater <==> path_less(path_of(*b), path_of(*a)),
{
    match compare_paths(&a.path_components, &b.path_components) {
        Place::Before => Ordering::Less,
        Place::Same => Ordering::Equal,
        Place::After => Ordering::Greater,
    }
}

/// Calls `sort_by` of std's slices with `path_order` as the comparison.
/// Trusted: the call rearranges the files, dropping and adding none, so
/// that no file comes before one that stands earlier in the list. (The
/// comparison is a total order, as std asks: see `lemma_path_total` and
/// `lemma_path_transitive`.)
#[verifier::external_body]
pub(crate) fn sort_files(files: &mut Vec<DataFile>)
    ensures
        final(files)@.to_multiset() == old(files)@.to_multiset(),
        paths_sorted(final(files)@),
{
    files.sort_by(|a, b| path_order(a, b));
}

impl WalkedDir {
    /// Puts the files in the order of their paths.
    pub fn sort(&mut self)
        ensures
            final(self).files@.to_multiset() == old(self).files@.to_multiset(),
            paths_sorted(final(self).files@),
    {
        sort_files(&mut self.files);
    }
}

} // verus!
