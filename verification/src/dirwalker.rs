//! The files of a torrent, as found on disk.

use crate::blocks::block_count;
use vstd::prelude::*;

verus! {

/// One regular file.
#[derive(Clone, Debug)]
pub struct DataFile {
    /// Where the file lies on disk. Carried along for those who read the
    /// file; nothing here looks into it.
    pub path: String,
    /// The names on the way to the file, the first of them the name of the
    /// torrent.
    pub path_components: Vec<String>,
    /// The size of the file in bytes.
    pub length: u64,
}

/// The files of a torrent, in the order in which the torrent lists them.
#[derive(Clone, Debug)]
pub struct WalkedDir {
    pub files: Vec<DataFile>,
}

/// The lengths of the first `n` files, added up.
pub open spec fn total_length(files: Seq<DataFile>, n: nat) -> nat
    decreases n,
{
    if n == 0 || n > files.len() {
        0
    } else {
        total_length(files, (n - 1) as nat) + files[n - 1].length as nat
    }
}

/// Index of the last file that holds data, or -1 if every file is empty.
pub open spec fn last_data_file(files: Seq<DataFile>, n: nat) -> int
    decreases n,
{
    if n == 0 || n > files.len() {
        -1
    } else if files[n - 1].length > 0 {
        n - 1
    } else {
        last_data_file(files, (n - 1) as nat)
    }
}

/// Whether a file has a path, and no empty name in it.
pub open spec fn path_ok(file: DataFile) -> bool {
    &&& file.path_components@.len() >= 1
    &&& forall|i: int|
        0 <= i < file.path_components@.len() ==> (#[trigger] file.path_components@[i])@.len() > 0
}

/// Whether two files lie under the same root: their paths start with the
/// same name.
pub open spec fn same_root(a: DataFile, b: DataFile) -> bool {
    a.path_components@[0]@ == b.path_components@[0]@
}

/// Whether the length of a file can be written as a bencode integer, and
/// its leaf hashes fit in one buffer.
pub open spec fn size_ok(file: DataFile) -> bool {
    &&& file.length <= i64::MAX
    &&& 32 * block_count(file.length as nat, 16384) <= usize::MAX
}

/// Tests whether every file satisfies `path_ok`.
pub fn check_paths(files: &Vec<DataFile>) -> (ok: bool)
    ensures
        ok == forall|i: int| 0 <= i < files@.len() ==> path_ok(#[trigger] files@[i]),
{
    let mut i: usize = 0;
    while i < files.len()
        invariant
            i <= files@.len(),
            forall|k: int| 0 <= k < i ==> path_ok(#[trigger] files@[k]),
        decreases files@.len() - i,
    {
        let names = &files[i].path_components;
        if names.len() == 0 {
            assert(!path_ok(files@[i as int]));
            return false;
        }
        let mut j: usize = 0;
        while j < names.len()
            invariant
                j <= names@.len(),
                i < files@.len(),
                *names == files@[i as int].path_components,
                forall|k: int| 0 <= k < j ==> (#[trigger] names@[k])@.len() > 0,
            decreases names@.len() - j,
        {
            if names[j].as_str().is_empty() {
                assert(files@[i as int].path_components@[j as int]@.len() == 0);
                assert(!path_ok(files@[i as int]));
                return false;
            }
            j += 1;
        }
        i += 1;
    }
    true
}

/// Tests whether every file lies under the root of the first.
pub fn check_roots(files: &Vec<DataFile>) -> (ok: bool)
    requires
        forall|i: int| 0 <= i < files@.len() ==> path_ok(#[trigger] files@[i]),
    ensures
        ok == forall|i: int| 0 <= i < files@.len() ==> same_root(files@[0], #[trigger] files@[i]),
{
    let mut i: usize = 1;
    while i < files.len()
        invariant
            1 <= i,
            forall|k: int| 0 <= k < files@.len() ==> path_ok(#[trigger] files@[k]),
            forall|k: int| 0 <= k < i && k < files@.len() ==> same_root(
                files@[0],
                #[trigger] files@[k],
            ),
        decreases files@.len() - i,
    {
        assert(path_ok(files@[0]) && path_ok(files@[i as int]));
        if files[0].path_components[0] != files[i].path_components[0] {
            assert(!same_root(files@[0], files@[i as int]));
            return false;
        }
        i += 1;
    }
    true
}

/// Adds up the lengths of the files. Yields nothing if a file fails
/// `size_ok` or the sum does not fit in 64 bits.
pub fn total_size(files: &Vec<DataFile>) -> (total: Option<u64>)
    ensures
        total is Some <==> (forall|i: int| 0 <= i < files@.len() ==> size_ok(#[trigger] files@[i]))
            && total_length(files@, files@.len()) <= u64::MAX,
        total matches Some(sum) ==> sum == total_length(files@, files@.len()),
{
    let mut sum: u64 = 0;
    let mut i: usize = 0;
    while i < files.len()
        invariant
            i <= files@.len(),
            sum == total_length(files@, i as nat),
            forall|k: int| 0 <= k < i ==> size_ok(#[trigger] files@[k]),
        decreases files@.len() - i,
    {
        let length: u64 = files[i].length;
        if length > 0x7fff_ffff_ffff_ffff {
            assert(!size_ok(files@[i as int]));
            return None;
        }
        let leaves: u64 = if length == 0 {
            0
        } else {
            (length - 1) / 16384 + 1
        };
        if leaves * 32 > usize::MAX as u64 {
            assert(!size_ok(files@[i as int]));
            return None;
        }
        match sum.checked_add(length) {
            Some(next) => {
                sum = next;
            },
            None => {
                proof {
                    lemma_total_length_grows(files@, (i + 1) as nat, files@.len());
                }
                return None;
            },
        }
        i += 1;
    }
    Some(sum)
}

/// The sum of the lengths grows with the number of files counted.
pub proof fn lemma_total_length_grows(files: Seq<DataFile>, a: nat, b: nat)
    requires
        a <= b <= files.len(),
    ensures
        total_length(files, a) <= total_length(files, b),
    decreases b,
{
    if a < b {
        lemma_total_length_grows(files, a, (b - 1) as nat);
    }
}

/// Whether `contents` holds data of the length of file `i`.
pub open spec fn fits_at(files: Seq<DataFile>, contents: Seq<Vec<u8>>, i: int) -> bool {
    i < contents.len() && contents[i]@.len() == files[i].length
}

/// Whether `contents` holds, for each of the first `n` files, data of the
/// file's length.
pub open spec fn data_fits(files: Seq<DataFile>, contents: Seq<Vec<u8>>, n: int) -> bool {
    forall|i: int| 0 <= i < n ==> #[trigger] fits_at(files, contents, i)
}

/// Whether `i` is where `contents` first fails to hold the data of the
/// files: the index of the first file for which data is missing or of
/// another length than the file, or, if there is no such file, the index
/// after the last file, for which there is data but no file.
pub open spec fn first_misfit(files: Seq<DataFile>, contents: Seq<Vec<u8>>, i: int) -> bool {
    &&& 0 <= i <= files.len()
    &&& data_fits(files, contents, i)
    &&& if i < files.len() {
        !fits_at(files, contents, i)
    } else {
        contents.len() > files.len()
    }
}

/// Tests that `contents` holds the data of every file and no more. Yields
/// the index where it first fails to.
pub fn check_data(files: &Vec<DataFile>, contents: &Vec<Vec<u8>>) -> (fault: Option<usize>)
    ensures
        match fault {
            None => contents@.len() == files@.len() && data_fits(
                files@,
                contents@,
                files@.len() as int,
            ),
            Some(i) => first_misfit(files@, contents@, i as int),
        },
{
    let mut i: usize = 0;
    while i < files.len()
        invariant
            i <= files@.len(),
            data_fits(files@, contents@, i as int),
        decreases files@.len() - i,
    {
        if i >= contents.len() || contents[i].len() as u64 != files[i].length {
            return Some(i);
        }
        assert(fits_at(files@, contents@, i as int));
        i += 1;
    }
    proof {
        if i > 0 {
            assert(fits_at(files@, contents@, i - 1));
        }
    }
    if contents.len() > files.len() {
        Some(i)
    } else {
        None
    }
}

/// At most one index is the first misfit, and there is none where the
/// contents fit the files.
pub proof fn lemma_first_misfit_unique(
    files: Seq<DataFile>,
    contents: Seq<Vec<u8>>,
    i: int,
    j: int,
)
    requires
        first_misfit(files, contents, i),
    ensures
        first_misfit(files, contents, j) ==> i == j,
        !(contents.len() == files.len() && data_fits(files, contents, files.len() as int)),
{
    if first_misfit(files, contents, j) {
        if i < j {
            assert(fits_at(files, contents, i));
        } else if j < i {
            assert(fits_at(files, contents, j));
        }
    }
    if contents.len() == files.len() && data_fits(files, contents, files.len() as int) {
        assert(fits_at(files, contents, i));
    }
}

/// The contents of the first `n` files laid end to end.
pub open spec fn end_to_end(contents: Seq<Vec<u8>>, n: nat) -> Seq<u8>
    decreases n,
{
    if n == 0 || n > contents.len() {
        Seq::empty()
    } else {
        end_to_end(contents, (n - 1) as nat) + contents[n - 1]@
    }
}

} // verus!
