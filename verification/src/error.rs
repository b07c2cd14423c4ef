//! Why a torrent could not be made.

use vstd::prelude::*;

verus! {

/// The three kinds of failure.
#[derive(Clone, Copy, Debug, PartialEq, Eq, Structural)]
pub enum ErrorKind {
    /// The request itself is at fault; nothing was hashed.
    ConfigInvalid,
    /// What was read of a file is not what the file list says of it.
    IoFailure,
    /// The state of the torrent contradicts itself.
    StructuralInvariant,
}

/// A failure, with its cause.
#[derive(Clone, Copy, Debug, PartialEq, Eq, Structural)]
pub enum TorrentError {
    /// The piece size is no power of two between 16 KiB and 2 MiB.
    BadPieceSize,
    /// The file list is empty.
    NoInput,
    /// Neither a tracker nor a node is given.
    NoTracker,
    /// The first tracker tier is empty.
    EmptyTier,
    /// A file has no path components, or an empty one.
    BadPath,
    /// A file does not lie under the torrent's root.
    RootMismatch,
    /// A length does not fit the integers at hand.
    TooLarge,
    /// Neither v1 nor v2 output is asked for.
    NoOutput,
    /// The data handed in for a file has not the file's length, or data is
    /// missing for it. Holds the index of the file.
    DataMismatch(usize),
    /// A job or a digest buffer does not fit the torrent.
    Inconsistent,
}

impl TorrentError {
    /// The kind of failure that this cause belongs to.
    pub open spec fn spec_kind(self) -> ErrorKind {
        match self {
            TorrentError::DataMismatch(_) => ErrorKind::IoFailure,
            TorrentError::Inconsistent => ErrorKind::StructuralInvariant,
            _ => ErrorKind::ConfigInvalid,
        }
    }

    /// The kind of failure that this cause belongs to.
    pub fn kind(&self) -> (kind: ErrorKind)
        ensures
            kind == self.spec_kind(),
    {
        match self {
            TorrentError::DataMismatch(_) => ErrorKind::IoFailure,
            TorrentError::Inconsistent => ErrorKind::StructuralInvariant,
            _ => ErrorKind::ConfigInvalid,
        }
    }
}

} // verus!
