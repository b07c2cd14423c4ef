//! Makes BitTorrent metainfo files: of version 1 of the protocol (BEP 3),
//! of version 2 (BEP 52), or of both at once, with padding files (BEP 47)
//! that let every file begin on a piece boundary.
//!
//! The library hashes and assembles; it reads no file itself. A caller
//! lists the files (`dirwalker`), sets up a torrent (`torrent_meta_v2`, or
//! `torrent_meta` for version 1 without padding), hands over the contents
//! of the files, and gets the metainfo dictionary as a `bencode` value.
//! Large files are cut into jobs (`job`) that can be hashed on as many
//! threads as the caller likes: where the digests of a job land depends on
//! the job alone.
//!
//! SHA-1 and SHA-256 come from the `sha1` and `sha2` crates (`digest`), and
//! sorting from std (`sorting`); everything else is verified, down to the
//! bytes of the encoding.

pub mod bencode;
pub mod blocks;
pub mod bytestring;
pub mod digest;
pub mod dirwalker;
pub mod error;
pub mod file_tree;
pub mod job;
pub mod merkle;
pub mod merkle_laws;
pub mod metainfo;
pub mod options;
pub mod pieces;
pub mod sorting;
pub mod torrent_laws;
pub mod torrent_meta;
pub mod torrent_meta_v2;
