//! The metadata of a torrent, as the typed layer reads it from a bencode
//! dictionary.
use vstd::prelude::*;

verus! {

/// A torrent's metadata.
pub struct Torrent {
    /// Primary tracker URL.
    pub announce: String,
    /// Backup tracker URLs: a list of tiers, each a list of URLs.
    pub announce_list: Option<Vec<Vec<String>>>,
    /// Unix time at which the torrent was created.
    pub creation_date: Option<i64>,
    /// Free-form comment.
    pub comment: Option<String>,
    /// The program that created the torrent.
    pub created_by: Option<String>,
    /// File metadata and piece hashes.
    pub info: Info,
}

/// The info dictionary: file metadata and piece hashes.
pub struct Info {
    /// File or directory name.
    pub name: String,
    /// Number of bytes in each piece.
    pub piece_length: i64,
    /// The SHA-1 hashes of the pieces, 20 bytes each, one after another.
    pub pieces: Vec<u8>,
    /// File size in bytes (single-file torrents only).
    pub length: Option<i64>,
}

} // verus!
