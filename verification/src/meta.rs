//! What the download logic reads of a torrent's description.

use crate::scheduler::piece_len_at;

use vstd::prelude::*;

verus! {

/// One file of a torrent.
pub struct FileEntry {
    /// Length of every piece but the last.
    pub piece_length: u32,
    /// Length of the last piece.
    pub last_piece_length: u32,
    /// Expected root over the block digests of every piece.
    pub piece_hashes: Vec<[u8; 32]>,
}

/// A torrent.
pub struct Metainfo {
    pub info_hash: [u8; 32],
    pub files: Vec<FileEntry>,
}

impl FileEntry {
    /// Length in bytes of piece `pi`.
    pub open spec fn spec_piece_len(&self, pi: int) -> u32 {
        piece_len_at(self.piece_hashes@.len(), self.piece_length, self.last_piece_length, pi)
    }

    /// Length in bytes of piece `pi`: only the last one may be short.
    pub fn piece_len(&self, pi: u32) -> (len: u32)
        ensures
            len == self.spec_piece_len(pi as int),
            pi + 1 == self.piece_hashes@.len() ==> len == self.last_piece_length,
            pi + 1 != self.piece_hashes@.len() ==> len == self.piece_length,
    {
        if self.piece_hashes.len() > 0 && pi as usize == self.piece_hashes.len() - 1 {
            self.last_piece_length
        } else {
            self.piece_length
        }
    }
}

} // verus!
