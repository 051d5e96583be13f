//! Candidates for duplicate analysis and the keys they are grouped by.

use vstd::prelude::*;

verus! {

/// A regular, non-empty file found during traversal, with the size that its
/// metadata reported.
#[derive(Clone, Debug, PartialEq, Eq)]
pub struct FileCandidate {
    pub path: String,
    pub size: u64,
}

/// A content digest together with the file size. Files of different sizes
/// have different keys even where their digests coincide.
#[derive(Clone, Copy, Debug, PartialEq, Eq, Structural, Hash)]
pub struct ContentKey {
    pub hash: u64,
    pub size: u64,
}

/// Whether a directory entry is a candidate: it is a regular file, its
/// metadata could be read, and it is not empty.
pub open spec fn admissible(is_file: bool, len: Option<u64>) -> bool {
    is_file && len.is_some() && len.unwrap() > 0
}

/// Turns a directory entry into a candidate, or drops it. `len` is the size
/// from the entry's metadata, `None` where the metadata could not be read.
pub fn consider(path: String, is_file: bool, len: Option<u64>) -> (c: Option<FileCandidate>)
    ensures
        c.is_some() <==> admissible(is_file, len),
        c.is_some() ==> c.unwrap().path == path && c.unwrap().size == len.unwrap(),
{
    if !is_file {
        return None;
    }
    match len {
        Some(size) => {
            if size == 0 {
                None
            } else {
                Some(FileCandidate { path, size })
            }
        },
        None => None,
    }
}

impl ContentKey {
    /// The key as one number: the digest in the upper 64 bits, the size in
    /// the lower.
    pub open spec fn code(self) -> u128 {
        (self.hash * 0x1_0000_0000_0000_0000 + self.size) as u128
    }

    /// The key as one number, for use where a single integer is wanted.
    pub fn packed(&self) -> (code: u128)
        ensures
            code == self.code(),
    {
        let upper: u128 = self.hash as u128 * 0x1_0000_0000_0000_0000u128;
        upper + self.size as u128
    }

    /// Different keys have different codes.
    pub proof fn lemma_code_injective(a: ContentKey, b: ContentKey)
        ensures
            a.code() == b.code() <==> a == b,
    {
    }
}

} // verus!
