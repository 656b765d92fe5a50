use vstd::prelude::*;

verus! {

/// Why a candidate commit could not be created.
///
/// Paths are relative to the source directory, as raw bytes, with `/`
/// between components; the empty path names the source directory itself.
/// Failures to read the file system are reported by the caller that reads it.
#[derive(Clone, Debug)]
pub enum CommitError {
    /// A failure reported by the Git object layer, already described.
    Git(String),
    /// The candidate reference is not an internal reference: it lies outside
    /// `refs/` or inside `refs/heads/`.
    CandidateRef(String),
    /// The author name or e-mail address is empty.
    EmptyIdentity,
    /// The root tree entry to replace is not a single path component.
    RootEntry(String),
    /// The source directory is not a real directory.
    NotADirectory(Vec<u8>),
    /// The source directory holds Git metadata: an entry named `.git`.
    GitMetadata(Vec<u8>),
    /// The source directory holds a symbolic link.
    SymbolicLink(Vec<u8>),
    /// The source directory holds something that is neither a file nor a directory.
    UnsupportedEntry(Vec<u8>),
    /// The relative path of a file is not valid UTF-8.
    NonUtf8Path(Vec<u8>),
}

} // verus!
