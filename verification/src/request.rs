//! The requests and outcomes of candidate commits.

use std::path::PathBuf;
use vstd::prelude::*;

verus! {

#[verifier::external_type_specification]
#[verifier::external_body]
pub struct ExPathBuf(PathBuf);

/// `PathBuf::clone` from std: copies the path; nothing is stated of the copy.
pub assume_specification[ <PathBuf as Clone>::clone ](path: &PathBuf) -> PathBuf;

/// A request to replace one root tree entry of `parent` with the contents of
/// `source_directory`, as a one-parent commit written to `candidate_ref`.
#[derive(Clone, Debug)]
pub struct DirectoryCommitRequest {
    pub repository: PathBuf,
    pub parent: String,
    pub source_directory: PathBuf,
    pub root_entry: String,
    pub candidate_ref: String,
    pub committed_at_unix: i64,
    pub author_name: String,
    pub author_email: String,
    pub message: String,
}

/// The candidate written for a [`DirectoryCommitRequest`]: its commit, root
/// tree and new entry tree ids in hexadecimal, and every committed file as
/// `root_entry/relative path`, in string order.
#[derive(Clone, Debug, Eq, PartialEq)]
pub struct DirectoryCommit {
    pub commit: String,
    pub tree: String,
    pub entry_tree: String,
    pub changed_paths: Vec<String>,
}

/// A request to commit the complete contents of `source_directory` as the
/// root tree of a one-parent commit written to `candidate_ref`.
#[derive(Clone, Debug)]
pub struct SnapshotCommitRequest {
    pub repository: PathBuf,
    pub parent: String,
    pub source_directory: PathBuf,
    pub candidate_ref: String,
    pub committed_at_unix: i64,
    pub author_name: String,
    pub author_email: String,
    pub message: String,
}

/// The candidate written for a [`SnapshotCommitRequest`]: its commit and root
/// tree ids in hexadecimal, and the paths that differ from the parent.
#[derive(Clone, Debug, Eq, PartialEq)]
pub struct SnapshotCommit {
    pub commit: String,
    pub tree: String,
    pub changed_paths: Vec<String>,
}

} // verus!
