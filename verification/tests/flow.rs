use std::path::PathBuf;

use git_wasip2::commit::TreeFile;
use git_wasip2::error::CommitError;
use git_wasip2::flow::{begin_directory_commit, begin_snapshot_commit};
use git_wasip2::request::{DirectoryCommitRequest, SnapshotCommitRequest};
use git_wasip2::source::{SourceEntry, SourceKind};

const PARENT: &str = "0123456789abcdef0123456789abcdef01234567";

fn directory_request(root_entry: &str, parent: &str) -> DirectoryCommitRequest {
    DirectoryCommitRequest {
        repository: PathBuf::from("repository"),
        parent: parent.to_owned(),
        source_directory: PathBuf::from("data"),
        root_entry: root_entry.to_owned(),
        candidate_ref: "refs/git-wasip2/candidate".to_owned(),
        committed_at_unix: 1_784_160_000,
        author_name: "git-wasip2".to_owned(),
        author_email: "sync@git-wasip2.invalid".to_owned(),
        message: "test: update data".to_owned(),
    }
}

fn snapshot_request(candidate_ref: &str) -> SnapshotCommitRequest {
    SnapshotCommitRequest {
        repository: PathBuf::from("repository"),
        parent: PARENT.to_owned(),
        source_directory: PathBuf::from("worktree"),
        candidate_ref: candidate_ref.to_owned(),
        committed_at_unix: 1_784_160_000,
        author_name: "git-wasip2".to_owned(),
        author_email: "test@git-wasip2.invalid".to_owned(),
        message: "test: snapshot".to_owned(),
    }
}

fn file_entry(name: &str) -> SourceEntry {
    SourceEntry { components: vec![name.as_bytes().to_vec()], kind: SourceKind::File }
}

#[test]
fn directory_course_writes_the_requested_commit() {
    let validated = begin_directory_commit(&directory_request("data", PARENT)).expect("valid");
    let resolved = validated.resolve_parent().expect("parent");
    assert_eq!(resolved.parent_id()[0], 0x01);
    assert_eq!(resolved.root_entry().map(String::as_str), Some("data"));
    let planned = resolved
        .plan(SourceKind::Directory, vec![file_entry("item.toml")])
        .expect("planned");
    assert_eq!(planned.files(), &["item.toml"]);
    let ready = planned.decide(Some(vec![1; 20]), vec![2; 20]).expect("changed");
    assert_eq!(ready.candidate_ref(), "refs/git-wasip2/candidate");
    assert_eq!(ready.author_name(), "git-wasip2");
    assert_eq!(ready.author_email(), "sync@git-wasip2.invalid");
    assert_eq!(ready.message(), "test: update data");
    assert_eq!(ready.time(), "1784160000 +0000");
    assert_eq!(ready.new_tree(), &vec![2; 20]);
    assert_eq!(ready.root_entry().map(String::as_str), Some("data"));
    let outcome = ready
        .finish_directory("commit".to_owned(), "tree".to_owned(), "entry".to_owned())
        .expect("directory outcome");
    assert_eq!(outcome.changed_paths, ["data/item.toml"]);
    assert_eq!(outcome.entry_tree, "entry");
}

#[test]
fn unchanged_entry_ends_the_course_without_a_commit() {
    let planned = begin_directory_commit(&directory_request("data", PARENT))
        .expect("valid")
        .resolve_parent()
        .expect("parent")
        .plan(SourceKind::Directory, vec![])
        .expect("planned");
    assert!(planned.decide(Some(vec![3; 20]), vec![3; 20]).is_none());
    let planned = begin_directory_commit(&directory_request("data", PARENT))
        .expect("valid")
        .resolve_parent()
        .expect("parent")
        .plan(SourceKind::Directory, vec![])
        .expect("planned");
    assert!(planned.decide(None, vec![3; 20]).is_some());
}

#[test]
fn course_stops_at_the_first_refusal() {
    assert!(matches!(
        begin_directory_commit(&directory_request("..", PARENT)),
        Err(CommitError::RootEntry(_))
    ));
    assert!(matches!(
        begin_directory_commit(&directory_request("data", "not-an-id")).expect("valid").resolve_parent(),
        Err(CommitError::Git(_))
    ));
    assert!(matches!(
        begin_snapshot_commit(&snapshot_request("refs/heads/main")),
        Err(CommitError::CandidateRef(_))
    ));
    let resolved = begin_snapshot_commit(&snapshot_request("refs/git-wasip2/candidate"))
        .expect("valid")
        .resolve_parent()
        .expect("parent");
    assert!(matches!(
        resolved.plan(SourceKind::Directory, vec![file_entry(".git")]),
        Err(CommitError::GitMetadata(_))
    ));
}

#[test]
fn snapshot_course_reports_changed_paths() {
    let ready = begin_snapshot_commit(&snapshot_request("refs/git-wasip2/candidate"))
        .expect("valid")
        .resolve_parent()
        .expect("parent")
        .plan(SourceKind::Directory, vec![file_entry("added.txt")])
        .expect("planned")
        .decide(Some(vec![1; 20]), vec![2; 20])
        .expect("changed");
    assert!(ready.root_entry().is_none());
    let before = vec![TreeFile { path: "deleted.txt".to_owned(), id: vec![4; 20], mode: 0o100644 }];
    let after = vec![TreeFile { path: "added.txt".to_owned(), id: vec![5; 20], mode: 0o100644 }];
    let outcome = ready
        .finish_snapshot("commit".to_owned(), "tree".to_owned(), &before, &after)
        .expect("snapshot outcome");
    assert_eq!(outcome.changed_paths, ["added.txt", "deleted.txt"]);
    assert_eq!(outcome.commit, "commit");
}

#[test]
fn finishing_as_the_other_kind_gives_nothing() {
    let ready = begin_snapshot_commit(&snapshot_request("refs/git-wasip2/candidate"))
        .expect("valid")
        .resolve_parent()
        .expect("parent")
        .plan(SourceKind::Directory, vec![])
        .expect("planned")
        .decide(None, vec![2; 20])
        .expect("changed");
    assert!(ready.finish_directory("c".to_owned(), "t".to_owned(), "e".to_owned()).is_none());
}

#[test]
fn directory_commits_refuse_git_metadata_only_at_the_top_level() {
    let nested = || {
        vec![
            SourceEntry { components: vec![b"sub".to_vec()], kind: SourceKind::Directory },
            SourceEntry { components: vec![b"sub".to_vec(), b".git".to_vec()], kind: SourceKind::File },
        ]
    };
    let directory = begin_directory_commit(&directory_request("data", PARENT))
        .expect("valid")
        .resolve_parent()
        .expect("parent");
    assert_eq!(directory.metadata_scope(), git_wasip2::source::MetadataScope::TopLevel);
    let planned = directory.plan(SourceKind::Directory, nested()).expect("nested metadata committed");
    assert_eq!(planned.files(), &["sub/.git"]);
    let snapshot = begin_snapshot_commit(&snapshot_request("refs/git-wasip2/candidate"))
        .expect("valid")
        .resolve_parent()
        .expect("parent");
    assert_eq!(snapshot.metadata_scope(), git_wasip2::source::MetadataScope::AnyDepth);
    assert!(matches!(
        snapshot.plan(SourceKind::Directory, nested()),
        Err(CommitError::GitMetadata(p)) if p == b"sub/.git".to_vec()
    ));
}
