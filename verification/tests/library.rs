use std::path::PathBuf;

use git_wasip2::commit::{
    directory_changed_paths, directory_commit, entry_unchanged, parse_parent, snapshot_changed_paths,
    snapshot_commit, TreeFile,
};
use git_wasip2::error::CommitError;
use git_wasip2::order::{compare_bytes, compare_components, sort_texts};
use git_wasip2::request::{DirectoryCommitRequest, SnapshotCommitRequest};
use git_wasip2::source::{
    descends_into, join_components, plan_source_files, MetadataScope, SourceEntry, SourceKind,
};
use git_wasip2::text::commit_time;
use git_wasip2::validate::{
    candidate_and_identity_verdict, git_error, is_internal_ref, is_valid_root_entry,
    validate_candidate_and_identity, validate_request,
};

fn entry(path: &str, kind: SourceKind) -> SourceEntry {
    SourceEntry {
        components: path.split('/').map(|c| c.as_bytes().to_vec()).collect(),
        kind,
    }
}

fn request(candidate_ref: &str, root_entry: &str, name: &str, email: &str) -> DirectoryCommitRequest {
    DirectoryCommitRequest {
        repository: PathBuf::from("repository"),
        parent: "0".repeat(40),
        source_directory: PathBuf::from("data"),
        root_entry: root_entry.to_owned(),
        candidate_ref: candidate_ref.to_owned(),
        committed_at_unix: 1_784_160_000,
        author_name: name.to_owned(),
        author_email: email.to_owned(),
        message: "test: update data".to_owned(),
    }
}

fn file(path: &str, id: u8, mode: u32) -> TreeFile {
    TreeFile { path: path.to_owned(), id: vec![id; 20], mode }
}

#[test]
fn commit_time_is_decimal_seconds_at_utc() {
    assert_eq!(commit_time(1_784_160_000), "1784160000 +0000");
    assert_eq!(commit_time(0), "0 +0000");
    assert_eq!(commit_time(-42), "-42 +0000");
    assert_eq!(commit_time(i64::MIN), format!("{} +0000", i64::MIN));
    assert_eq!(commit_time(i64::MAX), format!("{} +0000", i64::MAX));
}

#[test]
fn internal_refs_lie_in_refs_but_outside_branches() {
    assert!(is_internal_ref("refs/git-wasip2/candidate"));
    assert!(!is_internal_ref("refs/heads/main"));
    assert!(!is_internal_ref("refs/heads/"));
    assert!(!is_internal_ref("heads/main"));
    assert!(!is_internal_ref("refs"));
}

#[test]
fn root_entry_is_a_single_component() {
    assert!(is_valid_root_entry("data"));
    assert!(is_valid_root_entry("..data"));
    assert!(!is_valid_root_entry(""));
    assert!(!is_valid_root_entry("."));
    assert!(!is_valid_root_entry(".."));
    assert!(!is_valid_root_entry("data/item"));
    assert!(!is_valid_root_entry("da\0ta"));
}

#[test]
fn candidate_and_identity_are_checked_in_order() {
    assert!(matches!(
        validate_candidate_and_identity("refs/heads/main", "", ""),
        Err(CommitError::CandidateRef(r)) if r == "refs/heads/main"
    ));
    assert!(matches!(
        validate_candidate_and_identity("refs/git-wasip2/bad..name", "a", "b"),
        Err(CommitError::Git(_))
    ));
    assert!(matches!(
        validate_candidate_and_identity("refs/git-wasip2/candidate", "", "b"),
        Err(CommitError::EmptyIdentity)
    ));
    assert!(matches!(
        validate_candidate_and_identity("refs/git-wasip2/candidate", "a", ""),
        Err(CommitError::EmptyIdentity)
    ));
    assert!(validate_candidate_and_identity("refs/git-wasip2/candidate", "git-wasip2", "sync@git-wasip2.invalid").is_ok());
}

#[test]
fn verdict_reports_the_name_check_of_gix() {
    assert!(matches!(
        candidate_and_identity_verdict("refs/x", "a", "b", Err("described".to_owned())),
        Err(CommitError::Git(d)) if d == "described"
    ));
    assert!(candidate_and_identity_verdict("refs/x", "a", "b", Ok(())).is_ok());
    assert!(matches!(
        candidate_and_identity_verdict("refs/heads/x", "a", "b", Err("described".to_owned())),
        Err(CommitError::CandidateRef(_))
    ));
    assert!(matches!(git_error("detail".to_owned()), CommitError::Git(d) if d == "detail"));
}

#[test]
fn directory_requests_are_validated() {
    assert!(validate_request(&request("refs/git-wasip2/candidate", "data", "git-wasip2", "sync@git-wasip2.invalid")).is_ok());
    assert!(matches!(
        validate_request(&request("refs/git-wasip2/candidate", "data/x", "a", "b")),
        Err(CommitError::RootEntry(e)) if e == "data/x"
    ));
    assert!(matches!(
        validate_request(&request("refs/heads/main", "..", "a", "b")),
        Err(CommitError::CandidateRef(_))
    ));
    assert!(matches!(
        validate_request(&request("refs/git-wasip2/candidate", "data", "", "b")),
        Err(CommitError::EmptyIdentity)
    ));
}

#[test]
fn snapshot_request_keeps_its_fields() {
    let snapshot = SnapshotCommitRequest {
        repository: PathBuf::from("repository"),
        parent: "1".repeat(40),
        source_directory: PathBuf::from("worktree"),
        candidate_ref: "refs/git-wasip2/candidate".to_owned(),
        committed_at_unix: 1_784_160_000,
        author_name: "git-wasip2".to_owned(),
        author_email: "test@git-wasip2.invalid".to_owned(),
        message: "test: snapshot".to_owned(),
    };
    let copy = snapshot.clone();
    assert_eq!(copy.candidate_ref, "refs/git-wasip2/candidate");
    assert_eq!(copy.source_directory, PathBuf::from("worktree"));
}

#[test]
fn parent_ids_are_forty_hex_digits() {
    let id = parse_parent("00112233445566778899aabbccddeeffAABBCCDD").expect("valid id");
    assert_eq!(
        id,
        vec![0x00, 0x11, 0x22, 0x33, 0x44, 0x55, 0x66, 0x77, 0x88, 0x99, 0xaa, 0xbb, 0xcc, 0xdd, 0xee, 0xff, 0xaa, 0xbb, 0xcc, 0xdd]
    );
    assert!(matches!(parse_parent("0011"), Err(CommitError::Git(_))));
    assert!(matches!(parse_parent(&"g".repeat(40)), Err(CommitError::Git(_))));
    assert!(parse_parent(&"0".repeat(64)).is_err());
}

#[test]
fn unchanged_entries_and_trees_are_detected() {
    let id = vec![7u8; 20];
    assert!(entry_unchanged(&Some(id.clone()), &id));
    assert!(!entry_unchanged(&Some(vec![8u8; 20]), &id));
    assert!(!entry_unchanged(&None, &id));
}

#[test]
fn orders_compare_bytes_and_components() {
    assert_eq!(compare_bytes(b"a", b"b"), -1);
    assert_eq!(compare_bytes(b"ab", b"a"), 1);
    assert_eq!(compare_bytes(b"a", b"a"), 0);
    assert_eq!(compare_bytes(b"a-c", b"a/b"), -1);
    let nested = vec![b"a".to_vec(), b"b".to_vec()];
    let sibling = vec![b"a-c".to_vec()];
    assert_eq!(compare_components(&nested, &sibling), -1);
    assert_eq!(
        sort_texts(vec!["b".to_owned(), "a/b".to_owned(), "a-c".to_owned(), "a".to_owned()]),
        ["a", "a-c", "a/b", "b"]
    );
    assert_eq!(join_components(&nested), b"a/b".to_vec());
}

#[test]
fn plan_walks_each_directory_in_name_order() {
    let planned = plan_source_files(
        SourceKind::Directory,
        vec![
            entry("a-c", SourceKind::File),
            entry("b", SourceKind::File),
            entry("a", SourceKind::Directory),
            entry("a/z", SourceKind::File),
            entry("a/y", SourceKind::Directory),
            entry("a/y/x", SourceKind::File),
        ],
        MetadataScope::AnyDepth,
    )
    .expect("accepted");
    assert_eq!(planned, ["a/y/x", "a/z", "a-c", "b"]);
}

#[test]
fn plan_refuses_git_metadata_within_its_scope() {
    for scope in [MetadataScope::TopLevel, MetadataScope::AnyDepth] {
        let refused =
            plan_source_files(SourceKind::Directory, vec![entry(".git", SourceKind::File)], scope);
        assert!(matches!(refused, Err(CommitError::GitMetadata(p)) if p == b".git".to_vec()));
    }
    let nested = || {
        vec![
            entry("sub", SourceKind::Directory),
            entry("sub/.git", SourceKind::Directory),
            entry("sub/.git/HEAD", SourceKind::File),
        ]
    };
    assert!(matches!(
        plan_source_files(SourceKind::Directory, nested(), MetadataScope::AnyDepth),
        Err(CommitError::GitMetadata(p)) if p == b"sub/.git".to_vec()
    ));
    assert_eq!(
        plan_source_files(SourceKind::Directory, nested(), MetadataScope::TopLevel)
            .expect("nested metadata is only refused at any depth"),
        ["sub/.git/HEAD"]
    );
    assert!(descends_into(&entry("sub", SourceKind::Directory), MetadataScope::AnyDepth));
    assert!(!descends_into(&entry("sub/.git", SourceKind::Directory), MetadataScope::AnyDepth));
    assert!(descends_into(&entry("sub/.git", SourceKind::Directory), MetadataScope::TopLevel));
    assert!(!descends_into(&entry(".git", SourceKind::Directory), MetadataScope::TopLevel));
    assert!(!descends_into(&entry("sub/file", SourceKind::File), MetadataScope::AnyDepth));
    let lookalike = plan_source_files(
        SourceKind::Directory,
        vec![entry(".github", SourceKind::Directory), entry(".github/x.git", SourceKind::File)],
        MetadataScope::AnyDepth,
    );
    assert_eq!(lookalike.expect("not Git metadata"), [".github/x.git"]);
}

#[test]
fn plan_does_not_depend_on_listing_order() {
    let listing = || {
        vec![
            entry("b", SourceKind::File),
            entry("a", SourceKind::Directory),
            entry("a/z", SourceKind::File),
            entry("a-c", SourceKind::File),
        ]
    };
    let mut reversed = listing();
    reversed.reverse();
    assert_eq!(
        plan_source_files(SourceKind::Directory, listing(), MetadataScope::AnyDepth).expect("accepted"),
        plan_source_files(SourceKind::Directory, reversed, MetadataScope::AnyDepth).expect("accepted")
    );
}

#[test]
fn plan_refuses_links_other_entries_and_non_utf8_paths() {
    assert!(matches!(
        plan_source_files(SourceKind::Directory, vec![entry("link", SourceKind::Symlink)], MetadataScope::TopLevel),
        Err(CommitError::SymbolicLink(p)) if p == b"link".to_vec()
    ));
    assert!(matches!(
        plan_source_files(SourceKind::Directory, vec![entry("d", SourceKind::Directory), entry("d/fifo", SourceKind::Other)], MetadataScope::TopLevel),
        Err(CommitError::UnsupportedEntry(p)) if p == b"d/fifo".to_vec()
    ));
    let bad = SourceEntry { components: vec![vec![0xff, 0xfe]], kind: SourceKind::File };
    assert!(matches!(
        plan_source_files(SourceKind::Directory, vec![bad], MetadataScope::AnyDepth),
        Err(CommitError::NonUtf8Path(p)) if p == vec![0xff, 0xfe]
    ));
    // The first refusal in walk order is the one reported.
    assert!(matches!(
        plan_source_files(SourceKind::Directory, vec![entry("z", SourceKind::Symlink), entry("a", SourceKind::Other)], MetadataScope::AnyDepth),
        Err(CommitError::UnsupportedEntry(p)) if p == b"a".to_vec()
    ));
}

#[test]
fn plan_refuses_a_source_that_is_not_a_directory() {
    for kind in [SourceKind::File, SourceKind::Symlink, SourceKind::Other] {
        assert!(matches!(
            plan_source_files(kind, vec![entry("x", SourceKind::File)], MetadataScope::TopLevel),
            Err(CommitError::NotADirectory(p)) if p.is_empty()
        ));
    }
    assert_eq!(plan_source_files(SourceKind::Directory, vec![], MetadataScope::TopLevel).expect("empty"), Vec::<String>::new());
}

#[test]
fn directory_paths_are_sorted_under_the_root_entry() {
    assert_eq!(directory_changed_paths("data", vec!["item.toml".to_owned()]), ["data/item.toml"]);
    let outcome = directory_commit(
        "data",
        "c".to_owned(),
        "t".to_owned(),
        "e".to_owned(),
        vec!["z.md".to_owned(), "a/b.md".to_owned(), "a-c.md".to_owned()],
    );
    assert_eq!(outcome.changed_paths, ["data/a-c.md", "data/a/b.md", "data/z.md"]);
    assert_eq!(outcome.commit, "c");
    assert_eq!(outcome.tree, "t");
    assert_eq!(outcome.entry_tree, "e");
}

#[test]
fn snapshot_paths_track_additions_modifications_and_deletions() {
    let before = vec![
        file("unchanged.txt", 1, 0o100644),
        file("changed.txt", 2, 0o100644),
        file("deleted.txt", 3, 0o100644),
        file("mode.sh", 4, 0o100644),
    ];
    let after = vec![
        file("unchanged.txt", 1, 0o100644),
        file("changed.txt", 5, 0o100644),
        file("added.txt", 6, 0o100644),
        file("mode.sh", 4, 0o100755),
    ];
    assert_eq!(
        snapshot_changed_paths(&before, &after),
        ["added.txt", "changed.txt", "deleted.txt", "mode.sh"]
    );
    let outcome = snapshot_commit("c".to_owned(), "t".to_owned(), &before, &before);
    assert!(outcome.changed_paths.is_empty());
    let mut shuffled_before = before.clone();
    shuffled_before.reverse();
    let mut shuffled_after = after.clone();
    shuffled_after.rotate_left(1);
    assert_eq!(
        snapshot_changed_paths(&shuffled_before, &shuffled_after),
        snapshot_changed_paths(&before, &after)
    );
}

#[test]
fn refusal_details_depend_on_the_input_alone() {
    let first = validate_candidate_and_identity("refs/git-wasip2/bad..name", "a", "b");
    let second = validate_candidate_and_identity("refs/git-wasip2/bad..name", "c", "d");
    match (first, second) {
        (Err(CommitError::Git(a)), Err(CommitError::Git(b))) => {
            assert_eq!(a, b);
            assert!(a.contains("RepeatedDot"));
        }
        other => panic!("unexpected {other:?}"),
    }
    match (parse_parent("0011"), parse_parent("0011")) {
        (Err(CommitError::Git(a)), Err(CommitError::Git(b))) => {
            assert_eq!(a, b);
            assert!(!a.is_empty());
        }
        other => panic!("unexpected {other:?}"),
    }
}
