use git_wasip2::commit::TreeFile;
use git_wasip2::flow::{begin_directory_commit, begin_snapshot_commit};
use git_wasip2::request::{DirectoryCommitRequest, SnapshotCommitRequest};
use git_wasip2::source::{SourceEntry, SourceKind};
use gix::bstr::ByteSlice;
use gix::objs::tree::EntryKind;

fn file_entry(path: &str) -> SourceEntry {
    SourceEntry {
        components: path.split('/').map(|c| c.as_bytes().to_vec()).collect(),
        kind: SourceKind::File,
    }
}

fn content<'a>(files: &[(&str, &'a [u8])], relative: &str) -> &'a [u8] {
    files.iter().find(|(path, _)| *path == relative).expect("planned file").1
}

fn base_commit(repository: &gix::Repository, files: &[(&str, &[u8])]) -> gix::ObjectId {
    let identity = gix::actor::SignatureRef {
        name: b"git-wasip2 test".as_bstr(),
        email: b"test@git-wasip2.invalid".as_bstr(),
        time: "1784160000 +0000",
    };
    let mut editor = repository.edit_tree(repository.empty_tree().id).expect("tree editor");
    for (path, data) in files {
        let blob = repository.write_blob(data).expect("blob");
        editor.upsert(*path, EntryKind::Blob, blob).expect("entry");
    }
    let tree = editor.write().expect("tree");
    repository
        .commit_as(identity, identity, "refs/heads/main", "base", tree, gix::commit::NO_PARENT_IDS)
        .expect("base commit")
        .detach()
}

fn tree_files(repository: &gix::Repository, tree: gix::ObjectId) -> Vec<TreeFile> {
    let tree = repository.find_tree(tree).expect("tree");
    tree.traverse()
        .breadthfirst
        .files()
        .expect("files")
        .into_iter()
        .filter(|entry| !entry.mode.is_tree())
        .map(|entry| TreeFile {
            path: entry.filepath.to_str_lossy().into_owned(),
            id: entry.oid.as_bytes().to_vec(),
            mode: u32::from(entry.mode.value()),
        })
        .collect()
}

#[test]
fn directory_course_replaces_one_root_entry_of_a_repository() {
    let temporary = tempfile::tempdir().expect("temporary directory");
    let repository = gix::init(temporary.path().join("repository")).expect("repository");
    let base = base_commit(
        &repository,
        &[("content/item.md", b"content\n"), ("data/item.toml", b"old\n")],
    );
    let source = temporary.path().join("data");
    let worktree: &[(&str, &[u8])] = &[("item.toml", b"new\n")];

    let request = DirectoryCommitRequest {
        repository: repository.path().to_owned(),
        parent: base.to_string(),
        source_directory: source.clone(),
        root_entry: "data".to_owned(),
        candidate_ref: "refs/git-wasip2/candidate".to_owned(),
        committed_at_unix: 1_784_160_000,
        author_name: "git-wasip2".to_owned(),
        author_email: "sync@git-wasip2.invalid".to_owned(),
        message: "test: update data".to_owned(),
    };
    let resolved = begin_directory_commit(&request).expect("valid").resolve_parent().expect("parent");
    let parent = gix::ObjectId::try_from(resolved.parent_id().as_slice()).expect("id");
    assert_eq!(parent, base);
    let parent_tree = repository.find_commit(parent).expect("parent").tree().expect("tree");
    let entries = worktree.iter().map(|(path, _)| file_entry(path)).collect();
    let planned = resolved.plan(SourceKind::Directory, entries).expect("planned");
    let mut editor = repository.edit_tree(repository.empty_tree().id).expect("editor");
    for relative in planned.files() {
        let blob = repository.write_blob(content(worktree, relative)).expect("blob");
        editor.upsert(relative.as_str(), EntryKind::Blob, blob).expect("upsert");
    }
    let entry_tree = editor.write().expect("entry tree").detach();
    let existing = parent_tree.find_entry("data").map(|e| e.object_id().as_bytes().to_vec());
    let ready = planned.decide(existing, entry_tree.as_bytes().to_vec()).expect("changed");
    let mut root_editor = repository.edit_tree(parent_tree.id).expect("root editor");
    let tree = root_editor
        .upsert("data", EntryKind::Tree, entry_tree)
        .expect("upsert")
        .write()
        .expect("tree")
        .detach();
    let identity = gix::actor::SignatureRef {
        name: ready.author_name().as_bytes().as_bstr(),
        email: ready.author_email().as_bytes().as_bstr(),
        time: ready.time(),
    };
    let commit = repository
        .commit_as(identity, identity, ready.candidate_ref().as_str(), ready.message().as_str(), tree, [parent])
        .expect("commit")
        .detach();
    let outcome = ready
        .finish_directory(commit.to_string(), tree.to_string(), entry_tree.to_string())
        .expect("directory outcome");

    let written = repository.find_commit(commit).expect("candidate commit");
    assert_eq!(
        written.parent_ids().map(|parent| parent.to_string()).collect::<Vec<_>>(),
        [base.to_string()]
    );
    assert_eq!(outcome.changed_paths, ["data/item.toml"]);
    let files = tree_files(&repository, tree);
    let content = files.iter().find(|f| f.path == "content/item.md").expect("content kept");
    let parent_files = tree_files(&repository, parent_tree.id);
    let before = parent_files.iter().find(|f| f.path == "content/item.md").expect("content before");
    assert_eq!(content.id, before.id);
}

#[test]
fn snapshot_course_reports_changes_against_a_repository() {
    let temporary = tempfile::tempdir().expect("temporary directory");
    let repository = gix::init(temporary.path().join("repository")).expect("repository");
    let base = base_commit(
        &repository,
        &[("unchanged.txt", b"unchanged\n"), ("changed.txt", b"before\n"), ("deleted.txt", b"deleted\n")],
    );
    let source = temporary.path().join("worktree");
    let worktree: &[(&str, &[u8])] = &[
        ("unchanged.txt", b"unchanged\n"),
        ("changed.txt", b"after\n"),
        ("added.txt", b"added\n"),
    ];

    let request = SnapshotCommitRequest {
        repository: repository.path().to_owned(),
        parent: base.to_string(),
        source_directory: source.clone(),
        candidate_ref: "refs/git-wasip2/candidate".to_owned(),
        committed_at_unix: 1_784_160_000,
        author_name: "git-wasip2".to_owned(),
        author_email: "test@git-wasip2.invalid".to_owned(),
        message: "test: snapshot".to_owned(),
    };
    let resolved = begin_snapshot_commit(&request).expect("valid").resolve_parent().expect("parent");
    let parent = gix::ObjectId::try_from(resolved.parent_id().as_slice()).expect("id");
    let parent_tree = repository.find_commit(parent).expect("parent").tree_id().expect("tree").detach();
    let entries = worktree.iter().map(|(path, _)| file_entry(path)).collect();
    let planned = resolved.plan(SourceKind::Directory, entries).expect("planned");
    let mut editor = repository.edit_tree(repository.empty_tree().id).expect("editor");
    for relative in planned.files() {
        let blob = repository.write_blob(content(worktree, relative)).expect("blob");
        editor.upsert(relative.as_str(), EntryKind::Blob, blob).expect("upsert");
    }
    let tree = editor.write().expect("tree").detach();
    let ready = planned
        .decide(Some(parent_tree.as_bytes().to_vec()), tree.as_bytes().to_vec())
        .expect("changed");
    let identity = gix::actor::SignatureRef {
        name: ready.author_name().as_bytes().as_bstr(),
        email: ready.author_email().as_bytes().as_bstr(),
        time: ready.time(),
    };
    let commit = repository
        .commit_as(
            identity,
            identity,
            ready.candidate_ref().as_str(),
            ready.message().as_str(),
            tree,
            [gix::ObjectId::try_from(ready.parent_id().as_slice()).expect("parent id")],
        )
        .expect("commit")
        .detach();
    let before = tree_files(&repository, parent_tree);
    let after = tree_files(&repository, tree);
    let outcome = ready
        .finish_snapshot(commit.to_string(), tree.to_string(), &before, &after)
        .expect("snapshot outcome");
    assert_eq!(outcome.changed_paths, ["added.txt", "changed.txt", "deleted.txt"]);
    assert_eq!(outcome.commit, commit.to_string());
    let written = repository
        .find_commit(gix::hash::ObjectId::from_hex(outcome.commit.as_bytes()).expect("commit ID"))
        .expect("candidate commit");
    assert_eq!(
        written.parent_ids().map(|parent| parent.to_string()).collect::<Vec<_>>(),
        [base.to_string()]
    );
    let reference = repository
        .find_reference("refs/git-wasip2/candidate")
        .expect("candidate ref")
        .into_fully_peeled_id()
        .expect("peeled")
        .detach();
    assert_eq!(reference, commit);
}

