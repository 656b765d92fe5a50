//! The course of a candidate commit, as a sequence of states. Each state can
//! only be reached from the one before it, by the step that makes the
//! decision at that point; the caller performs the repository and file
//! system work in between and feeds its results to the next step:
//!
//! 1. `begin_directory_commit` / `begin_snapshot_commit` validate the request
//!    ([`ValidatedCommit`]);
//! 2. after opening the repository, `resolve_parent` parses the parent id
//!    ([`ResolvedCommit`]);
//! 3. after listing the source directory, `plan` decides the files
//!    ([`PlannedCommit`]);
//! 4. after writing the files into a new tree, `decide` tells whether there
//!    is anything to commit ([`ReadyCommit`]);
//! 5. after writing the commit, `finish_directory` / `finish_snapshot` build
//!    the outcome.
//!
//! A [`ReadyCommit`] therefore only exists for a validated request whose new
//! tree differs from what it replaces, and it hands out exactly the
//! reference, identity, time and parent that the commit is written with.

use vstd::prelude::*;

use crate::commit::{
    directory_commit, entry_paths, entry_unchanged, parse_parent, snapshot_commit, differs,
    strictly_ordered, TreeFile,
};
use crate::error::CommitError;
use crate::git::{full_ref_name_valid, hex_decoded, object_hex_refusal, ref_name_refusal, sha1_hex};
use crate::request::{DirectoryCommit, DirectoryCommitRequest, SnapshotCommit, SnapshotCommitRequest};
use crate::source::{
    accepted_files, entry_path, first_refused, joined, none_refused, plan_source_files, refusal,
    reports, texts, walk_order, MetadataScope, SourceEntry, SourceKind,
};
use crate::text::{commit_time, signature_time};
use crate::validate::{
    candidate_and_identity_ok, internal_ref, valid_root_entry, validate_candidate_and_identity,
    validate_request,
};

verus! {

/// What a candidate commit replaces in the parent's root tree.
#[derive(Clone, Debug)]
pub enum CommitTarget {
    /// The root tree entry of this name, replaced by the source directory.
    Directory(String),
    /// The whole root tree, replaced by the source directory.
    Snapshot,
}

/// The target names a single root tree entry, or the whole tree.
pub open spec fn target_valid(target: CommitTarget) -> bool {
    match target {
        CommitTarget::Directory(entry) => valid_root_entry(entry@),
        CommitTarget::Snapshot => true,
    }
}

/// Where a commit's walk looks for Git metadata: a snapshot's source must
/// hold none at all; a directory commit refuses it at the top level of the
/// source directory.
pub open spec fn target_scope(target: CommitTarget) -> MetadataScope {
    match target {
        CommitTarget::Directory(_) => MetadataScope::TopLevel,
        CommitTarget::Snapshot => MetadataScope::AnyDepth,
    }
}

/// A request that passed validation.
pub struct ValidatedCommit {
    target: CommitTarget,
    parent: String,
    candidate_ref: String,
    committed_at_unix: i64,
    author_name: String,
    author_email: String,
    message: String,
}

impl ValidatedCommit {
    #[verifier::type_invariant]
    spec fn well_formed(self) -> bool {
        &&& candidate_and_identity_ok(
            self.candidate_ref@,
            self.author_name@,
            self.author_email@,
            full_ref_name_valid(self.candidate_ref@),
        )
        &&& target_valid(self.target)
    }

    /// What the commit replaces.
    pub closed spec fn target(self) -> CommitTarget {
        self.target
    }

    /// The requested parent, as given.
    pub closed spec fn parent_text(self) -> Seq<char> {
        self.parent@
    }

    /// The reference that the candidate is written to.
    pub closed spec fn candidate_ref_text(self) -> Seq<char> {
        self.candidate_ref@
    }

    /// The commit time, in seconds since the Unix epoch.
    pub closed spec fn committed_at(self) -> i64 {
        self.committed_at_unix
    }

    /// The author's (and committer's) name.
    pub closed spec fn author_name_text(self) -> Seq<char> {
        self.author_name@
    }

    /// The author's (and committer's) e-mail address.
    pub closed spec fn author_email_text(self) -> Seq<char> {
        self.author_email@
    }

    /// The commit message.
    pub closed spec fn message_text(self) -> Seq<char> {
        self.message@
    }

    /// Parses the requested parent id: the next step once the repository is open.
    pub fn resolve_parent(self) -> (resolved: Result<ResolvedCommit, CommitError>)
        ensures
            resolved is Ok <==> sha1_hex(self.parent_text()),
            resolved matches Ok(r) ==> r.validated() == self && r.parent_id_bytes() == hex_decoded(
                self.parent_text(),
            ),
            resolved matches Err(e) ==> e is Git && e->Git_0@ == object_hex_refusal(
                self.parent_text(),
            ),
    {
        match parse_parent(self.parent.as_str()) {
            Ok(parent_id) => Ok(ResolvedCommit { validated: self, parent_id }),
            Err(error) => Err(error),
        }
    }
}

/// Validates a directory commit request (see `validate_request`) and begins
/// its course.
pub fn begin_directory_commit(request: &DirectoryCommitRequest) -> (begun: Result<
    ValidatedCommit,
    CommitError,
>)
    ensures
        begun is Ok <==> candidate_and_identity_ok(
            request.candidate_ref@,
            request.author_name@,
            request.author_email@,
            full_ref_name_valid(request.candidate_ref@),
        ) && valid_root_entry(request.root_entry@),
        !internal_ref(request.candidate_ref@) ==> (begun matches Err(CommitError::CandidateRef(r))
            && r@ == request.candidate_ref@),
        internal_ref(request.candidate_ref@) && !full_ref_name_valid(request.candidate_ref@) ==> (
        begun matches Err(CommitError::Git(d)) && ref_name_refusal(request.candidate_ref@) == Some(
            d@,
        )),
        internal_ref(request.candidate_ref@) && full_ref_name_valid(request.candidate_ref@) && (
        request.author_name@.len() == 0 || request.author_email@.len() == 0) ==> (
        begun matches Err(CommitError::EmptyIdentity)),
        candidate_and_identity_ok(
            request.candidate_ref@,
            request.author_name@,
            request.author_email@,
            full_ref_name_valid(request.candidate_ref@),
        ) && !valid_root_entry(request.root_entry@) ==> (begun matches Err(
            CommitError::RootEntry(e),
        ) && e@ == request.root_entry@),
        begun matches Ok(v) ==> {
            &&& v.target() matches CommitTarget::Directory(entry) && entry@ == request.root_entry@
            &&& v.parent_text() == request.parent@
            &&& v.candidate_ref_text() == request.candidate_ref@
            &&& v.committed_at() == request.committed_at_unix
            &&& v.author_name_text() == request.author_name@
            &&& v.author_email_text() == request.author_email@
            &&& v.message_text() == request.message@
        },
{
    match validate_request(request) {
        Err(error) => {
            return Err(error);
        },
        Ok(()) => {},
    }
    Ok(
        ValidatedCommit {
            target: CommitTarget::Directory(request.root_entry.clone()),
            parent: request.parent.clone(),
            candidate_ref: request.candidate_ref.clone(),
            committed_at_unix: request.committed_at_unix,
            author_name: request.author_name.clone(),
            author_email: request.author_email.clone(),
            message: request.message.clone(),
        },
    )
}

/// Validates a snapshot commit request (see
/// `validate_candidate_and_identity`) and begins its course.
pub fn begin_snapshot_commit(request: &SnapshotCommitRequest) -> (begun: Result<
    ValidatedCommit,
    CommitError,
>)
    ensures
        begun is Ok <==> candidate_and_identity_ok(
            request.candidate_ref@,
            request.author_name@,
            request.author_email@,
            full_ref_name_valid(request.candidate_ref@),
        ),
        !internal_ref(request.candidate_ref@) ==> (begun matches Err(CommitError::CandidateRef(r))
            && r@ == request.candidate_ref@),
        internal_ref(request.candidate_ref@) && !full_ref_name_valid(request.candidate_ref@) ==> (
        begun matches Err(CommitError::Git(d)) && ref_name_refusal(request.candidate_ref@) == Some(
            d@,
        )),
        internal_ref(request.candidate_ref@) && full_ref_name_valid(request.candidate_ref@) && (
        request.author_name@.len() == 0 || request.author_email@.len() == 0) ==> (
        begun matches Err(CommitError::EmptyIdentity)),
        begun matches Ok(v) ==> {
            &&& v.target() is Snapshot
            &&& v.parent_text() == request.parent@
            &&& v.candidate_ref_text() == request.candidate_ref@
            &&& v.committed_at() == request.committed_at_unix
            &&& v.author_name_text() == request.author_name@
            &&& v.author_email_text() == request.author_email@
            &&& v.message_text() == request.message@
        },
{
    match validate_candidate_and_identity(
        request.candidate_ref.as_str(),
        request.author_name.as_str(),
        request.author_email.as_str(),
    ) {
        Err(error) => {
            return Err(error);
        },
        Ok(()) => {},
    }
    Ok(
        ValidatedCommit {
            target: CommitTarget::Snapshot,
            parent: request.parent.clone(),
            candidate_ref: request.candidate_ref.clone(),
            committed_at_unix: request.committed_at_unix,
            author_name: request.author_name.clone(),
            author_email: request.author_email.clone(),
            message: request.message.clone(),
        },
    )
}

/// A validated request whose parent id was parsed.
pub struct ResolvedCommit {
    validated: ValidatedCommit,
    parent_id: Vec<u8>,
}

impl ResolvedCommit {
    #[verifier::type_invariant]
    spec fn well_formed(self) -> bool {
        sha1_hex(self.validated.parent@) && self.parent_id@ == hex_decoded(self.validated.parent@)
    }

    /// The validated request.
    pub closed spec fn validated(self) -> ValidatedCommit {
        self.validated
    }

    /// The parent id.
    pub closed spec fn parent_id_bytes(self) -> Seq<u8> {
        self.parent_id@
    }

    /// The id of the parent commit, to look up in the repository.
    pub fn parent_id(&self) -> (id: &Vec<u8>)
        ensures
            id@ == self.parent_id_bytes(),
            sha1_hex(self.validated().parent_text()),
            id@ == hex_decoded(self.validated().parent_text()),
    {
        proof {
            use_type_invariant(self);
        }
        &self.parent_id
    }

    /// The name of the root tree entry that a directory commit replaces.
    pub fn root_entry(&self) -> (entry: Option<&String>)
        ensures
            self.validated().target() is Snapshot ==> entry is None,
            self.validated().target() matches CommitTarget::Directory(e) ==> (entry matches Some(
                s,
            ) && *s == e && valid_root_entry(s@)),
    {
        proof {
            use_type_invariant(&self.validated);
        }
        match &self.validated.target {
            CommitTarget::Directory(entry) => Some(entry),
            CommitTarget::Snapshot => None,
        }
    }

    /// Where the walk looks for Git metadata for this commit.
    pub fn metadata_scope(&self) -> (scope: MetadataScope)
        ensures
            scope == target_scope(self.validated().target()),
    {
        match &self.validated.target {
            CommitTarget::Directory(_) => MetadataScope::TopLevel,
            CommitTarget::Snapshot => MetadataScope::AnyDepth,
        }
    }

    /// Decides the files to commit from the listing of the source directory
    /// (see `plan_source_files`, with the scope of `target_scope`): the next
    /// step once the directory is read.
    pub fn plan(self, root: SourceKind, listing: Vec<SourceEntry>) -> (planned: Result<
        PlannedCommit,
        CommitError,
    >)
        ensures
            !(root is Directory) ==> (planned matches Err(CommitError::NotADirectory(p)) && p@.len()
                == 0),
            root is Directory ==> ({
                let order = walk_order(listing@);
                let scope = target_scope(self.validated().target());
                match planned {
                    Ok(p) => none_refused(order, scope) && texts(p.files_view()) == accepted_files(
                        order,
                    ) && p.resolved() == self,
                    Err(e) => exists|i: int|
                        #![trigger first_refused(order, scope, i)]
                        first_refused(order, scope, i) && reports(
                            e,
                            refusal(order[i], scope)->0,
                            joined(entry_path(order[i])),
                        ),
                }
            }),
    {
        let scope = self.metadata_scope();
        match plan_source_files(root, listing, scope) {
            Ok(files) => Ok(PlannedCommit { resolved: self, files }),
            Err(error) => Err(error),
        }
    }
}

/// A resolved request with the files that its new tree holds.
pub struct PlannedCommit {
    resolved: ResolvedCommit,
    files: Vec<String>,
}

impl PlannedCommit {
    /// The resolved request.
    pub closed spec fn resolved(self) -> ResolvedCommit {
        self.resolved
    }

    /// The files of the new tree, relative to the source directory.
    pub closed spec fn files_view(self) -> Seq<String> {
        self.files@
    }

    /// The files to write into the new tree, relative to the source
    /// directory, in walk order.
    pub fn files(&self) -> (files: &Vec<String>)
        ensures
            files@ == self.files_view(),
    {
        &self.files
    }

    /// The name of the root tree entry that a directory commit replaces.
    pub fn root_entry(&self) -> (entry: Option<&String>)
        ensures
            self.resolved().validated().target() is Snapshot ==> entry is None,
            self.resolved().validated().target() matches CommitTarget::Directory(e) ==> (
            entry matches Some(s) && *s == e && valid_root_entry(s@)),
    {
        self.resolved.root_entry()
    }

    /// Decides whether there is anything to commit, given the id of the new
    /// tree (the entry tree of a directory commit, the root tree of a
    /// snapshot) and the id of what it replaces, if that exists (the parent's
    /// root entry of that name, or the parent's root tree): nothing when the
    /// two are the same object.
    pub fn decide(self, replaced: Option<Vec<u8>>, new_tree: Vec<u8>) -> (ready: Option<
        ReadyCommit,
    >)
        ensures
            ready is None <==> (replaced matches Some(id) && id@ == new_tree@),
            ready matches Some(r) ==> r.planned() == self && r.new_tree_bytes() == new_tree@,
    {
        if entry_unchanged(&replaced, &new_tree) {
            return None;
        }
        let time = commit_time(self.resolved.validated.committed_at_unix);
        Some(ReadyCommit { planned: self, replaced, new_tree, time })
    }
}

/// A planned commit whose new tree differs from what it replaces: what the
/// commit is written with.
pub struct ReadyCommit {
    planned: PlannedCommit,
    replaced: Option<Vec<u8>>,
    new_tree: Vec<u8>,
    time: String,
}

impl ReadyCommit {
    #[verifier::type_invariant]
    spec fn well_formed(self) -> bool {
        &&& !(self.replaced matches Some(id) && id@ == self.new_tree@)
        &&& self.time@ == signature_time(self.planned.resolved.validated.committed_at_unix)
    }

    /// The planned commit.
    pub closed spec fn planned(self) -> PlannedCommit {
        self.planned
    }

    /// The new tree's id.
    pub closed spec fn new_tree_bytes(self) -> Seq<u8> {
        self.new_tree@
    }

    /// The validated request.
    pub open spec fn validated(self) -> ValidatedCommit {
        self.planned().resolved().validated()
    }

    /// The reference to write the candidate to: an internal reference that
    /// gix accepts, as requested.
    pub fn candidate_ref(&self) -> (candidate_ref: &String)
        ensures
            candidate_ref@ == self.validated().candidate_ref_text(),
            internal_ref(candidate_ref@),
            full_ref_name_valid(candidate_ref@),
    {
        proof {
            use_type_invariant(&self.planned.resolved.validated);
        }
        &self.planned.resolved.validated.candidate_ref
    }

    /// The author's (and committer's) name: not empty, as requested.
    pub fn author_name(&self) -> (name: &String)
        ensures
            name@ == self.validated().author_name_text(),
            name@.len() > 0,
    {
        proof {
            use_type_invariant(&self.planned.resolved.validated);
        }
        &self.planned.resolved.validated.author_name
    }

    /// The author's (and committer's) e-mail address: not empty, as requested.
    pub fn author_email(&self) -> (email: &String)
        ensures
            email@ == self.validated().author_email_text(),
            email@.len() > 0,
    {
        proof {
            use_type_invariant(&self.planned.resolved.validated);
        }
        &self.planned.resolved.validated.author_email
    }

    /// The commit message, as requested.
    pub fn message(&self) -> (message: &String)
        ensures
            message@ == self.validated().message_text(),
    {
        &self.planned.resolved.validated.message
    }

    /// The signature time: the requested Unix time in decimal, at UTC.
    pub fn time(&self) -> (time: &String)
        ensures
            time@ == signature_time(self.validated().committed_at()),
    {
        proof {
            use_type_invariant(self);
        }
        &self.time
    }

    /// The id of the only parent of the commit: the requested parent.
    pub fn parent_id(&self) -> (id: &Vec<u8>)
        ensures
            sha1_hex(self.validated().parent_text()),
            id@ == hex_decoded(self.validated().parent_text()),
    {
        self.planned.resolved.parent_id()
    }

    /// The new tree's id, which differs from what it replaces.
    pub fn new_tree(&self) -> (id: &Vec<u8>)
        ensures
            id@ == self.new_tree_bytes(),
    {
        &self.new_tree
    }

    /// The name of the root tree entry that a directory commit replaces.
    pub fn root_entry(&self) -> (entry: Option<&String>)
        ensures
            self.validated().target() is Snapshot ==> entry is None,
            self.validated().target() matches CommitTarget::Directory(e) ==> (entry matches Some(
                s,
            ) && *s == e && valid_root_entry(s@)),
    {
        self.planned.root_entry()
    }

    /// The outcome of a directory commit, given the ids (in hexadecimal) of
    /// the commit written, its root tree and the entry tree; `None` when the
    /// course began as a snapshot commit.
    pub fn finish_directory(self, commit: String, tree: String, entry_tree: String) -> (outcome:
        Option<DirectoryCommit>)
        ensures
            outcome is Some <==> self.validated().target() is Directory,
            outcome matches Some(o) ==> {
                &&& o.commit == commit
                &&& o.tree == tree
                &&& o.entry_tree == entry_tree
                &&& self.validated().target() matches CommitTarget::Directory(e) && texts(
                    o.changed_paths@,
                ) == entry_paths(e@, self.planned().files_view())
            },
    {
        let PlannedCommit { resolved, files } = self.planned;
        match resolved.validated.target {
            CommitTarget::Directory(root_entry) => Some(
                directory_commit(root_entry.as_str(), commit, tree, entry_tree, files),
            ),
            CommitTarget::Snapshot => None,
        }
    }

    /// The outcome of a snapshot commit, given the ids (in hexadecimal) of the
    /// commit written and its tree, and the files of the parent's tree and of
    /// the new tree; `None` when the course began as a directory commit.
    pub fn finish_snapshot(
        self,
        commit: String,
        tree: String,
        before: &Vec<TreeFile>,
        after: &Vec<TreeFile>,
    ) -> (outcome: Option<SnapshotCommit>)
        ensures
            outcome is Some <==> self.validated().target() is Snapshot,
            outcome matches Some(o) ==> {
                &&& o.commit == commit
                &&& o.tree == tree
                &&& strictly_ordered(texts(o.changed_paths@))
                &&& forall|p: Seq<char>| #[trigger] texts(o.changed_paths@).contains(p) <==> differs(
                    before@,
                    after@,
                    p,
                )
            },
    {
        match self.planned.resolved.validated.target {
            CommitTarget::Snapshot => Some(snapshot_commit(commit, tree, before, after)),
            CommitTarget::Directory(_) => None,
        }
    }
}

} // verus!
