//! Checks on a commit request that come before any repository is touched.

use vstd::prelude::*;

use crate::error::CommitError;
use crate::git::{check_full_ref_name, full_ref_name_valid, ref_name_refusal};
use crate::request::DirectoryCommitRequest;

verus! {

/// `s` starts with `prefix`.
pub open spec fn has_prefix(s: Seq<char>, prefix: Seq<char>) -> bool {
    prefix.len() <= s.len() && s.take(prefix.len() as int) == prefix
}

/// `refs/`
pub open spec fn refs_namespace() -> Seq<char> {
    seq!['r', 'e', 'f', 's', '/']
}

/// `refs/heads/`
pub open spec fn branch_namespace() -> Seq<char> {
    seq!['r', 'e', 'f', 's', '/', 'h', 'e', 'a', 'd', 's', '/']
}

/// A candidate is written to an internal reference: inside `refs/`, outside
/// the branches of `refs/heads/`.
pub open spec fn internal_ref(candidate_ref: Seq<char>) -> bool {
    has_prefix(candidate_ref, refs_namespace()) && !has_prefix(candidate_ref, branch_namespace())
}

/// The root entry names one entry of the root tree: not empty, no `/` or
/// NUL, not `.` or `..`.
pub open spec fn valid_root_entry(entry: Seq<char>) -> bool {
    &&& entry.len() > 0
    &&& !entry.contains('/')
    &&& !entry.contains('\0')
    &&& entry != seq!['.']
    &&& entry != seq!['.', '.']
}

/// What the candidate and identity checks answer, given gix's verdict on the
/// reference name.
pub open spec fn candidate_and_identity_ok(
    candidate_ref: Seq<char>,
    author_name: Seq<char>,
    author_email: Seq<char>,
    name_valid: bool,
) -> bool {
    internal_ref(candidate_ref) && name_valid && author_name.len() > 0 && author_email.len() > 0
}

/// The error that reports a failure that gix described.
pub fn git_error(detail: String) -> (error: CommitError)
    ensures
        error == CommitError::Git(detail),
{
    CommitError::Git(detail)
}

fn starts_with(s: &str, prefix: &str) -> (b: bool)
    ensures
        b == has_prefix(s@, prefix@),
{
    let n = s.unicode_len();
    let m = prefix.unicode_len();
    if m > n {
        return false;
    }
    let mut k: usize = 0;
    while k < m
        invariant
            k <= m,
            m <= n,
            n == s@.len(),
            m == prefix@.len(),
            forall|j: int| 0 <= j < k ==> s@[j] == prefix@[j],
        decreases m - k,
    {
        if s.get_char(k) != prefix.get_char(k) {
            assert(s@.take(m as int)[k as int] != prefix@[k as int]);
            return false;
        }
        k = k + 1;
    }
    assert(s@.take(m as int) =~= prefix@);
    true
}

fn contains_char(s: &str, c: char) -> (b: bool)
    ensures
        b == s@.contains(c),
{
    let n = s.unicode_len();
    let mut k: usize = 0;
    while k < n
        invariant
            k <= n,
            n == s@.len(),
            forall|j: int| 0 <= j < k ==> s@[j] != c,
        decreases n - k,
    {
        if s.get_char(k) == c {
            return true;
        }
        k = k + 1;
    }
    false
}

/// Whether the candidate reference is internal.
pub fn is_internal_ref(candidate_ref: &str) -> (internal: bool)
    ensures
        internal == internal_ref(candidate_ref@),
{
    let refs = "refs/";
    let heads = "refs/heads/";
    proof {
        reveal_strlit("refs/");
        reveal_strlit("refs/heads/");
        assert(refs@ =~= refs_namespace());
        assert(heads@ =~= branch_namespace());
    }
    starts_with(candidate_ref, refs) && !starts_with(candidate_ref, heads)
}

/// Whether the root entry names a single entry of the root tree.
pub fn is_valid_root_entry(entry: &str) -> (valid: bool)
    ensures
        valid == valid_root_entry(entry@),
{
    if entry.unicode_len() == 0 || contains_char(entry, '/') || contains_char(entry, '\0') {
        return false;
    }
    let dot = ".";
    let dots = "..";
    proof {
        reveal_strlit(".");
        reveal_strlit("..");
    }
    let n = entry.unicode_len();
    if n == 1 && entry.get_char(0) == '.' {
        assert(entry@ =~= seq!['.']);
        return false;
    }
    if n == 2 && entry.get_char(0) == '.' && entry.get_char(1) == '.' {
        assert(entry@ =~= seq!['.', '.']);
        return false;
    }
    assert(entry@ != seq!['.']) by {
        if n == 1 {
            assert(seq!['.'][0] == '.');
        }
    }
    assert(entry@ != seq!['.', '.']) by {
        if n == 2 {
            assert(seq!['.', '.'][0] == '.');
            assert(seq!['.', '.'][1] == '.');
        }
    }
    true
}

/// The candidate and identity checks, given gix's verdict on the reference
/// name as `name_check` (its description when it refused the name): first
/// the candidate must be internal, then gix must accept its name, then the
/// author name and e-mail must not be empty.
pub fn candidate_and_identity_verdict(
    candidate_ref: &str,
    author_name: &str,
    author_email: &str,
    name_check: Result<(), String>,
) -> (verdict: Result<(), CommitError>)
    ensures
        !internal_ref(candidate_ref@) ==> (verdict matches Err(CommitError::CandidateRef(r)) && r@
            == candidate_ref@),
        internal_ref(candidate_ref@) ==> match name_check {
            Err(detail) => verdict == Err::<(), CommitError>(CommitError::Git(detail)),
            Ok(()) => if author_name@.len() == 0 || author_email@.len() == 0 {
                verdict matches Err(CommitError::EmptyIdentity)
            } else {
                verdict is Ok
            },
        },
{
    if !is_internal_ref(candidate_ref) {
        return Err(CommitError::CandidateRef(candidate_ref.to_owned()));
    }
    match name_check {
        Err(detail) => {
            return Err(git_error(detail));
        },
        Ok(()) => {},
    }
    if author_name.is_empty() || author_email.is_empty() {
        return Err(CommitError::EmptyIdentity);
    }
    Ok(())
}

/// Checks that the candidate reference is an internal reference that gix
/// accepts and that the commit identity is not empty.
pub fn validate_candidate_and_identity(
    candidate_ref: &str,
    author_name: &str,
    author_email: &str,
) -> (validated: Result<(), CommitError>)
    ensures
        validated is Ok <==> candidate_and_identity_ok(
            candidate_ref@,
            author_name@,
            author_email@,
            full_ref_name_valid(candidate_ref@),
        ),
        !internal_ref(candidate_ref@) ==> (validated matches Err(CommitError::CandidateRef(r)) && r@
            == candidate_ref@),
        internal_ref(candidate_ref@) && !full_ref_name_valid(candidate_ref@) ==> (
        validated matches Err(CommitError::Git(d)) && ref_name_refusal(candidate_ref@) == Some(d@)),
        internal_ref(candidate_ref@) && full_ref_name_valid(candidate_ref@) && (author_name@.len()
            == 0 || author_email@.len() == 0) ==> (validated matches Err(CommitError::EmptyIdentity)),
{
    if !is_internal_ref(candidate_ref) {
        return Err(CommitError::CandidateRef(candidate_ref.to_owned()));
    }
    let name_check = check_full_ref_name(candidate_ref);
    candidate_and_identity_verdict(candidate_ref, author_name, author_email, name_check)
}

/// Checks a directory commit request: the candidate and identity checks,
/// then the root entry.
pub fn validate_request(request: &DirectoryCommitRequest) -> (validated: Result<(), CommitError>)
    ensures
        validated is Ok <==> candidate_and_identity_ok(
            request.candidate_ref@,
            request.author_name@,
            request.author_email@,
            full_ref_name_valid(request.candidate_ref@),
        ) && valid_root_entry(request.root_entry@),
        !internal_ref(request.candidate_ref@) ==> (validated matches Err(CommitError::CandidateRef(r))
            && r@ == request.candidate_ref@),
        internal_ref(request.candidate_ref@) && !full_ref_name_valid(request.candidate_ref@) ==> (
        validated matches Err(CommitError::Git(d)) && ref_name_refusal(request.candidate_ref@)
            == Some(d@)),
        internal_ref(request.candidate_ref@) && full_ref_name_valid(request.candidate_ref@) && (
        request.author_name@.len() == 0 || request.author_email@.len() == 0) ==> (
        validated matches Err(CommitError::EmptyIdentity)),
        candidate_and_identity_ok(
            request.candidate_ref@,
            request.author_name@,
            request.author_email@,
            full_ref_name_valid(request.candidate_ref@),
        ) && !valid_root_entry(request.root_entry@) ==> (validated matches Err(
            CommitError::RootEntry(e),
        ) && e@ == request.root_entry@),
{
    match validate_candidate_and_identity(
        request.candidate_ref.as_str(),
        request.author_name.as_str(),
        request.author_email.as_str(),
    ) {
        Err(error) => {
            return Err(error);
        },
        Ok(()) => {},
    }
    if !is_valid_root_entry(request.root_entry.as_str()) {
        return Err(CommitError::RootEntry(request.root_entry.clone()));
    }
    Ok(())
}

} // verus!
