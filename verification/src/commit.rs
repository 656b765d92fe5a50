//! The decisions of a candidate commit that fall between the repository
//! operations: the parent id, whether anything changed, the signature time,
//! and the changed paths that the outcome reports.

use vstd::prelude::*;
use vstd::string::StringExecFns;
use vstd::utf8::encode_utf8;

use crate::error::CommitError;
use crate::git::{decode_object_hex, hex_decoded, object_hex_refusal, sha1_hex};
use crate::order::{
    byte_order, bytes_compare, compare_bytes, insertion_sort, lemma_encode_injective,
    lemma_orders_total, lex_order, sort_texts, text_leq,
};
use crate::request::{DirectoryCommit, SnapshotCommit};
use crate::source::texts;
use crate::validate::git_error;

verus! {

/// Parses the hexadecimal id of the parent commit.
pub fn parse_parent(parent: &str) -> (parsed: Result<Vec<u8>, CommitError>)
    ensures
        parsed is Ok <==> sha1_hex(parent@),
        parsed matches Ok(id) ==> id@ == hex_decoded(parent@),
        parsed matches Err(e) ==> e is Git && e->Git_0@ == object_hex_refusal(parent@),
{
    match decode_object_hex(parent) {
        Ok(id) => Ok(id),
        Err(detail) => Err(git_error(detail)),
    }
}

fn same_bytes(a: &Vec<u8>, b: &Vec<u8>) -> (same: bool)
    ensures
        same == (a@ == b@),
{
    proof {
        lemma_orders_total();
        assert(lex_order(byte_order())(a@, b@) == bytes_compare(a@, b@));
    }
    compare_bytes(a.as_slice(), b.as_slice()) == 0
}

/// A directory commit changes nothing when the parent's root tree already
/// has an entry of that name whose object is the new entry tree (whatever
/// the entry's kind). `existing` is the id of that entry, if there is one.
pub fn entry_unchanged(existing: &Option<Vec<u8>>, entry_tree: &Vec<u8>) -> (unchanged: bool)
    ensures
        unchanged == (existing matches Some(id) && id@ == entry_tree@),
{
    match existing {
        Some(id) => same_bytes(id, entry_tree),
        None => false,
    }
}

/// `file` inside the root entry `root_entry`.
pub open spec fn under_entry(root_entry: Seq<char>, file: Seq<char>) -> Seq<char> {
    root_entry + seq!['/'] + file
}

/// The changed paths of a directory commit: its files in string order, each
/// under the root entry.
pub open spec fn entry_paths(root_entry: Seq<char>, files: Seq<String>) -> Seq<Seq<char>> {
    insertion_sort(files, text_leq()).map_values(|f: String| under_entry(root_entry, f@))
}

/// The changed paths of a directory commit.
pub fn directory_changed_paths(root_entry: &str, files: Vec<String>) -> (changed: Vec<String>)
    ensures
        texts(changed@) == entry_paths(root_entry@, files@),
{
    let sorted = sort_texts(files);
    let slash = "/";
    proof {
        reveal_strlit("/");
    }
    let mut changed: Vec<String> = Vec::new();
    let mut i: usize = 0;
    while i < sorted.len()
        invariant
            i <= sorted@.len(),
            slash@ == seq!['/'],
            sorted@ == insertion_sort(files@, text_leq()),
            texts(changed@) == entry_paths(root_entry@, files@).take(i as int),
        decreases sorted.len() - i,
    {
        let mut path = root_entry.to_owned();
        path.append(slash);
        path.append(sorted[i].as_str());
        let ghost before = changed@;
        changed.push(path);
        assert(texts(changed@) =~= texts(before).push(path@));
        assert(entry_paths(root_entry@, files@).take(i + 1) =~= entry_paths(
            root_entry@,
            files@,
        ).take(i as int).push(under_entry(root_entry@, sorted@[i as int]@)));
        i = i + 1;
    }
    assert(entry_paths(root_entry@, files@).take(i as int) =~= entry_paths(root_entry@, files@));
    changed
}

/// The outcome of a directory commit.
pub fn directory_commit(
    root_entry: &str,
    commit: String,
    tree: String,
    entry_tree: String,
    files: Vec<String>,
) -> (outcome: DirectoryCommit)
    ensures
        outcome.commit == commit,
        outcome.tree == tree,
        outcome.entry_tree == entry_tree,
        texts(outcome.changed_paths@) == entry_paths(root_entry@, files@),
{
    DirectoryCommit {
        commit,
        tree,
        entry_tree,
        changed_paths: directory_changed_paths(root_entry, files),
    }
}

/// A non-tree entry of a tree, at any depth: its path from the root, the id
/// of its object and its mode.
#[derive(Clone, Debug)]
pub struct TreeFile {
    pub path: String,
    pub id: Vec<u8>,
    pub mode: u32,
}

/// What `files`, from position `k` on, records at `path`: the object id and
/// mode of the first entry with that path.
pub open spec fn recorded_from(files: Seq<TreeFile>, path: Seq<char>, k: int) -> Option<(Seq<u8>, u32)>
    decreases files.len() - k,
{
    if k < 0 || k >= files.len() {
        None
    } else if files[k].path@ == path {
        Some((files[k].id@, files[k].mode))
    } else {
        recorded_from(files, path, k + 1)
    }
}

/// What `files` records at `path`.
pub open spec fn recorded(files: Seq<TreeFile>, path: Seq<char>) -> Option<(Seq<u8>, u32)> {
    recorded_from(files, path, 0)
}

/// `path` differs between two trees: it is in one only, or holds another
/// object or mode.
pub open spec fn differs(before: Seq<TreeFile>, after: Seq<TreeFile>, path: Seq<char>) -> bool {
    recorded(before, path) != recorded(after, path)
}

/// `a` comes before `b` in the order of `str`.
pub open spec fn text_before(a: Seq<char>, b: Seq<char>) -> bool {
    bytes_compare(encode_utf8(a), encode_utf8(b)) < 0
}

/// Each text comes before the next: sorted, and no text twice.
pub open spec fn strictly_ordered(s: Seq<Seq<char>>) -> bool {
    forall|i: int, j: int| 0 <= i < j < s.len() ==> text_before(#[trigger] s[i], #[trigger] s[j])
}

proof fn lemma_recorded_some(files: Seq<TreeFile>, path: Seq<char>, k: int)
    requires
        0 <= k,
        recorded_from(files, path, k) is Some,
    ensures
        exists|i: int| k <= i < files.len() && (#[trigger] files[i]).path@ == path,
    decreases files.len() - k,
{
    if files[k].path@ != path {
        lemma_recorded_some(files, path, k + 1);
    }
}

fn find_file(files: &Vec<TreeFile>, path: &String) -> (found: Option<usize>)
    ensures
        match found {
            Some(i) => i < files@.len() && recorded(files@, path@) == Some(
                (files@[i as int].id@, files@[i as int].mode),
            ),
            None => recorded(files@, path@) is None,
        },
{
    let mut k: usize = 0;
    while k < files.len()
        invariant
            k <= files@.len(),
            recorded(files@, path@) == recorded_from(files@, path@, k as int),
        decreases files.len() - k,
    {
        if files[k].path == *path {
            return Some(k);
        }
        k = k + 1;
    }
    None
}

fn path_differs(before: &Vec<TreeFile>, after: &Vec<TreeFile>, path: &String) -> (d: bool)
    ensures
        d == differs(before@, after@, path@),
{
    match (find_file(before, path), find_file(after, path)) {
        (None, None) => false,
        (Some(_), None) => true,
        (None, Some(_)) => true,
        (Some(i), Some(j)) => {
            let same_id = same_bytes(&before[i].id, &after[j].id);
            !(same_id && before[i].mode == after[j].mode)
        },
    }
}

proof fn lemma_text_compare(a: Seq<char>, b: Seq<char>)
    ensures
        bytes_compare(encode_utf8(a), encode_utf8(b)) == -bytes_compare(encode_utf8(b), encode_utf8(a)),
        bytes_compare(encode_utf8(a), encode_utf8(b)) == 0 <==> a == b,
{
    lemma_orders_total();
    let lc = lex_order(byte_order());
    assert(lc(encode_utf8(a), encode_utf8(b)) == -lc(encode_utf8(b), encode_utf8(a)));
    if lc(encode_utf8(a), encode_utf8(b)) == 0 {
        lemma_encode_injective(a, b);
    }
}

proof fn lemma_text_before_transitive(a: Seq<char>, b: Seq<char>, c: Seq<char>)
    requires
        text_before(a, b),
        text_before(b, c),
    ensures
        text_before(a, c),
{
    lemma_orders_total();
    let lc = lex_order(byte_order());
    assert(lc(encode_utf8(a), encode_utf8(b)) <= 0 && lc(encode_utf8(b), encode_utf8(c)) <= 0);
    lemma_text_compare(a, c);
    lemma_text_compare(b, c);
    if a == c {
        lemma_text_compare(a, b);
    }
}

fn insert_text_sorted(found: &mut Vec<String>, x: String)
    requires
        strictly_ordered(texts(old(found)@)),
        !texts(old(found)@).contains(x@),
    ensures
        strictly_ordered(texts(final(found)@)),
        forall|p: Seq<char>| #[trigger] texts(final(found)@).contains(p) <==> (texts(old(found)@).contains(p)
            || p == x@),
{
    let ghost before = found@;
    let mut j: usize = found.len();
    while j > 0 && compare_bytes(found[j - 1].as_str().as_bytes(), x.as_str().as_bytes()) > 0
        invariant
            j <= found@.len(),
            found@ == before,
            forall|k: int| j <= k < before.len() ==> text_before(x@, #[trigger] before[k]@),
        decreases j,
    {
        proof {
            lemma_text_compare(found@[j - 1]@, x@);
        }
        j = j - 1;
    }
    proof {
        if j > 0 {
            lemma_text_compare(before[j - 1]@, x@);
            assert(texts(before)[j - 1] == before[j - 1]@);
            assert(before[j - 1]@ != x@);
            assert(text_before(before[j - 1]@, x@));
        }
    }
    found.insert(j, x);
    proof {
        let after = found@;
        assert(after =~= before.take(j as int).push(x) + before.skip(j as int));
        let t = texts(after);
        let tb = texts(before);
        assert forall|a: int, b: int| 0 <= a < b < t.len() implies text_before(
            #[trigger] t[a],
            #[trigger] t[b],
        ) by {
            if b < j {
                assert(t[a] == tb[a] && t[b] == tb[b]);
            } else if b == j {
                if a < j - 1 {
                    assert(text_before(tb[a], tb[j - 1]));
                    lemma_text_before_transitive(tb[a], tb[j - 1], x@);
                }
            } else if a < j {
                assert(t[b] == tb[b - 1]);
                assert(text_before(x@, before[b - 1]@));
                if a < j - 1 {
                    assert(text_before(tb[a], tb[j - 1]));
                    lemma_text_before_transitive(tb[a], tb[j - 1], x@);
                }
                lemma_text_before_transitive(tb[a], x@, tb[b - 1]);
            } else if a == j {
                assert(t[b] == tb[b - 1]);
            } else {
                assert(t[a] == tb[a - 1] && t[b] == tb[b - 1]);
            }
        }
        assert forall|p: Seq<char>| #[trigger] t.contains(p) <==> (tb.contains(p) || p == x@) by {
            if t.contains(p) {
                let k = choose|k: int| 0 <= k < t.len() && t[k] == p;
                if k < j {
                    assert(tb[k] == p);
                } else if k > j {
                    assert(tb[k - 1] == p);
                }
            }
            if tb.contains(p) {
                let k = choose|k: int| 0 <= k < tb.len() && tb[k] == p;
                if k < j {
                    assert(t[k] == p);
                } else {
                    assert(t[k + 1] == p);
                }
            }
            if p == x@ {
                assert(t[j as int] == p);
            }
        }
    }
}

fn contains_text(found: &Vec<String>, x: &String) -> (present: bool)
    ensures
        present == texts(found@).contains(x@),
{
    let mut k: usize = 0;
    while k < found.len()
        invariant
            k <= found@.len(),
            forall|i: int| 0 <= i < k ==> found@[i]@ != x@,
        decreases found.len() - k,
    {
        if found[k] == *x {
            assert(texts(found@)[k as int] == x@);
            return true;
        }
        k = k + 1;
    }
    proof {
        if texts(found@).contains(x@) {
            let i = choose|i: int| 0 <= i < texts(found@).len() && texts(found@)[i] == x@;
            assert(found@[i]@ == x@);
        }
    }
    false
}

fn add_differing(
    before: &Vec<TreeFile>,
    after: &Vec<TreeFile>,
    candidates: &Vec<TreeFile>,
    found: &mut Vec<String>,
)
    requires
        strictly_ordered(texts(old(found)@)),
        forall|p: Seq<char>| #[trigger] texts(old(found)@).contains(p) ==> differs(before@, after@, p),
    ensures
        strictly_ordered(texts(final(found)@)),
        forall|p: Seq<char>| #[trigger] texts(final(found)@).contains(p) ==> differs(before@, after@, p),
        forall|p: Seq<char>| #[trigger] texts(old(found)@).contains(p) ==> texts(final(found)@).contains(p),
        forall|i: int|
            0 <= i < candidates@.len() && differs(before@, after@, (#[trigger] candidates@[i]).path@)
                ==> texts(final(found)@).contains(candidates@[i].path@),
{
    let ghost start = found@;
    let mut k: usize = 0;
    while k < candidates.len()
        invariant
            k <= candidates@.len(),
            strictly_ordered(texts(found@)),
            forall|p: Seq<char>| #[trigger] texts(found@).contains(p) ==> differs(before@, after@, p),
            forall|p: Seq<char>| #[trigger] texts(start).contains(p) ==> texts(found@).contains(p),
            forall|i: int|
                0 <= i < k && differs(before@, after@, (#[trigger] candidates@[i]).path@)
                    ==> texts(found@).contains(candidates@[i].path@),
        decreases candidates.len() - k,
    {
        let path = &candidates[k].path;
        if path_differs(before, after, path) && !contains_text(found, path) {
            insert_text_sorted(found, path.clone());
        }
        k = k + 1;
    }
}

/// The changed paths of a snapshot commit: every path that differs between
/// the parent's tree and the new tree, once, in string order.
pub fn snapshot_changed_paths(before: &Vec<TreeFile>, after: &Vec<TreeFile>) -> (changed: Vec<
    String,
>)
    ensures
        strictly_ordered(texts(changed@)),
        forall|p: Seq<char>| #[trigger] texts(changed@).contains(p) <==> differs(before@, after@, p),
{
    let mut found: Vec<String> = Vec::new();
    assert(texts(found@) =~= Seq::<Seq<char>>::empty());
    add_differing(before, after, before, &mut found);
    add_differing(before, after, after, &mut found);
    proof {
        assert forall|p: Seq<char>| differs(before@, after@, p) implies #[trigger] texts(
            found@,
        ).contains(p) by {
            if recorded(before@, p) is Some {
                lemma_recorded_some(before@, p, 0);
                let i = choose|i: int| 0 <= i < before@.len() && (#[trigger] before@[i]).path@ == p;
                assert(differs(before@, after@, before@[i].path@));
            } else {
                lemma_recorded_some(after@, p, 0);
                let i = choose|i: int| 0 <= i < after@.len() && (#[trigger] after@[i]).path@ == p;
                assert(differs(before@, after@, after@[i].path@));
            }
        }
    }
    found
}

/// The outcome of a snapshot commit.
pub fn snapshot_commit(
    commit: String,
    tree: String,
    before: &Vec<TreeFile>,
    after: &Vec<TreeFile>,
) -> (outcome: SnapshotCommit)
    ensures
        outcome.commit == commit,
        outcome.tree == tree,
        strictly_ordered(texts(outcome.changed_paths@)),
        forall|p: Seq<char>| #[trigger] texts(outcome.changed_paths@).contains(p) <==> differs(
            before@,
            after@,
            p,
        ),
{
    SnapshotCommit { commit, tree, changed_paths: snapshot_changed_paths(before, after) }
}

} // verus!

