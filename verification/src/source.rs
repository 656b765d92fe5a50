//! The source directory of a commit, as a listing, and the walk over it that
//! decides which files are committed or why the directory is refused.
//!
//! The walk visits the entries of every directory sorted by name, depth
//! first; that is the order of the listing sorted by `components_compare`.

use vstd::prelude::*;
use vstd::utf8::{decode_utf8, valid_utf8};

use crate::error::CommitError;
use crate::order::{
    components_compare, compare_components, insertion_sort, lemma_insert_position,
};
use crate::text::utf8_string;

verus! {

/// What a file-system entry is, as seen without following symbolic links.
#[derive(Clone, Copy, Debug, PartialEq, Eq)]
pub enum SourceKind {
    File,
    Directory,
    Symlink,
    Other,
}

/// One entry below the source directory: its path relative to the source
/// directory, component by component, and its kind.
#[derive(Debug)]
pub struct SourceEntry {
    pub components: Vec<Vec<u8>>,
    pub kind: SourceKind,
}

/// Why the walk refuses an entry.
#[derive(Clone, Copy, Debug, PartialEq, Eq)]
pub enum Refusal {
    GitMetadata,
    SymbolicLink,
    UnsupportedEntry,
    NonUtf8Path,
}

/// The relative path of an entry, component by component.
pub open spec fn entry_path(e: SourceEntry) -> Seq<Seq<u8>> {
    e.components.deep_view()
}

/// Walk order of entries.
pub open spec fn entry_leq() -> spec_fn(SourceEntry, SourceEntry) -> bool {
    |a: SourceEntry, b: SourceEntry| components_compare(entry_path(a), entry_path(b)) <= 0
}

/// The entries in the order in which the walk visits them.
pub open spec fn walk_order(entries: Seq<SourceEntry>) -> Seq<SourceEntry> {
    insertion_sort(entries, entry_leq())
}

/// Components joined with `/`.
pub open spec fn joined(components: Seq<Seq<u8>>) -> Seq<u8>
    decreases components.len(),
{
    if components.len() == 0 {
        seq![]
    } else if components.len() == 1 {
        components[0]
    } else {
        joined(components.drop_last()) + seq![47u8] + components.last()
    }
}

/// The name `.git`.
pub open spec fn git_dir_name() -> Seq<u8> {
    seq![46u8, 103u8, 105u8, 116u8]
}

/// Where the walk looks for Git metadata (an entry named `.git`).
#[derive(Clone, Copy, Debug, PartialEq, Eq)]
pub enum MetadataScope {
    /// Only at the top level of the source directory.
    TopLevel,
    /// At any depth: the source must not contain Git metadata at all.
    AnyDepth,
}

/// `path` names Git metadata within `scope`: its last component is `.git`,
/// and for `TopLevel` it has no other component.
pub open spec fn is_git_metadata(path: Seq<Seq<u8>>, scope: MetadataScope) -> bool {
    match scope {
        MetadataScope::TopLevel => path.len() == 1 && path[0] == git_dir_name(),
        MetadataScope::AnyDepth => path.len() > 0 && path.last() == git_dir_name(),
    }
}

/// Why the walk refuses `e`, if it does: Git metadata within `scope`,
/// whatever its kind; a symbolic link; anything but a file or directory; a
/// file whose relative path is not UTF-8.
pub open spec fn refusal(e: SourceEntry, scope: MetadataScope) -> Option<Refusal> {
    let p = entry_path(e);
    if is_git_metadata(p, scope) {
        Some(Refusal::GitMetadata)
    } else {
        match e.kind {
            SourceKind::Symlink => Some(Refusal::SymbolicLink),
            SourceKind::Directory => None,
            SourceKind::Other => Some(Refusal::UnsupportedEntry),
            SourceKind::File => if valid_utf8(joined(p)) {
                None
            } else {
                Some(Refusal::NonUtf8Path)
            },
        }
    }
}

/// `err` reports refusal `r` of the entry at `path`.
pub open spec fn reports(err: CommitError, r: Refusal, path: Seq<u8>) -> bool {
    match r {
        Refusal::GitMetadata => err matches CommitError::GitMetadata(p) && p@ == path,
        Refusal::SymbolicLink => err matches CommitError::SymbolicLink(p) && p@ == path,
        Refusal::UnsupportedEntry => err matches CommitError::UnsupportedEntry(p) && p@ == path,
        Refusal::NonUtf8Path => err matches CommitError::NonUtf8Path(p) && p@ == path,
    }
}

/// `order[i]` is the first refused entry.
pub open spec fn first_refused(order: Seq<SourceEntry>, scope: MetadataScope, i: int) -> bool {
    &&& 0 <= i < order.len()
    &&& refusal(order[i], scope) is Some
    &&& forall|k: int| 0 <= k < i ==> refusal(#[trigger] order[k], scope) is None
}

/// No entry is refused.
pub open spec fn none_refused(order: Seq<SourceEntry>, scope: MetadataScope) -> bool {
    forall|k: int| 0 <= k < order.len() ==> refusal(#[trigger] order[k], scope) is None
}

/// The relative paths of the files among `order`, in that order.
pub open spec fn accepted_files(order: Seq<SourceEntry>) -> Seq<Seq<char>>
    decreases order.len(),
{
    if order.len() == 0 {
        seq![]
    } else {
        accepted_files(order.drop_last()) + if order.last().kind is File {
            seq![decode_utf8(joined(entry_path(order.last())))]
        } else {
            seq![]
        }
    }
}

/// The views of some strings.
pub open spec fn texts(strings: Seq<String>) -> Seq<Seq<char>> {
    strings.map_values(|s: String| s@)
}

/// Joins the components of a path with `/`.
pub fn join_components(components: &Vec<Vec<u8>>) -> (path: Vec<u8>)
    ensures
        path@ == joined(components.deep_view()),
{
    let ghost c = components.deep_view();
    let mut path: Vec<u8> = Vec::new();
    let mut k: usize = 0;
    while k < components.len()
        invariant
            k <= components.len(),
            c == components.deep_view(),
            path@ == joined(c.take(k as int)),
        decreases components.len() - k,
    {
        let ghost before = path@;
        if k > 0 {
            path.push(47u8);
        }
        let part = &components[k];
        let mut b: usize = 0;
        while b < part.len()
            invariant
                b <= part.len(),
                path@ == (if k > 0 { before + seq![47u8] } else { before }) + part@.take(
                    b as int,
                ),
            decreases part.len() - b,
        {
            path.push(part[b]);
            b = b + 1;
            assert(part@.take(b as int) =~= part@.take(b - 1).push(part@[b - 1]));
        }
        proof {
            assert(part@.take(b as int) =~= part@);
            assert(c[k as int] == part@);
            assert(c.take(k + 1).drop_last() =~= c.take(k as int));
            if k == 0 {
                assert(c.take(1) =~= seq![c[0]]);
            }
        }
        k = k + 1;
    }
    assert(c.take(k as int) =~= c);
    path
}

fn is_git_dir_name(name: &Vec<u8>) -> (b: bool)
    ensures
        b == (name@ == git_dir_name()),
{
    let b = name.len() == 4 && name[0] == 46u8 && name[1] == 103u8 && name[2] == 105u8 && name[3]
        == 116u8;
    if b {
        assert(name@ =~= git_dir_name());
    }
    b
}

/// Visits one entry: refuses it, or accepts it and, for a file, gives its
/// relative path as text.
pub fn visit_entry(entry: &SourceEntry, scope: MetadataScope) -> (visited: Result<
    Option<String>,
    CommitError,
>)
    ensures
        match refusal(*entry, scope) {
            Some(r) => visited matches Err(e) && reports(e, r, joined(entry_path(*entry))),
            None => visited matches Ok(file) && match file {
                Some(f) => entry.kind is File && f@ == decode_utf8(joined(entry_path(*entry))),
                None => !(entry.kind is File),
            },
        },
{
    let path = join_components(&entry.components);
    let n = entry.components.len();
    let metadata = match scope {
        MetadataScope::TopLevel => n == 1 && is_git_dir_name(&entry.components[0]),
        MetadataScope::AnyDepth => n > 0 && is_git_dir_name(&entry.components[n - 1]),
    };
    proof {
        if n > 0 {
            assert(entry_path(*entry).last() == entry.components@[n - 1]@);
            assert(entry_path(*entry)[0] == entry.components@[0]@);
        }
    }
    if metadata {
        return Err(CommitError::GitMetadata(path));
    }
    match entry.kind {
        SourceKind::Symlink => Err(CommitError::SymbolicLink(path)),
        SourceKind::Directory => Ok(None),
        SourceKind::Other => Err(CommitError::UnsupportedEntry(path)),
        SourceKind::File => {
            let kept = path.clone();
            match utf8_string(path) {
                Some(text) => Ok(Some(text)),
                None => Err(CommitError::NonUtf8Path(kept)),
            }
        },
    }
}

/// Whether the walk goes below `entry`: it is a directory that the walk
/// does not refuse. Below other entries there is nothing to list.
pub fn descends_into(entry: &SourceEntry, scope: MetadataScope) -> (descends: bool)
    ensures
        descends == (entry.kind is Directory && refusal(*entry, scope) is None),
{
    match entry.kind {
        SourceKind::Directory => visit_entry(entry, scope).is_ok(),
        _ => false,
    }
}

/// Sorts a listing into walk order.
pub fn sort_entries(entries: Vec<SourceEntry>) -> (sorted: Vec<SourceEntry>)
    ensures
        sorted@ == walk_order(entries@),
{
    let ghost input = entries@;
    let total = entries.len();
    let mut rest = entries;
    let mut sorted: Vec<SourceEntry> = Vec::new();
    let mut i: usize = 0;
    while rest.len() > 0
        invariant
            i + rest@.len() == input.len(),
            input.len() == total,
            rest@ == input.skip(i as int),
            sorted@ == insertion_sort(input.take(i as int), entry_leq()),
        decreases rest@.len(),
    {
        let x = rest.remove(0);
        let ghost before = sorted@;
        let mut j: usize = sorted.len();
        while j > 0 && compare_components(&sorted[j - 1].components, &x.components) > 0
            invariant
                j <= sorted@.len(),
                sorted@ == before,
                forall|k: int| j <= k < before.len() ==> !entry_leq()(#[trigger] before[k], x),
            decreases j,
        {
            j = j - 1;
        }
        proof {
            lemma_insert_position(before, x, entry_leq(), j as int);
            assert(input.take(i + 1) =~= input.take(i as int).push(x));
            assert(input.take(i + 1).drop_last() =~= input.take(i as int));
        }
        sorted.insert(j, x);
        assert(sorted@ =~= before.take(j as int).push(x) + before.skip(j as int));
        i = i + 1;
        assert(rest@ =~= input.skip(i as int));
    }
    assert(input.take(i as int) =~= input);
    sorted
}

/// The walk over a listing already in walk order.
pub fn walk_sorted(order: &Vec<SourceEntry>, scope: MetadataScope) -> (walked: Result<
    Vec<String>,
    CommitError,
>)
    ensures
        match walked {
            Ok(files) => none_refused(order@, scope) && texts(files@) == accepted_files(order@),
            Err(e) => exists|i: int|
                #![trigger first_refused(order@, scope, i)]
                first_refused(order@, scope, i) && reports(
                    e,
                    refusal(order@[i], scope)->0,
                    joined(entry_path(order@[i])),
                ),
        },
{
    let mut files: Vec<String> = Vec::new();
    let mut i: usize = 0;
    while i < order.len()
        invariant
            i <= order@.len(),
            forall|k: int| 0 <= k < i ==> refusal(#[trigger] order@[k], scope) is None,
            texts(files@) == accepted_files(order@.take(i as int)),
        decreases order.len() - i,
    {
        let visited = visit_entry(&order[i], scope);
        proof {
            assert(order@.take(i + 1).drop_last() =~= order@.take(i as int));
            assert(order@.take(i + 1).last() == order@[i as int]);
        }
        match visited {
            Err(e) => {
                assert(first_refused(order@, scope, i as int));
                return Err(e);
            },
            Ok(None) => {
                assert(accepted_files(order@.take(i + 1)) =~= accepted_files(
                    order@.take(i as int),
                ));
            },
            Ok(Some(f)) => {
                let ghost before = files@;
                files.push(f);
                assert(texts(files@) =~= texts(before).push(f@));
            },
        }
        i = i + 1;
    }
    assert(order@.take(i as int) =~= order@);
    Ok(files)
}

/// Decides what a commit of the source directory holds: the relative paths
/// of its files in walk order, or the refusal of the first entry that the
/// walk refuses, Git metadata being looked for within `scope`. A source root
/// that is not a real directory is refused first.
pub fn plan_source_files(root: SourceKind, entries: Vec<SourceEntry>, scope: MetadataScope) -> (planned: Result<
    Vec<String>,
    CommitError,
>)
    ensures
        !(root is Directory) ==> (planned matches Err(CommitError::NotADirectory(p)) && p@.len() == 0),
        root is Directory ==> ({
            let order = walk_order(entries@);
            match planned {
                Ok(files) => none_refused(order, scope) && texts(files@) == accepted_files(order),
                Err(e) => exists|i: int|
                    #![trigger first_refused(order, scope, i)]
                    first_refused(order, scope, i) && reports(
                        e,
                        refusal(order[i], scope)->0,
                        joined(entry_path(order[i])),
                    ),
            }
        }),
{
    match root {
        SourceKind::Directory => {},
        _ => {
            return Err(CommitError::NotADirectory(Vec::new()));
        },
    }
    let order = sort_entries(entries);
    walk_sorted(&order, scope)
}

} // verus!
