//! Properties that hold across the library's functions.

use vstd::prelude::*;
use vstd::multiset::Multiset;
use vstd::relations::{sorted_by, strongly_connected, transitive};
use vstd::utf8::{decode_utf8, decode_utf8_encode_utf8, encode_utf8, valid_utf8};

use crate::commit::{
    differs, entry_paths, recorded, recorded_from, strictly_ordered, text_before, TreeFile,
};
use crate::order::{
    byte_order, bytes_compare, insert_in_order, insertion_sort,
    lemma_encode_injective, lemma_insertion_sort,
    lemma_orders_total, lemma_text_leq_total, lex_compare, lex_compare_from, lex_order, text_leq,
};
use crate::source::{
    accepted_files, entry_leq, entry_path, joined, none_refused, refusal, texts, walk_order,
    MetadataScope, Refusal, SourceEntry, SourceKind,
};
use crate::text::{decimal_digits, digit_char, signature_time};
use crate::validate::has_prefix;

verus! {

broadcast use vstd::seq_lib::group_to_multiset_ensures;

/// The walk order is a total preorder on entries.
pub proof fn lemma_entry_leq_total()
    ensures
        strongly_connected(entry_leq()),
        transitive(entry_leq()),
{
    lemma_orders_total();
    let lc = lex_order(lex_order(byte_order()));
    assert forall|x: SourceEntry, y: SourceEntry| #[trigger] entry_leq()(x, y) || #[trigger] entry_leq()(
        y,
        x,
    ) by {
        assert(lc(entry_path(x), entry_path(y)) == -lc(entry_path(y), entry_path(x)));
    }
    assert forall|x: SourceEntry, y: SourceEntry, z: SourceEntry|
        #[trigger] entry_leq()(x, y) && #[trigger] entry_leq()(y, z) implies entry_leq()(x, z) by {
        assert(lc(entry_path(x), entry_path(y)) <= 0 && lc(entry_path(y), entry_path(z)) <= 0);
    }
}

/// The walk visits every entry of the listing once, each directory's
/// entries sorted by name and before what lies below them: the walk order
/// is the listing, sorted by component paths.
pub proof fn law_walk_visits_every_entry_in_order(entries: Seq<SourceEntry>)
    ensures
        sorted_by(walk_order(entries), entry_leq()),
        walk_order(entries).to_multiset() == entries.to_multiset(),
        walk_order(entries).len() == entries.len(),
{
    lemma_entry_leq_total();
    lemma_insertion_sort(entries, entry_leq());
}

/// A source directory is accepted exactly when none of its entries is
/// refused: no Git metadata (`.git`) within the scope, no symbolic link,
/// nothing but files and directories, and only UTF-8 file paths.
pub proof fn law_accepted_iff_no_entry_refused(entries: Seq<SourceEntry>, scope: MetadataScope)
    ensures
        none_refused(walk_order(entries), scope) <==> forall|i: int|
            0 <= i < entries.len() ==> refusal(#[trigger] entries[i], scope) is None,
{
    law_walk_visits_every_entry_in_order(entries);
    let order = walk_order(entries);
    if none_refused(order, scope) {
        assert forall|i: int| 0 <= i < entries.len() implies refusal(
            #[trigger] entries[i],
            scope,
        ) is None by {
            assert(entries.to_multiset().count(entries[i]) > 0);
            assert(order.contains(entries[i]));
            let k = choose|k: int| 0 <= k < order.len() && order[k] == entries[i];
            assert(refusal(order[k], scope) is None);
        }
    }
    if forall|i: int| 0 <= i < entries.len() ==> refusal(#[trigger] entries[i], scope) is None {
        assert forall|k: int| 0 <= k < order.len() implies refusal(
            #[trigger] order[k],
            scope,
        ) is None by {
            assert(order.to_multiset().count(order[k]) > 0);
            assert(entries.contains(order[k]));
            let i = choose|i: int| 0 <= i < entries.len() && entries[i] == order[k];
            assert(refusal(entries[i], scope) is None);
        }
    }
}

proof fn lemma_accepted_files_members(order: Seq<SourceEntry>, p: Seq<char>)
    ensures
        accepted_files(order).contains(p) <==> exists|k: int|
            0 <= k < order.len() && (#[trigger] order[k]).kind is File && p == decode_utf8(
                joined(entry_path(order[k])),
            ),
    decreases order.len(),
{
    if order.len() > 0 {
        let rest = order.drop_last();
        lemma_accepted_files_members(rest, p);
        let last = order.last();
        let tail = if last.kind is File {
            seq![decode_utf8(joined(entry_path(last)))]
        } else {
            seq![]
        };
        let whole = accepted_files(rest) + tail;
        assert(accepted_files(order) == whole);
        if whole.contains(p) {
            let j = choose|j: int| 0 <= j < whole.len() && whole[j] == p;
            if j < accepted_files(rest).len() {
                assert(accepted_files(rest)[j] == p);
                let k = choose|k: int|
                    0 <= k < rest.len() && (#[trigger] rest[k]).kind is File && p == decode_utf8(
                        joined(entry_path(rest[k])),
                    );
                assert(order[k] == rest[k]);
            } else {
                assert(order[order.len() - 1] == last);
            }
        }
        if exists|k: int|
            0 <= k < order.len() && (#[trigger] order[k]).kind is File && p == decode_utf8(
                joined(entry_path(order[k])),
            ) {
            let k = choose|k: int|
                0 <= k < order.len() && (#[trigger] order[k]).kind is File && p == decode_utf8(
                    joined(entry_path(order[k])),
                );
            if k < rest.len() {
                assert(rest[k] == order[k]);
                assert(accepted_files(rest).contains(p));
                let j = choose|j: int|
                    0 <= j < accepted_files(rest).len() && accepted_files(rest)[j] == p;
                assert(whole[j] == p);
            } else {
                assert(whole[accepted_files(rest).len() as int] == p);
            }
        }
    }
}

/// An accepted source directory commits exactly its files: a path is among
/// the planned files if and only if it is the relative path of a file of
/// the listing.
pub proof fn law_every_file_is_committed(entries: Seq<SourceEntry>, p: Seq<char>)
    ensures
        accepted_files(walk_order(entries)).contains(p) <==> exists|i: int|
            0 <= i < entries.len() && (#[trigger] entries[i]).kind is File && p == decode_utf8(
                joined(entry_path(entries[i])),
            ),
{
    law_walk_visits_every_entry_in_order(entries);
    let order = walk_order(entries);
    lemma_accepted_files_members(order, p);
    if accepted_files(order).contains(p) {
        let k = choose|k: int|
            0 <= k < order.len() && (#[trigger] order[k]).kind is File && p == decode_utf8(
                joined(entry_path(order[k])),
            );
        assert(order.to_multiset().count(order[k]) > 0);
        assert(entries.contains(order[k]));
        let i = choose|i: int| 0 <= i < entries.len() && entries[i] == order[k];
        assert(entries[i].kind is File);
    }
    if exists|i: int|
        0 <= i < entries.len() && (#[trigger] entries[i]).kind is File && p == decode_utf8(
            joined(entry_path(entries[i])),
        ) {
        let i = choose|i: int|
            0 <= i < entries.len() && (#[trigger] entries[i]).kind is File && p == decode_utf8(
                joined(entry_path(entries[i])),
            );
        assert(entries.to_multiset().count(entries[i]) > 0);
        assert(order.contains(entries[i]));
        let k = choose|k: int| 0 <= k < order.len() && order[k] == entries[i];
        assert(order[k].kind is File);
    }
}

proof fn lemma_encode_concat(a: Seq<char>, b: Seq<char>)
    ensures
        encode_utf8(a + b) == encode_utf8(a) + encode_utf8(b),
    decreases a.len(),
{
    if a.len() == 0 {
        assert(a + b =~= b);
    } else {
        lemma_encode_concat(a.drop_first(), b);
        assert((a + b).drop_first() =~= a.drop_first() + b);
        assert((a + b)[0] == a[0]);
    }
}

proof fn lemma_compare_common_prefix(p: Seq<u8>, a: Seq<u8>, b: Seq<u8>, i: int)
    requires
        0 <= i <= p.len(),
    ensures
        lex_compare_from(p + a, p + b, byte_order(), i) == lex_compare(a, b, byte_order()),
    decreases p.len() - i,
{
    if i < p.len() {
        lemma_compare_common_prefix(p, a, b, i + 1);
        assert((p + a)[i] == (p + b)[i]);
    } else {
        lemma_compare_shift(p, a, b, 0);
    }
}

proof fn lemma_compare_shift(p: Seq<u8>, a: Seq<u8>, b: Seq<u8>, k: int)
    requires
        0 <= k,
    ensures
        lex_compare_from(p + a, p + b, byte_order(), p.len() + k) == lex_compare_from(
            a,
            b,
            byte_order(),
            k,
        ),
    decreases a.len() - k,
{
    if k < a.len() && k < b.len() {
        assert((p + a)[p.len() + k] == a[k]);
        assert((p + b)[p.len() + k] == b[k]);
        lemma_compare_shift(p, a, b, k + 1);
    }
}

/// The order of `str`, on texts.
pub open spec fn text_order() -> spec_fn(Seq<char>, Seq<char>) -> bool {
    |a: Seq<char>, b: Seq<char>| bytes_compare(encode_utf8(a), encode_utf8(b)) <= 0
}

/// The changed paths of a directory commit are in string order, and each is
/// a committed file under the root entry.
pub proof fn law_directory_paths_sorted_under_entry(root_entry: Seq<char>, files: Seq<String>)
    ensures
        sorted_by(entry_paths(root_entry, files), text_order()),
        forall|i: int|
            0 <= i < entry_paths(root_entry, files).len() ==> has_prefix(
                #[trigger] entry_paths(root_entry, files)[i],
                root_entry + seq!['/'],
            ),
        entry_paths(root_entry, files).len() == files.len(),
{
    lemma_text_leq_total();
    lemma_insertion_sort(files, text_leq());
    let sorted = insertion_sort(files, text_leq());
    let paths = entry_paths(root_entry, files);
    let prefix = root_entry + seq!['/'];
    assert forall|i: int, j: int| 0 <= i < j < paths.len() implies #[trigger] bytes_compare(
        encode_utf8(paths[i]),
        encode_utf8(paths[j]),
    ) <= 0 by {
        let a = sorted[i]@;
        let b = sorted[j]@;
        assert(text_leq()(sorted[i], sorted[j]));
        assert(paths[i] == prefix + a);
        assert(paths[j] == prefix + b);
        lemma_encode_concat(prefix, a);
        lemma_encode_concat(prefix, b);
        lemma_compare_common_prefix(encode_utf8(prefix), encode_utf8(a), encode_utf8(b), 0);
    }
    assert forall|i: int| 0 <= i < paths.len() implies has_prefix(
        #[trigger] paths[i],
        prefix,
    ) by {
        assert(paths[i] == prefix + sorted[i]@);
        assert(paths[i].take(prefix.len() as int) =~= prefix);
    }
}

/// A snapshot commit reports additions, modifications and deletions, and
/// nothing else: a path added to or deleted from the tree, or whose object or
/// mode changed, is reported; a path that both trees record alike is not.
pub proof fn law_snapshot_reports_changes(
    before: Seq<TreeFile>,
    after: Seq<TreeFile>,
    path: Seq<char>,
)
    ensures
        recorded(before, path) is None && recorded(after, path) is Some ==> differs(
            before,
            after,
            path,
        ),
        recorded(before, path) is Some && recorded(after, path) is None ==> differs(
            before,
            after,
            path,
        ),
        recorded(before, path) is Some && recorded(after, path) is Some && recorded(before, path)
            != recorded(after, path) ==> differs(before, after, path),
        recorded(before, path) == recorded(after, path) ==> !differs(before, after, path),
{
}

/// No two entries of a listing have the same path.
pub open spec fn distinct_paths(entries: Seq<SourceEntry>) -> bool {
    forall|i: int, j: int|
        0 <= i < entries.len() && 0 <= j < entries.len() && i != j ==> entry_path(
            #[trigger] entries[i],
        ) != entry_path(#[trigger] entries[j])
}

/// No two files of a tree listing have the same path.
pub open spec fn distinct_tree_paths(files: Seq<TreeFile>) -> bool {
    forall|i: int, j: int|
        0 <= i < files.len() && 0 <= j < files.len() && i != j ==> (#[trigger] files[i]).path@
            != (#[trigger] files[j]).path@
}

proof fn lemma_insert_cancel<V>(m1: Multiset<V>, m2: Multiset<V>, x: V)
    requires
        m1.insert(x) == m2.insert(x),
    ensures
        m1 == m2,
{
    broadcast use vstd::multiset::group_multiset_axioms;

    assert forall|y: V| m1.count(y) == m2.count(y) by {
        vstd::multiset::lemma_insert_increases_count_by_1(m1, x);
        vstd::multiset::lemma_insert_increases_count_by_1(m2, x);
        if y != x {
            vstd::multiset::lemma_insert_other_elements_unchanged(m1, x, y);
            vstd::multiset::lemma_insert_other_elements_unchanged(m2, x, y);
        }
    }
    assert(m1 =~= m2);
}

/// Two sequences sorted by the same order, with the same elements, are the
/// same sequence when the order does not tie two distinct elements.
proof fn lemma_sorted_unique<T>(s: Seq<T>, t: Seq<T>, leq: spec_fn(T, T) -> bool)
    requires
        sorted_by(s, leq),
        sorted_by(t, leq),
        s.to_multiset() == t.to_multiset(),
        forall|x: T, y: T|
            s.contains(x) && s.contains(y) && #[trigger] leq(x, y) && #[trigger] leq(y, x) ==> x
                == y,
    ensures
        s == t,
    decreases s.len(),
{
    assert(s.to_multiset().len() == s.len());
    assert(t.to_multiset().len() == t.len());
    if s.len() > 0 {
        let n = s.len() - 1;
        let x = s[n];
        let y = t[n];
        assert(t.to_multiset().count(y) > 0);
        assert(s.contains(y));
        let k = choose|k: int| 0 <= k < s.len() && s[k] == y;
        assert(s.to_multiset().count(x) > 0);
        assert(t.contains(x));
        let l = choose|l: int| 0 <= l < t.len() && t[l] == x;
        if x != y {
            assert(k != n);
            assert(leq(s[k], s[n]));
            assert(l != n);
            assert(leq(t[l], t[n]));
            assert(s.contains(x) && s.contains(y));
        }
        let s0 = s.drop_last();
        let t0 = t.drop_last();
        assert(s =~= s0.push(x));
        assert(t =~= t0.push(x));
        lemma_insert_cancel(s0.to_multiset(), t0.to_multiset(), x);
        assert forall|a: T, b: T|
            s0.contains(a) && s0.contains(b) && #[trigger] leq(a, b) && #[trigger] leq(b, a)
                implies a == b by {
            let i = choose|i: int| 0 <= i < s0.len() && s0[i] == a;
            let j = choose|j: int| 0 <= j < s0.len() && s0[j] == b;
            assert(s[i] == a && s[j] == b);
        }
        lemma_sorted_unique(s0, t0, leq);
    }
}

/// The walk does not depend on the order in which the directory was listed:
/// two listings of the same entries, with no path twice, are walked in the
/// same order, so they plan the same files or are refused at the same entry.
pub proof fn law_walk_independent_of_listing_order(a: Seq<SourceEntry>, b: Seq<SourceEntry>)
    requires
        a.to_multiset() == b.to_multiset(),
        distinct_paths(a),
    ensures
        walk_order(a) == walk_order(b),
        accepted_files(walk_order(a)) == accepted_files(walk_order(b)),
{
    law_walk_visits_every_entry_in_order(a);
    law_walk_visits_every_entry_in_order(b);
    lemma_orders_total();
    let wa = walk_order(a);
    assert forall|x: SourceEntry, y: SourceEntry|
        wa.contains(x) && wa.contains(y) && #[trigger] entry_leq()(x, y) && #[trigger] entry_leq()(
            y,
            x,
        ) implies x == y by {
        let lc = lex_order(lex_order(byte_order()));
        assert(lc(entry_path(x), entry_path(y)) == -lc(entry_path(y), entry_path(x)));
        assert(lc(entry_path(x), entry_path(y)) == 0);
        assert(entry_path(x) == entry_path(y));
        assert(wa.to_multiset().count(x) > 0 && wa.to_multiset().count(y) > 0);
        assert(a.contains(x) && a.contains(y));
        let i = choose|i: int| 0 <= i < a.len() && a[i] == x;
        let j = choose|j: int| 0 <= j < a.len() && a[j] == y;
        if i != j {
            assert(entry_path(a[i]) != entry_path(a[j]));
        }
    }
    lemma_sorted_unique(wa, walk_order(b), entry_leq());
}

proof fn lemma_recorded_at(files: Seq<TreeFile>, path: Seq<char>, k: int)
    requires
        0 <= k,
        distinct_tree_paths(files),
    ensures
        forall|i: int| k <= i < files.len() && (#[trigger] files[i]).path@ == path ==> recorded_from(
            files,
            path,
            k,
        ) == Some((files[i].id@, files[i].mode)),
        (forall|i: int| k <= i < files.len() ==> (#[trigger] files[i]).path@ != path)
            ==> recorded_from(files, path, k) is None,
    decreases files.len() - k,
{
    if k < files.len() {
        lemma_recorded_at(files, path, k + 1);
    }
}

/// What a tree listing records at a path does not depend on the order of
/// the listing, when no path occurs twice.
pub proof fn law_recorded_independent_of_order(a: Seq<TreeFile>, b: Seq<TreeFile>, path: Seq<char>)
    requires
        a.to_multiset() == b.to_multiset(),
        distinct_tree_paths(a),
        distinct_tree_paths(b),
    ensures
        recorded(a, path) == recorded(b, path),
{
    lemma_recorded_at(a, path, 0);
    lemma_recorded_at(b, path, 0);
    if exists|i: int| 0 <= i < a.len() && (#[trigger] a[i]).path@ == path {
        let i = choose|i: int| 0 <= i < a.len() && (#[trigger] a[i]).path@ == path;
        assert(a.to_multiset().count(a[i]) > 0);
        assert(b.contains(a[i]));
        let j = choose|j: int| 0 <= j < b.len() && b[j] == a[i];
        assert(b[j].path@ == path);
    } else if exists|j: int| 0 <= j < b.len() && (#[trigger] b[j]).path@ == path {
        let j = choose|j: int| 0 <= j < b.len() && (#[trigger] b[j]).path@ == path;
        assert(b.to_multiset().count(b[j]) > 0);
        assert(a.contains(b[j]));
        let i = choose|i: int| 0 <= i < a.len() && a[i] == b[j];
        assert(a[i].path@ == path);
    }
}

proof fn lemma_text_before_asymmetric(x: Seq<char>, y: Seq<char>)
    ensures
        !(text_before(x, y) && text_before(y, x)),
        !text_before(x, x),
{
    lemma_orders_total();
    let lc = lex_order(byte_order());
    assert(lc(encode_utf8(x), encode_utf8(y)) == -lc(encode_utf8(y), encode_utf8(x)));
    assert(lc(encode_utf8(x), encode_utf8(x)) == -lc(encode_utf8(x), encode_utf8(x)));
}

/// Strictly ordered texts are determined by which texts they hold: a
/// snapshot's changed paths depend only on which paths differ, not on the
/// order in which the two trees were listed.
pub proof fn law_ordered_texts_unique(s: Seq<Seq<char>>, t: Seq<Seq<char>>)
    requires
        strictly_ordered(s),
        strictly_ordered(t),
        forall|p: Seq<char>| #[trigger] s.contains(p) <==> t.contains(p),
    ensures
        s == t,
    decreases s.len() + t.len(),
{
    if s.len() == 0 {
        if t.len() > 0 {
            assert(t.contains(t[0]));
            assert(!s.contains(t[0]));
        }
        assert(s =~= t);
    } else if t.len() == 0 {
        assert(s.contains(s[0]));
    } else {
        let x = s.last();
        let y = t.last();
        assert(s.contains(x));
        assert(t.contains(x));
        assert(t.contains(y));
        assert(s.contains(y));
        let k = choose|k: int| 0 <= k < s.len() && s[k] == y;
        let l = choose|l: int| 0 <= l < t.len() && t[l] == x;
        if x != y {
            assert(k != s.len() - 1);
            assert(text_before(s[k], s[s.len() - 1]));
            assert(l != t.len() - 1);
            assert(text_before(t[l], t[t.len() - 1]));
            lemma_text_before_asymmetric(x, y);
        }
        let s0 = s.drop_last();
        let t0 = t.drop_last();
        assert forall|p: Seq<char>| #[trigger] s0.contains(p) <==> t0.contains(p) by {
            if s0.contains(p) {
                let i = choose|i: int| 0 <= i < s0.len() && s0[i] == p;
                assert(s[i] == p);
                assert(s.contains(p));
                assert(text_before(s[i], s[s.len() - 1]));
                lemma_text_before_asymmetric(p, x);
                assert(p != x);
                assert(t.contains(p));
                let j = choose|j: int| 0 <= j < t.len() && t[j] == p;
                assert(j != t.len() - 1);
                assert(t0[j] == p);
            }
            if t0.contains(p) {
                let j = choose|j: int| 0 <= j < t0.len() && t0[j] == p;
                assert(t[j] == p);
                assert(t.contains(p));
                assert(text_before(t[j], t[t.len() - 1]));
                lemma_text_before_asymmetric(p, x);
                assert(p != x);
                assert(s.contains(p));
                let i = choose|i: int| 0 <= i < s.len() && s[i] == p;
                assert(i != s.len() - 1);
                assert(s0[i] == p);
            }
        }
        law_ordered_texts_unique(s0, t0);
        assert(s =~= s0.push(x));
        assert(t =~= t0.push(x));
    }
}

/// When the committed files are distinct texts, the changed paths of a
/// directory commit are strictly ordered: sorted, and no path twice.
pub proof fn law_directory_paths_strictly_ordered(root_entry: Seq<char>, files: Seq<String>)
    requires
        forall|i: int, j: int|
            0 <= i < files.len() && 0 <= j < files.len() && i != j ==> (#[trigger] files[i])@
                != (#[trigger] files[j])@,
    ensures
        strictly_ordered(entry_paths(root_entry, files)),
{
    law_directory_paths_sorted_under_entry(root_entry, files);
    lemma_orders_total();
    lemma_text_leq_total();
    lemma_insertion_sort(files, text_leq());
    let sorted = insertion_sort(files, text_leq());
    let paths = entry_paths(root_entry, files);
    assert(files.no_duplicates());
    files.lemma_multiset_has_no_duplicates();
    assert forall|x: String| sorted.to_multiset().contains(x) implies sorted.to_multiset().count(x)
        == 1 by {
        assert(files.to_multiset().contains(x));
    }
    sorted.lemma_multiset_has_no_duplicates_conv();
    assert forall|i: int, j: int| 0 <= i < j < paths.len() implies text_before(
        #[trigger] paths[i],
        #[trigger] paths[j],
    ) by {
        assert(sorted.to_multiset().count(sorted[i]) > 0);
        assert(sorted.to_multiset().count(sorted[j]) > 0);
        assert(files.contains(sorted[i]) && files.contains(sorted[j]));
        let a = choose|a: int| 0 <= a < files.len() && files[a] == sorted[i];
        let b = choose|b: int| 0 <= b < files.len() && files[b] == sorted[j];
        assert(sorted[i] != sorted[j]);
        assert(a != b);
        assert(sorted[i]@ != sorted[j]@);
        let prefix = root_entry + seq!['/'];
        assert(paths[i] == prefix + sorted[i]@);
        assert(paths[j] == prefix + sorted[j]@);
        if paths[i] == paths[j] {
            assert(sorted[i]@ =~= paths[i].skip(prefix.len() as int));
            assert(sorted[j]@ =~= paths[j].skip(prefix.len() as int));
        }
        assert(text_order()(paths[i], paths[j]));
        let lc = lex_order(byte_order());
        assert(lc(encode_utf8(paths[i]), encode_utf8(paths[j])) != 0) by {
            if lc(encode_utf8(paths[i]), encode_utf8(paths[j])) == 0 {
                lemma_encode_injective(paths[i], paths[j]);
            }
        }
    }
}

/// A path as a file system names it: every component is non-empty and holds
/// no `/`.
pub open spec fn plain_components(path: Seq<Seq<u8>>) -> bool {
    forall|k: int| 0 <= k < path.len() ==> (#[trigger] path[k]).len() > 0 && !path[k].contains(47u8)
}

proof fn lemma_joined_nonempty(c: Seq<Seq<u8>>)
    requires
        c.len() > 0,
        plain_components(c),
    ensures
        joined(c).len() > 0,
{
    assert(c[c.len() - 1].len() > 0);
    if c.len() > 1 {
        assert(joined(c) == joined(c.drop_last()) + seq![47u8] + c.last());
    }
}

proof fn lemma_joined_injective(c: Seq<Seq<u8>>, d: Seq<Seq<u8>>)
    requires
        plain_components(c),
        plain_components(d),
        joined(c) == joined(d),
    ensures
        c == d,
    decreases c.len() + d.len(),
{
    if c.len() == 0 || d.len() == 0 {
        if c.len() > 0 {
            lemma_joined_nonempty(c);
        }
        if d.len() > 0 {
            lemma_joined_nonempty(d);
        }
        assert(c =~= d);
    } else if c.len() == 1 && d.len() == 1 {
        assert(c =~= d);
    } else if c.len() == 1 {
        let x = joined(d.drop_last());
        assert(joined(d) == x + seq![47u8] + d.last());
        assert(joined(d)[x.len() as int] == 47u8);
        assert(c[0][x.len() as int] == 47u8);
        assert(c[0].contains(47u8));
    } else if d.len() == 1 {
        let x = joined(c.drop_last());
        assert(joined(c) == x + seq![47u8] + c.last());
        assert(joined(c)[x.len() as int] == 47u8);
        assert(d[0][x.len() as int] == 47u8);
        assert(d[0].contains(47u8));
    } else {
        let x = joined(c.drop_last());
        let y = c.last();
        let x2 = joined(d.drop_last());
        let y2 = d.last();
        let whole = joined(c);
        assert(whole == x + seq![47u8] + y);
        assert(whole == x2 + seq![47u8] + y2);
        let n = whole.len();
        assert(!y.contains(47u8) && !y2.contains(47u8)) by {
            assert(y == c[c.len() - 1]);
            assert(y2 == d[d.len() - 1]);
        }
        if y.len() < y2.len() {
            let i = n - y.len() - 1;
            assert(whole[i] == 47u8);
            assert(y2[i - (n - y2.len())] == whole[i]);
            assert(y2.contains(47u8));
        } else if y2.len() < y.len() {
            let i = n - y2.len() - 1;
            assert(whole[i] == 47u8);
            assert(y[i - (n - y.len())] == whole[i]);
            assert(y.contains(47u8));
        }
        assert(y =~= whole.skip(n - y.len()));
        assert(y2 =~= whole.skip(n - y2.len()));
        assert(x =~= whole.take(x.len() as int));
        assert(x2 =~= whole.take(x2.len() as int));
        assert(plain_components(c.drop_last())) by {
            assert forall|k: int| 0 <= k < c.drop_last().len() implies (#[trigger] c.drop_last()[k]).len()
                > 0 && !c.drop_last()[k].contains(47u8) by {
                assert(c.drop_last()[k] == c[k]);
            }
        }
        assert(plain_components(d.drop_last())) by {
            assert forall|k: int| 0 <= k < d.drop_last().len() implies (#[trigger] d.drop_last()[k]).len()
                > 0 && !d.drop_last()[k].contains(47u8) by {
                assert(d.drop_last()[k] == d[k]);
            }
        }
        lemma_joined_injective(c.drop_last(), d.drop_last());
        assert(c =~= c.drop_last().push(y));
        assert(d =~= d.drop_last().push(y2));
    }
}

proof fn lemma_decode_injective(a: Seq<u8>, b: Seq<u8>)
    requires
        valid_utf8(a),
        valid_utf8(b),
        decode_utf8(a) == decode_utf8(b),
    ensures
        a == b,
{
    decode_utf8_encode_utf8(a);
    decode_utf8_encode_utf8(b);
}

proof fn lemma_accepted_files_distinct(order: Seq<SourceEntry>, scope: MetadataScope)
    requires
        none_refused(order, scope),
        distinct_paths(order),
        forall|i: int| 0 <= i < order.len() ==> plain_components(entry_path(#[trigger] order[i])),
    ensures
        accepted_files(order).no_duplicates(),
    decreases order.len(),
{
    if order.len() > 0 {
        let n = order.len() - 1;
        let rest = order.drop_last();
        assert forall|i: int, j: int|
            0 <= i < rest.len() && 0 <= j < rest.len() && i != j implies entry_path(
            #[trigger] rest[i],
        ) != entry_path(#[trigger] rest[j]) by {
            assert(rest[i] == order[i] && rest[j] == order[j]);
        }
        assert forall|k: int| 0 <= k < rest.len() implies refusal(#[trigger] rest[k], scope) is None by {
            assert(rest[k] == order[k]);
        }
        assert forall|i: int| 0 <= i < rest.len() implies plain_components(
            entry_path(#[trigger] rest[i]),
        ) by {
            assert(rest[i] == order[i]);
        }
        lemma_accepted_files_distinct(rest, scope);
        let last = order[n];
        assert(order.last() == last);
        if last.kind is File {
            let e = decode_utf8(joined(entry_path(last)));
            if accepted_files(rest).contains(e) {
                lemma_accepted_files_members(rest, e);
                let k = choose|k: int|
                    0 <= k < rest.len() && (#[trigger] rest[k]).kind is File && e == decode_utf8(
                        joined(entry_path(rest[k])),
                    );
                assert(rest[k] == order[k]);
                assert(refusal(order[k], scope) is None);
                assert(refusal(order[n], scope) is None);
                lemma_decode_injective(joined(entry_path(order[k])), joined(entry_path(last)));
                lemma_joined_injective(entry_path(order[k]), entry_path(last));
                assert(k != n);
            }
            let whole = accepted_files(rest) + seq![e];
            assert(accepted_files(order) == whole);
            assert forall|i: int, j: int|
                0 <= i < whole.len() && 0 <= j < whole.len() && i != j implies whole[i]
                != whole[j] by {
                if i < n && j < n {
                } else if i == whole.len() - 1 && j < whole.len() - 1 {
                    assert(accepted_files(rest)[j] == whole[j]);
                } else if j == whole.len() - 1 && i < whole.len() - 1 {
                    assert(accepted_files(rest)[i] == whole[i]);
                }
            }
        } else {
            assert(accepted_files(order) =~= accepted_files(rest));
        }
    }
}

/// An accepted listing of a file system's entries, with no path twice,
/// plans no file twice.
pub proof fn law_planned_files_distinct(entries: Seq<SourceEntry>, scope: MetadataScope)
    requires
        distinct_paths(entries),
        forall|i: int| 0 <= i < entries.len() ==> plain_components(entry_path(#[trigger] entries[i])),
        none_refused(walk_order(entries), scope),
    ensures
        accepted_files(walk_order(entries)).no_duplicates(),
{
    law_walk_visits_every_entry_in_order(entries);
    let order = walk_order(entries);
    assert forall|k: int| 0 <= k < order.len() implies plain_components(
        entry_path(#[trigger] order[k]),
    ) by {
        assert(order.to_multiset().count(order[k]) > 0);
        assert(entries.contains(order[k]));
    }
    assert(entries.no_duplicates()) by {
        assert forall|a: int, b: int|
            0 <= a < entries.len() && 0 <= b < entries.len() && a != b implies entries[a]
            != entries[b] by {
            assert(entry_path(entries[a]) != entry_path(entries[b]));
        }
    }
    entries.lemma_multiset_has_no_duplicates();
    assert forall|x: SourceEntry| order.to_multiset().contains(x) implies order.to_multiset().count(
        x,
    ) == 1 by {
        assert(entries.to_multiset().contains(x));
    }
    order.lemma_multiset_has_no_duplicates_conv();
    assert forall|i: int, j: int|
        0 <= i < order.len() && 0 <= j < order.len() && i != j implies entry_path(
        #[trigger] order[i],
    ) != entry_path(#[trigger] order[j]) by {
        if entry_path(order[i]) == entry_path(order[j]) {
            assert(order.to_multiset().count(order[i]) > 0);
            assert(entries.contains(order[i]));
            let a = choose|a: int| 0 <= a < entries.len() && entries[a] == order[i];
            assert(order.to_multiset().count(order[j]) > 0);
            assert(entries.contains(order[j]));
            let b = choose|b: int| 0 <= b < entries.len() && entries[b] == order[j];
            assert(a == b);
            assert(order[i] == order[j]);
        }
    }
    lemma_accepted_files_distinct(order, scope);
}

/// The changed paths of a directory commit whose files come from an
/// accepted walk of a file system's entries, with no path twice, are
/// strictly ordered: sorted, and no path twice.
pub proof fn law_walked_directory_paths_strictly_ordered(
    root_entry: Seq<char>,
    entries: Seq<SourceEntry>,
    scope: MetadataScope,
    files: Seq<String>,
)
    requires
        distinct_paths(entries),
        forall|i: int| 0 <= i < entries.len() ==> plain_components(entry_path(#[trigger] entries[i])),
        none_refused(walk_order(entries), scope),
        texts(files) == accepted_files(walk_order(entries)),
    ensures
        strictly_ordered(entry_paths(root_entry, files)),
{
    law_planned_files_distinct(entries, scope);
    assert forall|i: int, j: int|
        0 <= i < files.len() && 0 <= j < files.len() && i != j implies (#[trigger] files[i])@ != (
        #[trigger] files[j])@ by {
        assert(texts(files)[i] == files[i]@);
        assert(texts(files)[j] == files[j]@);
    }
    law_directory_paths_strictly_ordered(root_entry, files);
}

proof fn lemma_insert_by_text(s1: Seq<String>, s2: Seq<String>, x1: String, x2: String)
    requires
        texts(s1) == texts(s2),
        x1@ == x2@,
    ensures
        texts(insert_in_order(s1, x1, text_leq())) == texts(insert_in_order(s2, x2, text_leq())),
    decreases s1.len(),
{
    assert(s1.len() == texts(s1).len() && s2.len() == texts(s2).len());
    if s1.len() == 0 {
        assert(texts(seq![x1]) =~= texts(seq![x2]));
    } else {
        let n = s1.len() - 1;
        assert(s1.last()@ == texts(s1)[n] && s2.last()@ == texts(s2)[n]);
        assert(texts(s1.drop_last()) =~= texts(s1).drop_last());
        assert(texts(s2.drop_last()) =~= texts(s2).drop_last());
        if text_leq()(s1.last(), x1) {
            assert(texts(s1.push(x1)) =~= texts(s1).push(x1@));
            assert(texts(s2.push(x2)) =~= texts(s2).push(x2@));
        } else {
            lemma_insert_by_text(s1.drop_last(), s2.drop_last(), x1, x2);
            let r1 = insert_in_order(s1.drop_last(), x1, text_leq());
            let r2 = insert_in_order(s2.drop_last(), x2, text_leq());
            assert(texts(r1.push(s1.last())) =~= texts(r1).push(s1.last()@));
            assert(texts(r2.push(s2.last())) =~= texts(r2).push(s2.last()@));
        }
    }
}

proof fn lemma_sort_by_text(f1: Seq<String>, f2: Seq<String>)
    requires
        texts(f1) == texts(f2),
    ensures
        texts(insertion_sort(f1, text_leq())) == texts(insertion_sort(f2, text_leq())),
    decreases f1.len(),
{
    assert(f1.len() == texts(f1).len() && f2.len() == texts(f2).len());
    if f1.len() > 0 {
        let n = f1.len() - 1;
        assert(texts(f1.drop_last()) =~= texts(f1).drop_last());
        assert(texts(f2.drop_last()) =~= texts(f2).drop_last());
        assert(f1.last()@ == texts(f1)[n] && f2.last()@ == texts(f2)[n]);
        lemma_sort_by_text(f1.drop_last(), f2.drop_last());
        lemma_insert_by_text(
            insertion_sort(f1.drop_last(), text_leq()),
            insertion_sort(f2.drop_last(), text_leq()),
            f1.last(),
            f2.last(),
        );
    }
}

/// The changed paths of a directory commit do not depend on the order in
/// which the source directory was listed: two listings of the same entries,
/// with no path twice, give the same changed paths.
pub proof fn law_directory_paths_independent_of_listing_order(
    root_entry: Seq<char>,
    listing1: Seq<SourceEntry>,
    listing2: Seq<SourceEntry>,
    files1: Seq<String>,
    files2: Seq<String>,
)
    requires
        listing1.to_multiset() == listing2.to_multiset(),
        distinct_paths(listing1),
        texts(files1) == accepted_files(walk_order(listing1)),
        texts(files2) == accepted_files(walk_order(listing2)),
    ensures
        entry_paths(root_entry, files1) == entry_paths(root_entry, files2),
{
    law_walk_independent_of_listing_order(listing1, listing2);
    lemma_sort_by_text(files1, files2);
    let s1 = insertion_sort(files1, text_leq());
    let s2 = insertion_sort(files2, text_leq());
    assert(s1.len() == texts(s1).len() && s2.len() == texts(s2).len());
    assert forall|i: int| 0 <= i < s1.len() implies s1[i]@ == s2[i]@ by {
        assert(texts(s1)[i] == s1[i]@);
        assert(texts(s2)[i] == s2[i]@);
    }
    assert(entry_paths(root_entry, files1) =~= entry_paths(root_entry, files2));
}

/// The changed paths of a snapshot commit do not depend on the order in
/// which either tree was listed: for listings of the same files, with no
/// path twice, the reported paths are the same.
pub proof fn law_snapshot_paths_independent_of_listing_order(
    before1: Seq<TreeFile>,
    after1: Seq<TreeFile>,
    before2: Seq<TreeFile>,
    after2: Seq<TreeFile>,
    changed1: Seq<Seq<char>>,
    changed2: Seq<Seq<char>>,
)
    requires
        before1.to_multiset() == before2.to_multiset(),
        after1.to_multiset() == after2.to_multiset(),
        distinct_tree_paths(before1),
        distinct_tree_paths(before2),
        distinct_tree_paths(after1),
        distinct_tree_paths(after2),
        strictly_ordered(changed1),
        strictly_ordered(changed2),
        forall|p: Seq<char>| #[trigger] changed1.contains(p) <==> differs(before1, after1, p),
        forall|p: Seq<char>| #[trigger] changed2.contains(p) <==> differs(before2, after2, p),
    ensures
        changed1 == changed2,
{
    assert forall|p: Seq<char>| #[trigger] changed1.contains(p) <==> changed2.contains(p) by {
        law_recorded_independent_of_order(before1, before2, p);
        law_recorded_independent_of_order(after1, after2, p);
        assert(changed2.contains(p) <==> differs(before2, after2, p));
    }
    law_ordered_texts_unique(changed1, changed2);
}

proof fn lemma_compare_skips_common_prefix(a: Seq<u8>, b: Seq<u8>, k: int, i: int)
    requires
        0 <= i <= k,
        k <= a.len(),
        k <= b.len(),
        forall|m: int| 0 <= m < k ==> #[trigger] a[m] == b[m],
    ensures
        lex_compare_from(a, b, byte_order(), i) == lex_compare_from(a, b, byte_order(), k),
    decreases k - i,
{
    if i < k {
        assert(a[i] == b[i]);
        lemma_compare_skips_common_prefix(a, b, k, i + 1);
    }
}

/// Byte strings are compared as unsigned bytes, lexicographically: where `a`
/// and `b` agree on their first `k` bytes, a smaller byte at position `k`
/// puts its string first, a string that ends at `k` comes before a longer
/// one, and two strings that both end there are equal.
pub proof fn law_bytes_compare_first_difference(a: Seq<u8>, b: Seq<u8>, k: int)
    requires
        0 <= k <= a.len(),
        k <= b.len(),
        forall|m: int| 0 <= m < k ==> #[trigger] a[m] == b[m],
    ensures
        k < a.len() && k < b.len() && a[k] < b[k] ==> bytes_compare(a, b) == -1,
        k < a.len() && k < b.len() && a[k] > b[k] ==> bytes_compare(a, b) == 1,
        k == a.len() && k < b.len() ==> bytes_compare(a, b) == -1,
        k < a.len() && k == b.len() ==> bytes_compare(a, b) == 1,
        k == a.len() && k == b.len() ==> bytes_compare(a, b) == 0,
{
    lemma_compare_skips_common_prefix(a, b, k, 0);
}

/// The changed paths of a directory commit are in the byte order of their
/// UTF-8 encodings: of two paths, the earlier one has the smaller byte at the
/// first position where they differ, and the later one is not a proper prefix
/// of the earlier.
pub proof fn law_directory_paths_in_byte_order(
    root_entry: Seq<char>,
    files: Seq<String>,
    i: int,
    j: int,
    k: int,
)
    requires
        0 <= i < j < entry_paths(root_entry, files).len(),
        0 <= k <= encode_utf8(entry_paths(root_entry, files)[i]).len(),
        k <= encode_utf8(entry_paths(root_entry, files)[j]).len(),
        forall|m: int|
            0 <= m < k ==> #[trigger] encode_utf8(entry_paths(root_entry, files)[i])[m]
                == encode_utf8(entry_paths(root_entry, files)[j])[m],
    ensures
        k < encode_utf8(entry_paths(root_entry, files)[i]).len() && k < encode_utf8(
            entry_paths(root_entry, files)[j],
        ).len() ==> encode_utf8(entry_paths(root_entry, files)[i])[k] <= encode_utf8(
            entry_paths(root_entry, files)[j],
        )[k],
        k == encode_utf8(entry_paths(root_entry, files)[j]).len() ==> k == encode_utf8(
            entry_paths(root_entry, files)[i],
        ).len(),
{
    law_directory_paths_sorted_under_entry(root_entry, files);
    let paths = entry_paths(root_entry, files);
    let x = encode_utf8(paths[i]);
    let y = encode_utf8(paths[j]);
    assert(text_order()(paths[i], paths[j]));
    assert(bytes_compare(x, y) <= 0);
    law_bytes_compare_first_difference(x, y, k);
}

/// The changed paths of a snapshot commit, strictly ordered as
/// `snapshot_changed_paths` gives them, are in the byte order of their UTF-8
/// encodings: of two paths, the earlier one has the smaller byte at the first
/// position where they differ, or is a proper prefix of the later one.
pub proof fn law_snapshot_paths_in_byte_order(changed: Seq<Seq<char>>, i: int, j: int, k: int)
    requires
        strictly_ordered(changed),
        0 <= i < j < changed.len(),
        0 <= k <= encode_utf8(changed[i]).len(),
        k <= encode_utf8(changed[j]).len(),
        forall|m: int|
            0 <= m < k ==> #[trigger] encode_utf8(changed[i])[m] == encode_utf8(changed[j])[m],
    ensures
        k < encode_utf8(changed[j]).len(),
        k < encode_utf8(changed[i]).len() && encode_utf8(changed[i])[k] != encode_utf8(
            changed[j],
        )[k] ==> encode_utf8(changed[i])[k] < encode_utf8(changed[j])[k],
{
    let x = encode_utf8(changed[i]);
    let y = encode_utf8(changed[j]);
    assert(text_before(changed[i], changed[j]));
    assert(bytes_compare(x, y) < 0);
    law_bytes_compare_first_difference(x, y, k);
}

/// A symbolic link is refused wherever it stands in the source directory,
/// however deep: as Git metadata where it is named `.git` and the scope looks
/// for that, and as a symbolic link in every other case.
pub proof fn law_symbolic_links_refused_at_any_depth(e: SourceEntry, scope: MetadataScope)
    requires
        e.kind == SourceKind::Symlink,
    ensures
        refusal(e, scope) is Some,
        entry_path(e).len() == 0 || entry_path(e).last() != seq![46u8, 103u8, 105u8, 116u8]
            ==> refusal(e, scope) == Some(Refusal::SymbolicLink),
        scope == MetadataScope::TopLevel && entry_path(e).len() != 1 ==> refusal(e, scope) == Some(
            Refusal::SymbolicLink,
        ),
{
}

/// A listing that holds a symbolic link anywhere is not accepted: the walk
/// refuses some entry of it.
pub proof fn law_listing_with_symbolic_link_refused(
    entries: Seq<SourceEntry>,
    scope: MetadataScope,
    i: int,
)
    requires
        0 <= i < entries.len(),
        entries[i].kind == SourceKind::Symlink,
    ensures
        !none_refused(walk_order(entries), scope),
{
    law_symbolic_links_refused_at_any_depth(entries[i], scope);
    law_accepted_iff_no_entry_refused(entries, scope);
}

/// Directories, and files whose relative path is UTF-8, are never refused,
/// however deep they stand, unless they are named `.git`.
pub proof fn law_plain_entries_accepted_at_any_depth(e: SourceEntry, scope: MetadataScope)
    requires
        e.kind == SourceKind::Directory || (e.kind == SourceKind::File && valid_utf8(
            joined(entry_path(e)),
        )),
        entry_path(e).len() == 0 || entry_path(e).last() != seq![46u8, 103u8, 105u8, 116u8],
    ensures
        refusal(e, scope) is None,
{
}

/// A listing of directories and UTF-8 named files, none named `.git`, is
/// accepted whatever its depth, and each of its files is planned for the
/// commit under its relative path.
pub proof fn law_plain_listing_accepted(entries: Seq<SourceEntry>, scope: MetadataScope)
    requires
        forall|i: int|
            0 <= i < entries.len() ==> (#[trigger] entries[i]).kind == SourceKind::Directory || (
            entries[i].kind == SourceKind::File && valid_utf8(joined(entry_path(entries[i])))),
        forall|i: int|
            0 <= i < entries.len() ==> entry_path(#[trigger] entries[i]).len() == 0 || entry_path(
                entries[i],
            ).last() != seq![46u8, 103u8, 105u8, 116u8],
    ensures
        none_refused(walk_order(entries), scope),
        forall|i: int|
            0 <= i < entries.len() && (#[trigger] entries[i]).kind == SourceKind::File
                ==> accepted_files(walk_order(entries)).contains(
                decode_utf8(joined(entry_path(entries[i]))),
            ),
{
    assert forall|i: int| 0 <= i < entries.len() implies refusal(#[trigger] entries[i], scope)
        is None by {
        law_plain_entries_accepted_at_any_depth(entries[i], scope);
    }
    law_accepted_iff_no_entry_refused(entries, scope);
    assert forall|i: int|
        0 <= i < entries.len() && (#[trigger] entries[i]).kind == SourceKind::File implies accepted_files(
        walk_order(entries),
    ).contains(decode_utf8(joined(entry_path(entries[i])))) by {
        law_every_file_is_committed(entries, decode_utf8(joined(entry_path(entries[i]))));
    }
}

/// `c` is one of the ASCII digits `0` to `9`.
pub open spec fn is_ascii_digit(c: char) -> bool {
    48 <= c as u32 && c as u32 <= 57
}

/// Every character of `s` is an ASCII digit.
pub open spec fn all_ascii_digits(s: Seq<char>) -> bool {
    forall|i: int| 0 <= i < s.len() ==> is_ascii_digit(#[trigger] s[i])
}

/// The integer that the ASCII digits `s` read as in base ten, most
/// significant digit first.
pub open spec fn digits_value(s: Seq<char>) -> int
    decreases s.len(),
{
    if s.len() == 0 {
        0
    } else {
        digits_value(s.drop_last()) * 10 + (s.last() as u32 - 48)
    }
}

proof fn lemma_digit_char_reads_back(d: int)
    requires
        0 <= d < 10,
    ensures
        is_ascii_digit(digit_char(d)),
        digit_char(d) as u32 - 48 == d,
{
}

proof fn lemma_decimal_digits_read_back(n: nat)
    ensures
        decimal_digits(n).len() >= 1,
        all_ascii_digits(decimal_digits(n)),
        digits_value(decimal_digits(n)) == n,
        decimal_digits(n).len() > 1 <==> n >= 10,
        decimal_digits(n).len() > 1 ==> decimal_digits(n)[0] != '0',
    decreases n,
{
    let s = decimal_digits(n);
    if n < 10 {
        lemma_digit_char_reads_back(n as int);
        assert(s.drop_last() =~= Seq::<char>::empty());
        assert(digits_value(s) == digits_value(s.drop_last()) * 10 + (s.last() as u32 - 48));
    } else {
        let q = (n / 10) as nat;
        let r = (n % 10) as int;
        lemma_decimal_digits_read_back(q);
        lemma_digit_char_reads_back(r);
        let t = decimal_digits(q);
        assert(s == t.push(digit_char(r)));
        assert(s.drop_last() =~= t);
        assert(s[0] == t[0]);
        if q < 10 {
            assert(t == seq![digit_char(q as int)]);
            lemma_digit_char_reads_back(q as int);
        }
        assert(digits_value(s) == digits_value(t) * 10 + (digit_char(r) as u32 - 48));
        assert(q * 10 + r == n);
    }
}

/// The signature time of a commit is the requested Unix time itself: the
/// text before the ` +0000` offset reads back, in base ten, as exactly that
/// number of seconds, with a `-` before it when it is negative, and without
/// leading zeros.
pub proof fn law_signature_time_reads_back(committed_at_unix: i64)
    ensures
        ({
            let s = signature_time(committed_at_unix);
            let n = s.len() - 6;
            &&& n >= 1
            &&& s.skip(n) == seq![' ', '+', '0', '0', '0', '0']
            &&& committed_at_unix >= 0 ==> all_ascii_digits(s.take(n)) && digits_value(s.take(n))
                == committed_at_unix && (n > 1 ==> s[0] != '0')
            &&& committed_at_unix < 0 ==> n >= 2 && s[0] == '-' && all_ascii_digits(
                s.subrange(1, n),
            ) && digits_value(s.subrange(1, n)) == -committed_at_unix && (n > 2 ==> s[1] != '0')
        }),
{
    let t = committed_at_unix as int;
    let s = signature_time(committed_at_unix);
    let tail = seq![' ', '+', '0', '0', '0', '0'];
    if t >= 0 {
        let d = decimal_digits(t as nat);
        lemma_decimal_digits_read_back(t as nat);
        assert(s == d + tail);
        assert(s.take(d.len() as int) =~= d);
        assert(s.skip(d.len() as int) =~= tail);
    } else {
        let d = decimal_digits((-t) as nat);
        lemma_decimal_digits_read_back((-t) as nat);
        assert(s == seq!['-'] + d + tail);
        assert(s.subrange(1, d.len() + 1 as int) =~= d);
        assert(s.skip(d.len() + 1 as int) =~= tail);
        assert(s[1] == d[0]);
    }
}

/// Which paths a snapshot commit reports, told by the tree entries
/// themselves (no path twice in either tree): a path in both trees is
/// reported exactly when its object id or its mode changed; a path in one
/// tree only is reported.
pub proof fn law_snapshot_changes_by_entries(
    before: Seq<TreeFile>,
    after: Seq<TreeFile>,
    path: Seq<char>,
)
    requires
        distinct_tree_paths(before),
        distinct_tree_paths(after),
    ensures
        forall|i: int, j: int|
            0 <= i < before.len() && 0 <= j < after.len() && (#[trigger] before[i]).path@ == path
                && (#[trigger] after[j]).path@ == path ==> (differs(before, after, path) <==> (
            before[i].id@ != after[j].id@ || before[i].mode != after[j].mode)),
        (exists|i: int| 0 <= i < before.len() && (#[trigger] before[i]).path@ == path) && (forall|
            j: int,
        | 0 <= j < after.len() ==> (#[trigger] after[j]).path@ != path) ==> differs(
            before,
            after,
            path,
        ),
        (forall|i: int| 0 <= i < before.len() ==> (#[trigger] before[i]).path@ != path) && (exists|
            j: int,
        | 0 <= j < after.len() && (#[trigger] after[j]).path@ == path) ==> differs(
            before,
            after,
            path,
        ),
        (forall|i: int| 0 <= i < before.len() ==> (#[trigger] before[i]).path@ != path) && (forall|
            j: int,
        | 0 <= j < after.len() ==> (#[trigger] after[j]).path@ != path) ==> !differs(
            before,
            after,
            path,
        ),
{
    lemma_recorded_at(before, path, 0);
    lemma_recorded_at(after, path, 0);
}

/// The changed paths of a directory commit are the committed files, each
/// once per occurrence, as `root_entry/file`: every file gives a changed
/// path, and every changed path comes from a file.
pub proof fn law_directory_paths_are_the_files(root_entry: Seq<char>, files: Seq<String>)
    ensures
        forall|j: int|
            0 <= j < files.len() ==> exists|i: int|
                0 <= i < entry_paths(root_entry, files).len() && #[trigger] entry_paths(
                    root_entry,
                    files,
                )[i] == root_entry + seq!['/'] + (#[trigger] files[j])@,
        forall|i: int|
            0 <= i < entry_paths(root_entry, files).len() ==> exists|j: int|
                0 <= j < files.len() && #[trigger] entry_paths(root_entry, files)[i] == root_entry
                    + seq!['/'] + (#[trigger] files[j])@,
        entry_paths(root_entry, files).len() == files.len(),
{
    lemma_text_leq_total();
    lemma_insertion_sort(files, text_leq());
    let sorted = insertion_sort(files, text_leq());
    let paths = entry_paths(root_entry, files);
    assert forall|j: int| 0 <= j < files.len() implies exists|i: int|
        0 <= i < paths.len() && #[trigger] paths[i] == root_entry + seq!['/'] + (#[trigger] files[
            j])@ by {
        assert(files.to_multiset().count(files[j]) > 0);
        assert(sorted.contains(files[j]));
        let i = choose|i: int| 0 <= i < sorted.len() && sorted[i] == files[j];
        assert(paths[i] == root_entry + seq!['/'] + files[j]@);
    }
    assert forall|i: int| 0 <= i < paths.len() implies exists|j: int|
        0 <= j < files.len() && #[trigger] paths[i] == root_entry + seq!['/'] + (#[trigger] files[
            j])@ by {
        assert(sorted.to_multiset().count(sorted[i]) > 0);
        assert(files.contains(sorted[i]));
        let j = choose|j: int| 0 <= j < files.len() && files[j] == sorted[i];
        assert(paths[i] == root_entry + seq!['/'] + files[j]@);
    }
}

/// An entry named `.git` is refused as Git metadata, whatever its kind: at
/// any depth when the scope is the whole source, at the top level when the
/// scope is the top level. Other entries are refused by kind: anything but a
/// file, directory or symbolic link as unsupported, and a file whose
/// relative path is not UTF-8 as such.
pub proof fn law_refusals_by_name_and_kind(e: SourceEntry, scope: MetadataScope)
    ensures
        scope == MetadataScope::AnyDepth && entry_path(e).len() > 0 && entry_path(e).last()
            == seq![46u8, 103u8, 105u8, 116u8] ==> refusal(e, scope) == Some(Refusal::GitMetadata),
        scope == MetadataScope::TopLevel && entry_path(e) == seq![seq![46u8, 103u8, 105u8, 116u8]]
            ==> refusal(e, scope) == Some(Refusal::GitMetadata),
        entry_path(e).len() == 0 || entry_path(e).last() != seq![46u8, 103u8, 105u8, 116u8]
            ==> {
            &&& e.kind == SourceKind::Other ==> refusal(e, scope) == Some(Refusal::UnsupportedEntry)
            &&& e.kind == SourceKind::File && !valid_utf8(joined(entry_path(e))) ==> refusal(e, scope)
                == Some(Refusal::NonUtf8Path)
        },
{
}

} // verus!
