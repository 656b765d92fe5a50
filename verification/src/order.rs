//! Orders used by the library: lexicographic comparison of byte strings and
//! of component paths, and a stable insertion sort over any order.

use vstd::prelude::*;
use vstd::multiset::Multiset;
use vstd::relations::{sorted_by, strongly_connected, transitive};
use vstd::utf8::{encode_utf8, encode_utf8_decode_utf8};

verus! {

broadcast use vstd::seq_lib::group_to_multiset_ensures;

/// Three-way comparison of two bytes: `-1`, `0` or `1`.
pub open spec fn byte_compare(x: u8, y: u8) -> int {
    if x < y {
        -1
    } else if x > y {
        1
    } else {
        0
    }
}

/// The byte comparison as a value.
pub open spec fn byte_order() -> spec_fn(u8, u8) -> int {
    |x: u8, y: u8| byte_compare(x, y)
}

/// Lexicographic three-way comparison of `a` and `b` from position `i` on:
/// the first differing element decides, and a proper prefix comes first.
pub open spec fn lex_compare_from<T>(a: Seq<T>, b: Seq<T>, order: spec_fn(T, T) -> int, i: int) -> int
    decreases a.len() - i,
{
    if i >= a.len() {
        if i >= b.len() {
            0
        } else {
            -1
        }
    } else if i >= b.len() {
        1
    } else if order(a[i], b[i]) != 0 {
        order(a[i], b[i])
    } else {
        lex_compare_from(a, b, order, i + 1)
    }
}

/// Lexicographic three-way comparison of two sequences.
pub open spec fn lex_compare<T>(a: Seq<T>, b: Seq<T>, order: spec_fn(T, T) -> int) -> int {
    lex_compare_from(a, b, order, 0)
}

/// Lexicographic comparison as a value.
pub open spec fn lex_order<T>(order: spec_fn(T, T) -> int) -> spec_fn(Seq<T>, Seq<T>) -> int {
    |a: Seq<T>, b: Seq<T>| lex_compare(a, b, order)
}

/// Byte-string comparison (the order of `[u8]`, and of `str` by its UTF-8 bytes).
pub open spec fn bytes_compare(a: Seq<u8>, b: Seq<u8>) -> int {
    lex_compare(a, b, byte_order())
}

/// Comparison of paths given as component sequences: component by component,
/// each component compared as a byte string. A directory comes right before
/// everything below it, so this is the order of a depth-first walk that visits
/// the entries of each directory sorted by name.
pub open spec fn components_compare(a: Seq<Seq<u8>>, b: Seq<Seq<u8>>) -> int {
    lex_compare(a, b, lex_order(byte_order()))
}

/// `order` is a three-way comparison of a total order.
pub open spec fn total_comparison<T>(order: spec_fn(T, T) -> int) -> bool {
    &&& forall|x: T, y: T| #[trigger] order(x, y) == -order(y, x)
    &&& forall|x: T, y: T| #[trigger] order(x, y) == 0 <==> x == y
    &&& forall|x: T, y: T, z: T|
        #[trigger] order(x, y) <= 0 && #[trigger] order(y, z) <= 0 ==> order(x, z) <= 0
}

/// Inserts `x` into `s` after the last element that is not greater than it
/// (scanning from the back): one step of a stable insertion sort.
pub open spec fn insert_in_order<T>(s: Seq<T>, x: T, leq: spec_fn(T, T) -> bool) -> Seq<T>
    decreases s.len(),
{
    if s.len() == 0 {
        seq![x]
    } else if leq(s.last(), x) {
        s.push(x)
    } else {
        insert_in_order(s.drop_last(), x, leq).push(s.last())
    }
}

/// Stable insertion sort of `s` by `leq`.
pub open spec fn insertion_sort<T>(s: Seq<T>, leq: spec_fn(T, T) -> bool) -> Seq<T>
    decreases s.len(),
{
    if s.len() == 0 {
        s
    } else {
        insert_in_order(insertion_sort(s.drop_last(), leq), s.last(), leq)
    }
}

/// Order of strings by their UTF-8 bytes (the order of `str`), as a "not
/// greater than" relation.
pub open spec fn text_leq() -> spec_fn(String, String) -> bool {
    |a: String, b: String| bytes_compare(encode_utf8(a@), encode_utf8(b@)) <= 0
}

proof fn lemma_lex_antisymmetric<T>(a: Seq<T>, b: Seq<T>, order: spec_fn(T, T) -> int, i: int)
    requires
        0 <= i,
        forall|x: T, y: T| #[trigger] order(x, y) == -order(y, x),
    ensures
        lex_compare_from(a, b, order, i) == -lex_compare_from(b, a, order, i),
    decreases a.len() - i,
{
    if i < a.len() && i < b.len() && order(a[i], b[i]) == 0 {
        lemma_lex_antisymmetric(a, b, order, i + 1);
    }
}

proof fn lemma_lex_zero<T>(a: Seq<T>, b: Seq<T>, order: spec_fn(T, T) -> int, i: int)
    requires
        0 <= i <= a.len(),
        i <= b.len(),
        forall|x: T, y: T| #[trigger] order(x, y) == 0 <==> x == y,
    ensures
        lex_compare_from(a, b, order, i) == 0 <==> (a.len() == b.len() && forall|k: int|
            i <= k < a.len() ==> a[k] == b[k]),
    decreases a.len() - i,
{
    if i < a.len() && i < b.len() {
        lemma_lex_zero(a, b, order, i + 1);
    }
}

proof fn lemma_lex_transitive<T>(
    a: Seq<T>,
    b: Seq<T>,
    c: Seq<T>,
    order: spec_fn(T, T) -> int,
    i: int,
)
    requires
        0 <= i,
        total_comparison(order),
        lex_compare_from(a, b, order, i) <= 0,
        lex_compare_from(b, c, order, i) <= 0,
    ensures
        lex_compare_from(a, c, order, i) <= 0,
    decreases a.len() - i,
{
    if i < a.len() {
        let x = a[i];
        let y = b[i];
        let z = c[i];
        if order(x, y) == 0 {
            if order(y, z) == 0 {
                assert(x == y && y == z);
                lemma_lex_transitive(a, b, c, order, i + 1);
            } else {
                assert(x == y);
            }
        } else {
            assert(order(x, z) <= 0);
            if order(x, z) == 0 {
                assert(x == z);
                assert(order(z, y) == -order(y, z));
            }
        }
    }
}

/// Lexicographic extension of a total order is a total order.
pub proof fn lemma_lex_total<T>(order: spec_fn(T, T) -> int)
    requires
        total_comparison(order),
    ensures
        total_comparison(lex_order(order)),
{
    let lc = lex_order(order);
    assert forall|x: Seq<T>, y: Seq<T>| #[trigger] lc(x, y) == -lc(y, x) by {
        lemma_lex_antisymmetric(x, y, order, 0);
    }
    assert forall|x: Seq<T>, y: Seq<T>| #[trigger] lc(x, y) == 0 <==> x == y by {
        if x.len() <= y.len() {
            lemma_lex_zero(x, y, order, 0);
        } else {
            lemma_lex_zero(y, x, order, 0);
            lemma_lex_antisymmetric(x, y, order, 0);
        }
        if lc(x, y) == 0 {
            assert(x =~= y);
        }
    }
    assert forall|x: Seq<T>, y: Seq<T>, z: Seq<T>|
        #[trigger] lc(x, y) <= 0 && #[trigger] lc(y, z) <= 0 implies lc(x, z) <= 0 by {
        lemma_lex_transitive(x, y, z, order, 0);
    }
}

/// Byte comparison and the two lexicographic orders built on it are total.
pub proof fn lemma_orders_total()
    ensures
        total_comparison(byte_order()),
        total_comparison(lex_order(byte_order())),
        total_comparison(lex_order(lex_order(byte_order()))),
{
    lemma_lex_total(byte_order());
    lemma_lex_total(lex_order(byte_order()));
}

/// `insert_in_order` places `x` at the position that a scan from the back finds.
pub proof fn lemma_insert_position<T>(s: Seq<T>, x: T, leq: spec_fn(T, T) -> bool, j: int)
    requires
        0 <= j <= s.len(),
        j == 0 || leq(s[j - 1], x),
        forall|k: int| j <= k < s.len() ==> !leq(#[trigger] s[k], x),
    ensures
        insert_in_order(s, x, leq) == s.take(j).push(x) + s.skip(j),
    decreases s.len(),
{
    if s.len() == 0 {
        assert(s.take(j).push(x) + s.skip(j) =~= seq![x]);
    } else if leq(s.last(), x) {
        assert(j == s.len());
        assert(s.take(j).push(x) + s.skip(j) =~= s.push(x));
    } else {
        let t = s.drop_last();
        assert forall|k: int| j <= k < t.len() implies !leq(#[trigger] t[k], x) by {
            assert(t[k] == s[k]);
        }
        lemma_insert_position(t, x, leq, j);
        assert(t.take(j).push(x) + t.skip(j) + seq![s.last()] =~= s.take(j).push(x) + s.skip(j));
    }
}

proof fn lemma_insert_sorted<T>(s: Seq<T>, x: T, leq: spec_fn(T, T) -> bool)
    requires
        strongly_connected(leq),
        transitive(leq),
        sorted_by(s, leq),
    ensures
        sorted_by(insert_in_order(s, x, leq), leq),
        insert_in_order(s, x, leq).to_multiset() =~= s.to_multiset().insert(x),
    decreases s.len(),
{
    let r = insert_in_order(s, x, leq);
    if s.len() == 0 {
        assert(seq![x] =~= Seq::<T>::empty().push(x));
        assert(Seq::<T>::empty().to_multiset() =~= Multiset::empty()) by {
            assert(Seq::<T>::empty().to_multiset().len() == 0);
        }
    } else if leq(s.last(), x) {
        assert forall|i: int, j: int| 0 <= i < j < r.len() implies #[trigger] leq(r[i], r[j]) by {
            if j == s.len() && i < s.len() - 1 {
                assert(leq(s[i], s[s.len() - 1]));
            }
        }
    } else {
        let t = s.drop_last();
        let last = s.last();
        assert(sorted_by(t, leq));
        lemma_insert_sorted(t, x, leq);
        let rt = insert_in_order(t, x, leq);
        assert(s =~= t.push(last));
        assert(leq(x, last));
        assert forall|i: int| 0 <= i < rt.len() implies #[trigger] leq(rt[i], last) by {
            let e = rt[i];
            assert(rt.to_multiset().count(e) > 0);
            if e != x {
                assert(t.to_multiset().count(e) > 0);
                assert(t.contains(e));
                let k = choose|k: int| 0 <= k < t.len() && t[k] == e;
                assert(leq(s[k], s[s.len() - 1]));
            }
        }
        assert forall|i: int, j: int| 0 <= i < j < r.len() implies #[trigger] leq(r[i], r[j]) by {
            if j == rt.len() {
                assert(leq(rt[i], last));
            } else {
                assert(leq(rt[i], rt[j]));
            }
        }
    }
}

/// A stable insertion sort by a total preorder sorts, and keeps every element.
pub proof fn lemma_insertion_sort<T>(s: Seq<T>, leq: spec_fn(T, T) -> bool)
    requires
        strongly_connected(leq),
        transitive(leq),
    ensures
        sorted_by(insertion_sort(s, leq), leq),
        insertion_sort(s, leq).to_multiset() =~= s.to_multiset(),
        insertion_sort(s, leq).len() == s.len(),
    decreases s.len(),
{
    if s.len() == 0 {
    } else {
        let t = s.drop_last();
        lemma_insertion_sort(t, leq);
        lemma_insert_sorted(insertion_sort(t, leq), s.last(), leq);
        assert(s =~= t.push(s.last()));
        assert(insertion_sort(s, leq).to_multiset().len() == insertion_sort(s, leq).len());
    }
}

/// The string order is a total preorder.
pub proof fn lemma_text_leq_total()
    ensures
        strongly_connected(text_leq()),
        transitive(text_leq()),
{
    lemma_orders_total();
    let lc = lex_order(byte_order());
    assert forall|x: String, y: String| #[trigger] text_leq()(x, y) || #[trigger] text_leq()(y, x) by {
        assert(lc(encode_utf8(x@), encode_utf8(y@)) == -lc(encode_utf8(y@), encode_utf8(x@)));
    }
    assert forall|x: String, y: String, z: String|
        #[trigger] text_leq()(x, y) && #[trigger] text_leq()(y, z) implies text_leq()(x, z) by {
        assert(lc(encode_utf8(x@), encode_utf8(y@)) <= 0 && lc(encode_utf8(y@), encode_utf8(z@)) <= 0);
    }
}

/// Two texts with the same UTF-8 bytes are the same text.
pub proof fn lemma_encode_injective(a: Seq<char>, b: Seq<char>)
    requires
        encode_utf8(a) == encode_utf8(b),
    ensures
        a == b,
{
    encode_utf8_decode_utf8(a);
    encode_utf8_decode_utf8(b);
}

/// Compares two byte strings lexicographically.
pub fn compare_bytes(a: &[u8], b: &[u8]) -> (c: i8)
    ensures
        c == bytes_compare(a@, b@),
{
    let mut i: usize = 0;
    while i < a.len() && i < b.len()
        invariant
            i <= a.len(),
            i <= b.len(),
            bytes_compare(a@, b@) == lex_compare_from(a@, b@, byte_order(), i as int),
        decreases a.len() - i,
    {
        if a[i] < b[i] {
            return -1;
        }
        if a[i] > b[i] {
            return 1;
        }
        i = i + 1;
    }
    if i < b.len() {
        -1
    } else if i < a.len() {
        1
    } else {
        0
    }
}

/// Compares two component paths: component by component, each as bytes.
pub fn compare_components(a: &Vec<Vec<u8>>, b: &Vec<Vec<u8>>) -> (c: i8)
    ensures
        c == components_compare(a.deep_view(), b.deep_view()),
{
    let ghost av = a.deep_view();
    let ghost bv = b.deep_view();
    let mut i: usize = 0;
    while i < a.len() && i < b.len()
        invariant
            i <= a.len(),
            i <= b.len(),
            av == a.deep_view(),
            bv == b.deep_view(),
            components_compare(av, bv) == lex_compare_from(av, bv, lex_order(byte_order()), i as int),
        decreases a.len() - i,
    {
        let c = compare_bytes(a[i].as_slice(), b[i].as_slice());
        assert(av[i as int] == a@[i as int]@);
        assert(bv[i as int] == b@[i as int]@);
        if c != 0 {
            return c;
        }
        i = i + 1;
    }
    if i < b.len() {
        -1
    } else if i < a.len() {
        1
    } else {
        0
    }
}

/// Sorts strings into the order of `str`, stably.
pub fn sort_texts(items: Vec<String>) -> (sorted: Vec<String>)
    ensures
        sorted@ == insertion_sort(items@, text_leq()),
{
    let ghost input = items@;
    let total = items.len();
    let mut rest = items;
    let mut sorted: Vec<String> = Vec::new();
    let mut i: usize = 0;
    while rest.len() > 0
        invariant
            i + rest@.len() == input.len(),
            input.len() == total,
            rest@ == input.skip(i as int),
            sorted@ == insertion_sort(input.take(i as int), text_leq()),
        decreases rest@.len(),
    {
        let x = rest.remove(0);
        let ghost before = sorted@;
        let mut j: usize = sorted.len();
        while j > 0 && compare_bytes(sorted[j - 1].as_str().as_bytes(), x.as_str().as_bytes()) > 0
            invariant
                j <= sorted@.len(),
                sorted@ == before,
                forall|k: int| j <= k < before.len() ==> !text_leq()(#[trigger] before[k], x),
            decreases j,
        {
            j = j - 1;
        }
        proof {
            lemma_insert_position(before, x, text_leq(), j as int);
            assert(input.take(i + 1) =~= input.take(i as int).push(x));
            assert(input.take(i + 1).drop_last() =~= input.take(i as int));
        }
        sorted.insert(j, x);
        assert(sorted@ =~= before.take(j as int).push(x) + before.skip(j as int));
        i = i + 1;
        assert(rest@ =~= input.skip(i as int));
    }
    assert(input.take(i as int) =~= input);
    sorted
}

} // verus!
