//! Stable ordering by a signed key, largest first.

use vstd::prelude::*;

verus! {

/// First index at `i` or later of an item of `s` whose key is below `k`,
/// or the end.
pub open spec fn key_insert_pos<T>(s: Seq<(T, i64)>, k: i64, i: int) -> int
    decreases s.len() - i,
{
    if i < 0 || i >= s.len() {
        s.len() as int
    } else if s[i].1 < k {
        i
    } else {
        key_insert_pos(s, k, i + 1)
    }
}

/// `s` ordered by key, largest first, items of equal key in their order in
/// `s` (a stable sort): each item in turn goes after every item already
/// placed whose key is at least its own.
pub open spec fn sorted_by_key_desc<T>(s: Seq<(T, i64)>) -> Seq<(T, i64)>
    decreases s.len(),
{
    if s.len() == 0 {
        Seq::empty()
    } else {
        let a = sorted_by_key_desc(s.drop_last());
        a.insert(key_insert_pos(a, s.last().1, 0), s.last())
    }
}

/// Keys never increase along `s`.
pub open spec fn keys_descending<T>(s: Seq<(T, i64)>) -> bool {
    forall|i: int, j: int| 0 <= i < j < s.len() ==> (#[trigger] s[i]).1 >= (#[trigger] s[j]).1
}

proof fn lemma_key_insert_pos<T>(s: Seq<(T, i64)>, k: i64, i: int)
    requires
        0 <= i <= s.len(),
    ensures
        i <= key_insert_pos(s, k, i) <= s.len(),
        forall|j: int| i <= j < key_insert_pos(s, k, i) ==> (#[trigger] s[j]).1 >= k,
        key_insert_pos(s, k, i) < s.len() ==> s[key_insert_pos(s, k, i)].1 < k,
    decreases s.len() - i,
{
    if i < s.len() && s[i].1 >= k {
        lemma_key_insert_pos(s, k, i + 1);
    }
}

/// Sorting keeps every item, as often as it occurs, and puts the keys in
/// descending order.
pub proof fn lemma_sorted_by_key_desc<T>(s: Seq<(T, i64)>)
    ensures
        keys_descending(sorted_by_key_desc(s)),
        sorted_by_key_desc(s).to_multiset() == s.to_multiset(),
        sorted_by_key_desc(s).len() == s.len(),
    decreases s.len(),
{
    if s.len() == 0 {
        assert(sorted_by_key_desc(s) =~= s);
    } else {
        let a = sorted_by_key_desc(s.drop_last());
        lemma_sorted_by_key_desc(s.drop_last());
        let x = s.last();
        let p = key_insert_pos(a, x.1, 0);
        lemma_key_insert_pos(a, x.1, 0);
        let r = a.insert(p, x);
        assert forall|i: int, j: int| 0 <= i < j < r.len() implies (#[trigger] r[i]).1 >= (#[trigger] r[j]).1 by {
            if j < p {
                assert(r[i] == a[i] && r[j] == a[j]);
            } else if j == p {
                assert(r[i] == a[i]);
            } else if i < p {
                assert(r[i] == a[i] && r[j] == a[j - 1]);
                if j - 1 > p {
                    assert(a[p].1 >= a[j - 1].1);
                }
            } else if i == p {
                assert(r[j] == a[j - 1]);
                if j - 1 > p {
                    assert(a[p].1 >= a[j - 1].1);
                }
            } else {
                assert(r[i] == a[i - 1] && r[j] == a[j - 1]);
            }
        }
        assert(s =~= s.drop_last().push(x));
        vstd::seq_lib::to_multiset_insert(a, p, x);
        vstd::seq_lib::to_multiset_build(s.drop_last(), x);
    }
}

/// `items` ordered by key, largest first; items of equal key keep their order.
pub fn sort_by_key_desc<T>(items: Vec<(T, i64)>) -> (r: Vec<(T, i64)>)
    ensures
        r@ == sorted_by_key_desc(items@),
{
    let ghost s = items@;
    let ghost mut k: int = 0;
    let mut rest = items;
    let mut out: Vec<(T, i64)> = Vec::new();
    assert(s.skip(0) =~= s);
    assert(s.take(0) =~= Seq::<(T, i64)>::empty());
    while rest.len() > 0
        invariant
            0 <= k <= s.len(),
            s.len() == k + rest@.len(),
            rest@ == s.skip(k),
            out@ == sorted_by_key_desc(s.take(k)),
        decreases rest.len(),
    {
        let ghost ov = out@;
        let x = rest.remove(0);
        let mut j: usize = 0;
        while j < out.len() && out[j].1 >= x.1
            invariant
                j <= out@.len(),
                ov == out@,
                key_insert_pos(ov, x.1, 0) == key_insert_pos(ov, x.1, j as int),
            decreases out.len() - j,
        {
            j = j + 1;
        }
        out.insert(j, x);
        proof {
            assert(s.take(k + 1).drop_last() =~= s.take(k));
            assert(s.take(k + 1).last() == s[k]);
            assert(rest@ =~= s.skip(k + 1));
            k = k + 1;
        }
    }
    assert(s.take(k) =~= s);
    out
}

/// Sorting neither adds nor drops items: an item is in the sorted sequence
/// exactly when it is in the input.
pub proof fn lemma_sorted_contains<T>(s: Seq<(T, i64)>)
    ensures
        forall|x: (T, i64)| #[trigger] sorted_by_key_desc(s).contains(x) <==> s.contains(x),
{
    lemma_sorted_by_key_desc(s);
    s.to_multiset_ensures();
    sorted_by_key_desc(s).to_multiset_ensures();
    assert forall|x: (T, i64)| #[trigger] sorted_by_key_desc(s).contains(x) <==> s.contains(x) by {
        assert(sorted_by_key_desc(s).to_multiset().count(x) == s.to_multiset().count(x));
    }
}

/// Sorting an input without repeated items gives a sequence without
/// repeated items.
pub proof fn lemma_sorted_no_duplicates<T>(s: Seq<(T, i64)>)
    requires
        s.no_duplicates(),
    ensures
        sorted_by_key_desc(s).no_duplicates(),
{
    lemma_sorted_by_key_desc(s);
    s.lemma_multiset_has_no_duplicates();
    sorted_by_key_desc(s).lemma_multiset_has_no_duplicates_conv();
}

/// Each item's place depends on the keys only, so relabelling the items
/// (keeping their keys) commutes with sorting.
pub proof fn lemma_sort_relabel<T, U>(s: Seq<(T, i64)>, f: spec_fn(T) -> U)
    ensures
        sorted_by_key_desc(s.map_values(|p: (T, i64)| (f(p.0), p.1))) == sorted_by_key_desc(s).map_values(
            |p: (T, i64)| (f(p.0), p.1),
        ),
    decreases s.len(),
{
    let g = |p: (T, i64)| (f(p.0), p.1);
    let m = s.map_values(g);
    if s.len() == 0 {
        assert(m =~= Seq::<(U, i64)>::empty());
        assert(sorted_by_key_desc(s).map_values(g) =~= Seq::<(U, i64)>::empty());
    } else {
        lemma_sort_relabel(s.drop_last(), f);
        assert(m.drop_last() =~= s.drop_last().map_values(g));
        let a = sorted_by_key_desc(s.drop_last());
        let am = a.map_values(g);
        assert(sorted_by_key_desc(m.drop_last()) == am);
        let k = s.last().1;
        assert(m.last() == g(s.last()));
        lemma_key_insert_pos(a, k, 0);
        lemma_key_insert_pos(am, k, 0);
        lemma_relabel_insert_pos(a, g, k, 0);
        let p = key_insert_pos(a, k, 0);
        assert(am.insert(p, g(s.last())) =~= a.insert(p, s.last()).map_values(g));
    }
}

proof fn lemma_relabel_insert_pos<T, U>(a: Seq<(T, i64)>, g: spec_fn((T, i64)) -> (U, i64), k: i64, i: int)
    requires
        0 <= i <= a.len(),
        forall|p: (T, i64)| #[trigger] g(p).1 == p.1,
    ensures
        key_insert_pos(a.map_values(g), k, i) == key_insert_pos(a, k, i),
    decreases a.len() - i,
{
    if i < a.len() {
        assert(a.map_values(g)[i].1 == a[i].1);
        lemma_relabel_insert_pos(a, g, k, i + 1);
    }
}

/// Takes the items out of key-item pairs.
pub fn strip_keys<T>(v: Vec<(T, i64)>) -> (r: Vec<T>)
    ensures
        r@ == v@.map_values(|p: (T, i64)| p.0),
{
    let ghost s = v@;
    let mut rest = v;
    let mut out: Vec<T> = Vec::new();
    let ghost mut k: int = 0;
    assert(s.skip(0) =~= s);
    assert(out@ =~= s.take(0).map_values(|p: (T, i64)| p.0));
    while rest.len() > 0
        invariant
            0 <= k <= s.len(),
            s.len() == k + rest@.len(),
            rest@ == s.skip(k),
            out@ == s.take(k).map_values(|p: (T, i64)| p.0),
        decreases rest.len(),
    {
        let x = rest.remove(0);
        out.push(x.0);
        proof {
            assert(out@ =~= s.take(k + 1).map_values(|p: (T, i64)| p.0));
            assert(rest@ =~= s.skip(k + 1));
            k = k + 1;
        }
    }
    assert(s.take(k) =~= s);
    out
}

} // verus!
