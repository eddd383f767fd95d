//! Stable sorting of records by identifier.

use vstd::prelude::*;
use crate::ident::{
    id_le, id_order, lemma_id_le_antisymmetric, lemma_id_le_total, lemma_id_le_transitive,
    precedes_or_equals,
};
use crate::record::Keyed;

verus! {

/// Whether the identifier of `a` comes before that of `b`, or equals it.
pub open spec fn key_le<T: Keyed>(a: T, b: T) -> bool {
    id_le(a.key(), b.key())
}

/// The identifiers of the records of `s`, in the order of `s`.
pub open spec fn keys<T: Keyed>(s: Seq<T>) -> Seq<Seq<char>> {
    s.map_values(|x: T| x.key())
}

/// Whether the identifiers of `s` ascend, equal ones side by side.
pub open spec fn sorted_by_key<T: Keyed>(s: Seq<T>) -> bool {
    forall|i: int, j: int| 0 <= i < j < s.len() ==> key_le(#[trigger] s[i], #[trigger] s[j])
}

/// The test for a record whose identifier is `k`.
pub open spec fn has_key<T: Keyed>(k: Seq<char>) -> spec_fn(T) -> bool {
    |x: T| x.key() == k
}

/// `s` with `x` put behind the last record whose identifier does not come
/// after that of `x`.
pub open spec fn insert_by_key<T: Keyed>(s: Seq<T>, x: T) -> Seq<T>
    decreases s.len(),
{
    if s.len() == 0 {
        seq![x]
    } else if key_le(s.last(), x) {
        s.push(x)
    } else {
        insert_by_key(s.drop_last(), x).push(s.last())
    }
}

/// The place at which `insert_by_key` puts `x` into `s`.
pub open spec fn insert_pos<T: Keyed>(s: Seq<T>, x: T) -> int
    decreases s.len(),
{
    if s.len() == 0 {
        0
    } else if key_le(s.last(), x) {
        s.len() as int
    } else {
        insert_pos(s.drop_last(), x)
    }
}

/// The records of `s` in ascending order of their identifiers; records with
/// the same identifier keep the order they have in `s`.
pub open spec fn stable_sort<T: Keyed>(s: Seq<T>) -> Seq<T>
    decreases s.len(),
{
    if s.len() == 0 {
        Seq::empty()
    } else {
        insert_by_key(stable_sort(s.drop_last()), s.last())
    }
}

/// The records of `a` and `b` drawn together from the back: the last record
/// of `a` goes last only where its identifier comes after that of the last
/// record of `b`.
pub open spec fn merge_by_key<T: Keyed>(a: Seq<T>, b: Seq<T>) -> Seq<T>
    decreases a.len() + b.len(),
{
    if a.len() == 0 {
        b
    } else if b.len() == 0 {
        a
    } else if !key_le(a.last(), b.last()) {
        merge_by_key(a.drop_last(), b).push(a.last())
    } else {
        merge_by_key(a, b.drop_last()).push(b.last())
    }
}

/// Sorts records by identifier, keeping records with the same identifier in
/// the order in which they came.
pub fn sort_by_key<T: Keyed>(v: Vec<T>) -> (out: Vec<T>)
    ensures
        out@ == stable_sort(v@),
        sorted_by_key(out@),
        out@.to_multiset() == v@.to_multiset(),
    decreases v@.len(),
{
    proof {
        lemma_sort_is_sorted(v@);
        lemma_sort_permutes(v@);
    }
    let n: usize = v.len();
    if n <= 1 {
        proof {
            if n == 1 {
                assert(stable_sort(v@.drop_last()) =~= Seq::<T>::empty());
            }
        }
        return v;
    }
    let ghost whole = v@;
    let mut left = v;
    let right = left.split_off(n / 2);
    proof {
        assert(left@ + right@ =~= whole);
        lemma_sort_of_concat(left@, right@);
    }
    let left = sort_by_key(left);
    let right = sort_by_key(right);
    merge_runs(left, right)
}

/// Merges two sorted runs, the records of `a` before those of `b` where the
/// identifiers are equal.
fn merge_runs<T: Keyed>(a: Vec<T>, b: Vec<T>) -> (out: Vec<T>)
    ensures
        out@ == merge_by_key(a@, b@),
{
    let ghost whole = merge_by_key(a@, b@);
    let mut a = a;
    let mut b = b;
    // The records that come last, the last one first.
    let mut tail: Vec<T> = Vec::new();
    while a.len() > 0 && b.len() > 0
        invariant
            merge_by_key(a@, b@) + tail@.reverse() == whole,
        decreases a.len() + b.len(),
    {
        let last_of_a = a[a.len() - 1].key_str();
        let last_of_b = b[b.len() - 1].key_str();
        let from_left = !precedes_or_equals(last_of_a, last_of_b);
        let x = if from_left {
            a.pop().unwrap()
        } else {
            b.pop().unwrap()
        };
        tail.push(x);
    }
    let mut out = if a.len() > 0 {
        a
    } else {
        b
    };
    while tail.len() > 0
        invariant
            out@ + tail@.reverse() == whole,
        decreases tail.len(),
    {
        let x = tail.pop().unwrap();
        out.push(x);
    }
    out
}

/// The identifiers of a sorted sequence ascend.
pub proof fn lemma_sort_is_sorted<T: Keyed>(s: Seq<T>)
    ensures
        sorted_by_key(stable_sort(s)),
    decreases s.len(),
{
    if s.len() > 0 {
        let t = stable_sort(s.drop_last());
        let x = s.last();
        let p = insert_pos(t, x);
        let r = stable_sort(s);
        lemma_sort_is_sorted(s.drop_last());
        lemma_insert_at_pos(t, x);
        assert forall|i: int, j: int| 0 <= i < j < r.len() implies key_le(
            #[trigger] r[i],
            #[trigger] r[j],
        ) by {
            if j == p && i < p - 1 {
                lemma_id_le_transitive(t[i].key(), t[p - 1].key(), x.key());
            } else if i == p {
                lemma_id_le_total(t[j - 1].key(), x.key());
            }
        }
    }
}

/// Sorting neither adds nor loses a record.
pub proof fn lemma_sort_permutes<T: Keyed>(s: Seq<T>)
    ensures
        stable_sort(s).to_multiset() == s.to_multiset(),
        stable_sort(s).len() == s.len(),
    decreases s.len(),
{
    broadcast use vstd::seq_lib::group_to_multiset_ensures;

    if s.len() > 0 {
        let t = s.drop_last();
        lemma_sort_permutes(t);
        lemma_insert_at_pos(stable_sort(t), s.last());
        assert(t.push(s.last()) =~= s);
    }
}

/// Sorting neither adds nor loses an identifier.
pub proof fn lemma_sort_permutes_keys<T: Keyed>(s: Seq<T>)
    ensures
        keys(stable_sort(s)).to_multiset() == keys(s).to_multiset(),
    decreases s.len(),
{
    broadcast use vstd::seq_lib::group_to_multiset_ensures;

    if s.len() > 0 {
        let t = stable_sort(s.drop_last());
        let x = s.last();
        let p = insert_pos(t, x);
        lemma_sort_permutes_keys(s.drop_last());
        lemma_insert_at_pos(t, x);
        assert(keys(t.insert(p, x)) =~= keys(t).insert(p, x.key()));
        assert(keys(s) =~= keys(s.drop_last()).push(x.key()));
    }
}

/// Sorting keeps the records of one identifier in the order they came in.
pub proof fn lemma_sort_is_stable<T: Keyed>(s: Seq<T>, k: Seq<char>)
    ensures
        stable_sort(s).filter(has_key(k)) == s.filter(has_key(k)),
    decreases s.len(),
{
    reveal(Seq::filter);
    if s.len() > 0 {
        let t = stable_sort(s.drop_last());
        let x = s.last();
        let p = insert_pos(t, x);
        let f = has_key::<T>(k);
        lemma_sort_is_stable(s.drop_last(), k);
        lemma_insert_at_pos(t, x);
        let before = t.take(p);
        let after = t.skip(p);
        assert(t =~= before + after);
        Seq::filter_distributes_over_add(before, after, f);
        Seq::filter_distributes_over_add(before.push(x), after, f);
        assert(before.push(x).drop_last() =~= before);
        if x.key() == k {
            assert forall|j: int| 0 <= j < after.len() implies !f(#[trigger] after[j]) by {
                lemma_id_le_total(x.key(), x.key());
            }
            lemma_filter_none(after, f);
        }
    }
}

/// Sorting is determined by what it promises: a sequence that is sorted and
/// holds, for every identifier, the records of `s` with that identifier in
/// the order of `s`, is the sorted `s`.
pub proof fn lemma_sort_is_determined<T: Keyed>(s: Seq<T>, out: Seq<T>)
    requires
        sorted_by_key(out),
        forall|k: Seq<char>| #[trigger] out.filter(has_key(k)) == s.filter(has_key(k)),
    ensures
        out == stable_sort(s),
{
    lemma_sort_is_sorted(s);
    assert forall|k: Seq<char>| #[trigger]
        out.filter(has_key(k)) == stable_sort(s).filter(has_key(k)) by {
        lemma_sort_is_stable(s, k);
    }
    lemma_sorted_and_stable_is_unique(out, stable_sort(s));
}

/// Two lists of the same records, in whatever order, sort to the same
/// sequence, where no identifier occurs twice.
pub proof fn lemma_sort_ignores_order<T: Keyed>(a: Seq<T>, b: Seq<T>)
    requires
        a.to_multiset() == b.to_multiset(),
        keys(a).no_duplicates(),
    ensures
        stable_sort(a) == stable_sort(b),
{
    lemma_sort_permutes(a);
    lemma_sort_permutes(b);
    lemma_sort_is_sorted(a);
    lemma_sort_is_sorted(b);
    lemma_sort_permutes_keys(a);
    keys(a).lemma_multiset_has_no_duplicates();
    keys(stable_sort(a)).lemma_multiset_has_no_duplicates_conv();
    lemma_sorted_is_unique(stable_sort(a), stable_sort(b));
}

/// Sorting two parts and merging them is sorting the whole.
pub proof fn lemma_sort_of_concat<T: Keyed>(a: Seq<T>, b: Seq<T>)
    ensures
        stable_sort(a + b) == merge_by_key(stable_sort(a), stable_sort(b)),
    decreases b.len(),
{
    if b.len() == 0 {
        assert(a + b =~= a);
    } else {
        assert((a + b).drop_last() =~= a + b.drop_last());
        lemma_sort_of_concat(a, b.drop_last());
        lemma_insert_into_merge(stable_sort(a), stable_sort(b.drop_last()), b.last());
    }
}

/// The identifiers of a sorted sequence ascend in the order of identifiers.
pub proof fn lemma_sorted_keys<T: Keyed>(s: Seq<T>)
    requires
        sorted_by_key(s),
    ensures
        vstd::relations::sorted_by(keys(s), id_order()),
{
    let k = keys(s);
    assert forall|i: int, j: int| 0 <= i < j < k.len() implies #[trigger] id_order()(
        k[i],
        k[j],
    ) by {
        assert(key_le(s[i], s[j]));
    }
}

/// Two sorted sequences of the same records are the same sequence, where no
/// identifier occurs twice.
pub proof fn lemma_sorted_is_unique<T: Keyed>(x: Seq<T>, y: Seq<T>)
    requires
        sorted_by_key(x),
        sorted_by_key(y),
        x.to_multiset() == y.to_multiset(),
        keys(x).no_duplicates(),
    ensures
        x == y,
    decreases x.len(),
{
    broadcast use vstd::seq_lib::group_to_multiset_ensures;
    broadcast use vstd::multiset::group_multiset_axioms;

    assert(x.len() == x.to_multiset().len());
    assert(y.len() == y.to_multiset().len());
    if x.len() == 0 {
        assert(x =~= y);
    } else {
        // Each sequence holds the first record of the other, so that the two
        // first records have the same identifier: they are one record.
        assert(y.to_multiset().count(x[0]) > 0);
        assert(x.to_multiset().count(y[0]) > 0);
        let i = choose|i: int| 0 <= i < x.len() && x[i] == y[0];
        let j = choose|j: int| 0 <= j < y.len() && y[j] == x[0];
        lemma_id_le_total(x[0].key(), x[0].key());
        lemma_id_le_total(y[0].key(), y[0].key());
        lemma_id_le_antisymmetric(x[0].key(), y[0].key());
        assert(keys(x)[0] == keys(x)[i]);
        assert(i == 0);
        let xs = x.drop_first();
        let ys = y.drop_first();
        assert(x.remove(0) =~= xs);
        assert(y.remove(0) =~= ys);
        assert(keys(xs) =~= keys(x).drop_first());
        assert forall|a: int, b: int| 0 <= a < b < xs.len() implies key_le(
            #[trigger] xs[a],
            #[trigger] xs[b],
        ) by {
            assert(key_le(x[a + 1], x[b + 1]));
        }
        assert forall|a: int, b: int| 0 <= a < b < ys.len() implies key_le(
            #[trigger] ys[a],
            #[trigger] ys[b],
        ) by {
            assert(key_le(y[a + 1], y[b + 1]));
        }
        lemma_sorted_is_unique(xs, ys);
        assert(x =~= seq![x[0]] + xs);
        assert(y =~= seq![y[0]] + ys);
    }
}

/// `insert_by_key` puts `x` at `insert_pos`: directly behind a record that
/// does not come after it, and before records that all come after it.
pub proof fn lemma_insert_at_pos<T: Keyed>(s: Seq<T>, x: T)
    ensures
        0 <= insert_pos(s, x) <= s.len(),
        insert_by_key(s, x) == s.insert(insert_pos(s, x), x),
        insert_pos(s, x) > 0 ==> key_le(s[insert_pos(s, x) - 1], x),
        forall|j: int| insert_pos(s, x) <= j < s.len() ==> !key_le(#[trigger] s[j], x),
    decreases s.len(),
{
    if s.len() > 0 && !key_le(s.last(), x) {
        let t = s.drop_last();
        let p = insert_pos(t, x);
        lemma_insert_at_pos(t, x);
        assert forall|j: int| p <= j < s.len() implies !key_le(#[trigger] s[j], x) by {
            if j < t.len() {
                assert(s[j] == t[j]);
            }
        }
    }
}

/// Inserting into a merge is merging with the insertion into the later part.
proof fn lemma_insert_into_merge<T: Keyed>(a: Seq<T>, b: Seq<T>, x: T)
    ensures
        insert_by_key(merge_by_key(a, b), x) == merge_by_key(a, insert_by_key(b, x)),
    decreases a.len() + b.len(),
{
    let m = merge_by_key(a, b);
    let i = insert_by_key(b, x);
    if a.len() == 0 {
    } else if b.len() == 0 {
        assert(m == a);
        assert(i.last() == x);
        assert(i.drop_last() =~= b);
        if key_le(a.last(), x) {
            assert(merge_by_key(a, b) == a);
        } else {
            assert(merge_by_key(a.drop_last(), b) == a.drop_last());
            lemma_insert_into_merge(a.drop_last(), b, x);
        }
    } else {
        let al = a.last();
        let bl = b.last();
        if key_le(bl, x) {
            // `x` goes to the end of `b`.
            assert(i.last() == x);
            assert(i.drop_last() =~= b);
            if !key_le(al, x) {
                // `al` comes after `x`, and so after `bl`: it is last on
                // both sides.
                if key_le(al, bl) {
                    lemma_id_le_transitive(al.key(), bl.key(), x.key());
                }
                assert(m.last() == al);
                assert(m.drop_last() =~= merge_by_key(a.drop_last(), b));
                lemma_insert_into_merge(a.drop_last(), b, x);
            }
        } else {
            // `x` goes before `bl`.
            assert(i.last() == bl);
            assert(i.drop_last() =~= insert_by_key(b.drop_last(), x));
            if !key_le(al, bl) {
                // `al` comes after `bl`, and so after `x`: it is last on
                // both sides.
                if key_le(al, x) {
                    lemma_id_le_total(al.key(), bl.key());
                    lemma_id_le_transitive(bl.key(), al.key(), x.key());
                }
                assert(m.last() == al);
                assert(m.drop_last() =~= merge_by_key(a.drop_last(), b));
                lemma_insert_into_merge(a.drop_last(), b, x);
            } else {
                // `bl` is last on both sides.
                assert(m.last() == bl);
                assert(m.drop_last() =~= merge_by_key(a, b.drop_last()));
                lemma_insert_into_merge(a, b.drop_last(), x);
            }
        }
    }
}

/// Two sorted sequences that hold, for every identifier, the same records
/// in the same order are the same sequence.
proof fn lemma_sorted_and_stable_is_unique<T: Keyed>(x: Seq<T>, y: Seq<T>)
    requires
        sorted_by_key(x),
        sorted_by_key(y),
        forall|k: Seq<char>| #[trigger] x.filter(has_key(k)) == y.filter(has_key(k)),
    ensures
        x == y,
    decreases x.len() + y.len(),
{
    reveal(Seq::filter);
    if x.len() == 0 && y.len() == 0 {
    } else if x.len() == 0 {
        let k = y.last().key();
        assert(x.filter(has_key(k)) == y.filter(has_key(k)));
    } else if y.len() == 0 {
        let k = x.last().key();
        assert(x.filter(has_key(k)) == y.filter(has_key(k)));
    } else {
        // The last record of each is among the records of the other, so
        // that the two last records have the same identifier. They are the
        // last records with that identifier, and so one record.
        let kx = x.last().key();
        let ky = y.last().key();
        let fx = x.filter(has_key(kx));
        let fy = y.filter(has_key(ky));
        assert(fx.last() == x.last());
        assert(fy.last() == y.last());
        assert(fx.contains(x.last()));
        assert(fy.contains(y.last()));
        y.lemma_filter_contains_rev(has_key(kx), x.last());
        x.lemma_filter_contains_rev(has_key(ky), y.last());
        let i = choose|i: int| 0 <= i < y.len() && y[i] == x.last();
        let j = choose|j: int| 0 <= j < x.len() && x[j] == y.last();
        lemma_id_le_total(kx, kx);
        lemma_id_le_total(ky, ky);
        lemma_id_le_antisymmetric(kx, ky);
        assert(x.last() == y.last());
        let xs = x.drop_last();
        let ys = y.drop_last();
        assert forall|k: Seq<char>| #[trigger]
            xs.filter(has_key(k)) == ys.filter(has_key(k)) by {
            assert(x.filter(has_key(k)) == y.filter(has_key(k)));
            if k == kx {
                assert(has_key::<T>(k)(x.last()));
                assert(xs.filter(has_key(k)) =~= x.filter(has_key(k)).drop_last());
                assert(ys.filter(has_key(k)) =~= y.filter(has_key(k)).drop_last());
            }
        }
        assert forall|a: int, b: int| 0 <= a < b < xs.len() implies key_le(
            #[trigger] xs[a],
            #[trigger] xs[b],
        ) by {
            assert(key_le(x[a], x[b]));
        }
        assert forall|a: int, b: int| 0 <= a < b < ys.len() implies key_le(
            #[trigger] ys[a],
            #[trigger] ys[b],
        ) by {
            assert(key_le(y[a], y[b]));
        }
        lemma_sorted_and_stable_is_unique(xs, ys);
        assert(x =~= xs.push(x.last()));
        assert(y =~= ys.push(y.last()));
    }
}

/// A filter that no record passes leaves nothing.
proof fn lemma_filter_none<T>(s: Seq<T>, f: spec_fn(T) -> bool)
    requires
        forall|j: int| 0 <= j < s.len() ==> !f(#[trigger] s[j]),
    ensures
        s.filter(f) == Seq::<T>::empty(),
    decreases s.len(),
{
    reveal(Seq::filter);
    if s.len() > 0 {
        lemma_filter_none(s.drop_last(), f);
    }
}

} // verus!
