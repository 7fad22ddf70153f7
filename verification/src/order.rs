//! Orderings: stable insertion sort and strictly sorted name lists.
//!
//! `sort_by` and the standard sets and maps have no specification in vstd for
//! an order on strings, so nothing could be proved of their results; sorting
//! here is a stable insertion sort (`sort_stable`, the model, with loops that
//! refine it), and name sets are vectors kept strictly increasing
//! (`insert_name`), whose contents and order are both stated.

use vstd::prelude::*;
use crate::text::{seq_lt, str_lt, str_eq, to_owned_string, strings_view, lemma_seq_lt_irreflexive,
    lemma_seq_lt_transitive, lemma_seq_lt_total, lemma_seq_lt_asymmetric};

verus! {

/// Inserts `x` into `s` before the first element that `x` sorts strictly
/// before, so that `x` follows every element it ties with.
pub open spec fn insert_stable<T>(s: Seq<T>, x: T, lt: spec_fn(T, T) -> bool) -> Seq<T>
    decreases s.len(),
{
    if s.len() == 0 {
        seq![x]
    } else if lt(x, s[0]) {
        seq![x] + s
    } else {
        seq![s[0]] + insert_stable(s.drop_first(), x, lt)
    }
}

/// Stable insertion sort: elements that tie keep their relative order.
pub open spec fn sort_stable<T>(s: Seq<T>, lt: spec_fn(T, T) -> bool) -> Seq<T>
    decreases s.len(),
{
    if s.len() == 0 {
        s
    } else {
        insert_stable(sort_stable(s.drop_last(), lt), s.last(), lt)
    }
}

/// Inserting at the first position `i` where `x` sorts before `s[i]` is
/// `insert_stable`.
pub proof fn lemma_insert_stable_at<T>(s: Seq<T>, x: T, lt: spec_fn(T, T) -> bool, i: int)
    requires
        0 <= i <= s.len(),
        forall|k: int| 0 <= k < i ==> !lt(x, #[trigger] s[k]),
        i < s.len() ==> lt(x, s[i]),
    ensures
        insert_stable(s, x, lt) == s.take(i) + seq![x] + s.skip(i),
    decreases i,
{
    if s.len() == 0 {
        assert(s.take(i) + seq![x] + s.skip(i) =~= seq![x]);
    } else if i == 0 {
        assert(s.take(i) + seq![x] + s.skip(i) =~= seq![x] + s);
    } else {
        assert(!lt(x, s[0]));
        let t = s.drop_first();
        assert forall|k: int| 0 <= k < i - 1 implies !lt(x, #[trigger] t[k]) by {
            assert(t[k] == s[k + 1]);
        }
        lemma_insert_stable_at(t, x, lt, i - 1);
        assert(seq![s[0]] + (t.take(i - 1) + seq![x] + t.skip(i - 1)) =~= s.take(i) + seq![x]
            + s.skip(i));
    }
}

/// `s` is sorted by `lt`: no element sorts strictly before an earlier one.
pub open spec fn sorted_by<T>(s: Seq<T>, lt: spec_fn(T, T) -> bool) -> bool {
    forall|i: int, j: int| 0 <= i < j < s.len() ==> !lt(#[trigger] s[j], #[trigger] s[i])
}

/// `lt` is a strict order: irreflexive and transitive.
pub open spec fn strict_order<T>(lt: spec_fn(T, T) -> bool) -> bool {
    &&& forall|a: T| !#[trigger] lt(a, a)
    &&& forall|a: T, b: T, c: T| #[trigger] lt(a, b) && #[trigger] lt(b, c) ==> lt(a, c)
}

/// Inserting adds exactly the inserted element.
pub proof fn lemma_insert_stable_to_multiset<T>(s: Seq<T>, x: T, lt: spec_fn(T, T) -> bool)
    ensures
        insert_stable(s, x, lt).to_multiset() == s.to_multiset().insert(x),
    decreases s.len(),
{
    broadcast use vstd::seq_lib::group_to_multiset_ensures;
    broadcast use vstd::multiset::group_multiset_axioms;

    if s.len() == 0 {
        assert(seq![x] =~= s.push(x));
    } else if lt(x, s[0]) {
        vstd::seq_lib::lemma_multiset_commutative(seq![x], s);
        assert(seq![x] =~= Seq::<T>::empty().push(x));
        assert((seq![x] + s).to_multiset() =~= s.to_multiset().insert(x));
    } else {
        let t = s.drop_first();
        lemma_insert_stable_to_multiset(t, x, lt);
        vstd::seq_lib::lemma_multiset_commutative(seq![s[0]], t);
        vstd::seq_lib::lemma_multiset_commutative(seq![s[0]], insert_stable(t, x, lt));
        assert(seq![s[0]] =~= Seq::<T>::empty().push(s[0]));
        assert(s =~= seq![s[0]] + t);
        assert(insert_stable(s, x, lt).to_multiset() =~= s.to_multiset().insert(x));
    }
}

/// Sorting permutes: the result holds the same elements, as often.
pub proof fn lemma_sort_stable_to_multiset<T>(s: Seq<T>, lt: spec_fn(T, T) -> bool)
    ensures
        sort_stable(s, lt).to_multiset() == s.to_multiset(),
    decreases s.len(),
{
    broadcast use vstd::seq_lib::group_to_multiset_ensures;

    if s.len() > 0 {
        lemma_sort_stable_to_multiset(s.drop_last(), lt);
        lemma_insert_stable_to_multiset(sort_stable(s.drop_last(), lt), s.last(), lt);
        assert(s.drop_last().push(s.last()) =~= s);
    }
}

/// An element of the sorted sequence is an element of the input.
pub proof fn lemma_sort_stable_contains<T>(s: Seq<T>, lt: spec_fn(T, T) -> bool, x: T)
    ensures
        sort_stable(s, lt).contains(x) <==> s.contains(x),
{
    broadcast use vstd::seq_lib::group_to_multiset_ensures;

    lemma_sort_stable_to_multiset(s, lt);
    assert(sort_stable(s, lt).to_multiset().count(x) == s.to_multiset().count(x));
}

/// Inserting into a sorted sequence keeps it sorted.
pub proof fn lemma_insert_stable_sorted<T>(s: Seq<T>, x: T, lt: spec_fn(T, T) -> bool)
    requires
        strict_order(lt),
        sorted_by(s, lt),
    ensures
        sorted_by(insert_stable(s, x, lt), lt),
    decreases s.len(),
{
    broadcast use vstd::seq_lib::group_to_multiset_ensures;

    if s.len() == 0 {
    } else if lt(x, s[0]) {
        let r = seq![x] + s;
        assert forall|i: int, j: int| 0 <= i < j < r.len() implies !lt(#[trigger] r[j], #[trigger] r[i]) by {
            if i == 0 {
                assert(r[j] == s[j - 1]);
                if lt(s[j - 1], x) {
                    assert(lt(s[j - 1], s[0]));
                }
            } else {
                assert(r[i] == s[i - 1] && r[j] == s[j - 1]);
            }
        }
    } else {
        let t = s.drop_first();
        assert(sorted_by(t, lt)) by {
            assert forall|i: int, j: int| 0 <= i < j < t.len() implies !lt(#[trigger] t[j], #[trigger] t[i]) by {
                assert(t[i] == s[i + 1] && t[j] == s[j + 1]);
            }
        }
        lemma_insert_stable_sorted(t, x, lt);
        let u = insert_stable(t, x, lt);
        lemma_insert_stable_to_multiset(t, x, lt);
        let r = seq![s[0]] + u;
        assert forall|i: int, j: int| 0 <= i < j < r.len() implies !lt(#[trigger] r[j], #[trigger] r[i]) by {
            if i == 0 {
                let y = u[j - 1];
                assert(r[j] == y);
                assert(u.contains(y));
                assert(u.to_multiset().count(y) > 0);
                if y != x {
                    assert(t.to_multiset().count(y) > 0);
                    assert(t.contains(y));
                    let m = choose|m: int| 0 <= m < t.len() && t[m] == y;
                    assert(s[m + 1] == y);
                }
            } else {
                assert(r[i] == u[i - 1] && r[j] == u[j - 1]);
            }
        }
    }
}

/// Sorting yields a sorted sequence.
pub proof fn lemma_sort_stable_sorted<T>(s: Seq<T>, lt: spec_fn(T, T) -> bool)
    requires
        strict_order(lt),
    ensures
        sorted_by(sort_stable(s, lt), lt),
    decreases s.len(),
{
    if s.len() > 0 {
        lemma_sort_stable_sorted(s.drop_last(), lt);
        lemma_insert_stable_sorted(sort_stable(s.drop_last(), lt), s.last(), lt);
    }
}

/// A sequence of names in strictly increasing order (so without repeats).
pub open spec fn strictly_sorted(s: Seq<Seq<char>>) -> bool {
    forall|i: int, j: int| 0 <= i < j < s.len() ==> seq_lt(#[trigger] s[i], #[trigger] s[j])
}

/// The names of a finite set in strictly increasing order.
pub open spec fn sorted_names(names: Set<Seq<char>>) -> Seq<Seq<char>> {
    choose|s: Seq<Seq<char>>| strictly_sorted(s) && s.to_set() == names
}

/// Two strictly sorted sequences with the same elements are equal.
pub proof fn lemma_strictly_sorted_unique(a: Seq<Seq<char>>, b: Seq<Seq<char>>)
    requires
        strictly_sorted(a),
        strictly_sorted(b),
        a.to_set() == b.to_set(),
    ensures
        a == b,
    decreases a.len(),
{
    if a.len() == 0 {
        if b.len() > 0 {
            assert(b.to_set().contains(b[0]));
        }
        assert(a =~= b);
    } else {
        assert(a.to_set().contains(a[0]));
        assert(b.len() > 0);
        assert(b.to_set().contains(b[0]));
        let ka = choose|k: int| 0 <= k < a.len() && a[k] == b[0];
        let kb = choose|k: int| 0 <= k < b.len() && b[k] == a[0];
        if kb > 0 {
            assert(seq_lt(b[0], a[0]));
            if ka > 0 {
                assert(seq_lt(a[0], b[0]));
                lemma_seq_lt_asymmetric(a[0], b[0]);
            } else {
                lemma_seq_lt_irreflexive(a[0]);
            }
        }
        assert(a[0] == b[0]);
        let ta = a.drop_first();
        let tb = b.drop_first();
        assert forall|x: Seq<char>| ta.to_set().contains(x) implies tb.to_set().contains(x) by {
            let k = choose|k: int| 0 <= k < ta.len() && ta[k] == x;
            assert(a[k + 1] == x);
            assert(b.to_set().contains(x));
            let m = choose|m: int| 0 <= m < b.len() && b[m] == x;
            if m == 0 {
                assert(seq_lt(a[0], a[k + 1]));
                lemma_seq_lt_irreflexive(x);
            }
            assert(tb[m - 1] == x);
        }
        assert forall|x: Seq<char>| tb.to_set().contains(x) implies ta.to_set().contains(x) by {
            let k = choose|k: int| 0 <= k < tb.len() && tb[k] == x;
            assert(b[k + 1] == x);
            assert(a.to_set().contains(x));
            let m = choose|m: int| 0 <= m < a.len() && a[m] == x;
            if m == 0 {
                assert(seq_lt(b[0], b[k + 1]));
                lemma_seq_lt_irreflexive(x);
            }
            assert(ta[m - 1] == x);
        }
        assert(ta.to_set() =~= tb.to_set());
        lemma_strictly_sorted_unique(ta, tb);
        assert(a =~= seq![a[0]] + ta);
        assert(b =~= seq![b[0]] + tb);
    }
}

/// A strictly sorted sequence is the sorted listing of its elements.
pub proof fn lemma_sorted_names_of(s: Seq<Seq<char>>)
    requires
        strictly_sorted(s),
    ensures
        sorted_names(s.to_set()) == s,
{
    let t = sorted_names(s.to_set());
    assert(strictly_sorted(t) && t.to_set() == s.to_set());
    lemma_strictly_sorted_unique(t, s);
}

/// Adds `x` to the strictly sorted vector `v` unless it is already there.
pub fn insert_name(v: &mut Vec<String>, x: &str)
    requires
        strictly_sorted(strings_view(old(v)@)),
    ensures
        strictly_sorted(strings_view(final(v)@)),
        strings_view(final(v)@).to_set() == strings_view(old(v)@).to_set().insert(x@),
{
    let ghost old_view = strings_view(v@);
    let mut i: usize = 0;
    while i < v.len()
        invariant
            i <= v@.len(),
            strings_view(v@) == old_view,
            strictly_sorted(old_view),
            forall|k: int| 0 <= k < i ==> seq_lt(#[trigger] old_view[k], x@),
        ensures
            i <= v@.len(),
            strings_view(v@) == old_view,
            forall|k: int| 0 <= k < i ==> seq_lt(#[trigger] old_view[k], x@),
            i < v@.len() ==> seq_lt(x@, old_view[i as int]),
        decreases v@.len() - i,
    {
        if str_eq(v[i].as_str(), x) {
            assert(old_view[i as int] == x@);
            assert(old_view.to_set().insert(x@) =~= old_view.to_set());
            return;
        }
        if str_lt(x, v[i].as_str()) {
            break;
        }
        proof {
            lemma_seq_lt_total(x@, old_view[i as int]);
        }
        i += 1;
    }
    let ghost before = strings_view(v@);
    v.insert(i, to_owned_string(x));
    assert(strings_view(v@) =~= old_view.take(i as int) + seq![x@] + old_view.skip(i as int));
    let ghost nv = strings_view(v@);
    assert forall|a: int, b: int| 0 <= a < b < nv.len() implies seq_lt(#[trigger] nv[a], #[trigger] nv[b]) by {
        if a < i && b == i {
        } else if a < i && b > i {
            assert(nv[b] == old_view[b - 1]);
        } else if a == i && b > i {
            assert(nv[b] == old_view[b - 1]);
            if b - 1 > i {
                assert(seq_lt(old_view[i as int], old_view[b - 1]));
                lemma_seq_lt_transitive(x@, old_view[i as int], old_view[b - 1]);
            }
        } else if a > i {
            assert(nv[a] == old_view[a - 1]);
            assert(nv[b] == old_view[b - 1]);
        }
    }
    assert forall|y: Seq<char>| nv.to_set().contains(y) <==> old_view.to_set().insert(x@).contains(y) by {
        if nv.to_set().contains(y) {
            let k = choose|k: int| 0 <= k < nv.len() && nv[k] == y;
            if k < i {
                assert(old_view[k] == y);
            } else if k > i {
                assert(old_view[k - 1] == y);
            }
        }
        if old_view.to_set().contains(y) {
            let k = choose|k: int| 0 <= k < old_view.len() && old_view[k] == y;
            if k < i {
                assert(nv[k] == y);
            } else {
                assert(nv[k + 1] == y);
            }
        }
        if y == x@ {
            assert(nv[i as int] == y);
        }
    }
    assert(nv.to_set() =~= old_view.to_set().insert(x@));
}

} // verus!
