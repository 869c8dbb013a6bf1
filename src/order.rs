use vstd::prelude::*;

verus! {

/// `le` is a total preorder: any two keys compare, and it is transitive.
pub open spec fn total_preorder<K>(le: spec_fn(K, K) -> bool) -> bool {
    &&& forall|a: K, b: K| #[trigger] le(a, b) || le(b, a)
    &&& forall|a: K, b: K, c: K| #[trigger] le(a, b) && #[trigger] le(b, c) ==> le(a, c)
}

/// The keys of `s` never decrease.
pub open spec fn sorted_by<T, K>(s: Seq<(T, K)>, le: spec_fn(K, K) -> bool) -> bool {
    forall|i: int, j: int| 0 <= i < j < s.len() ==> le(#[trigger] s[i].1, #[trigger] s[j].1)
}

/// `x` placed into `t` after every item whose key is not above its own.
pub open spec fn insert_sorted<T, K>(t: Seq<(T, K)>, x: (T, K), le: spec_fn(K, K) -> bool) -> Seq<(T, K)>
    decreases t.len(),
{
    if t.len() == 0 {
        seq![x]
    } else if le(t.last().1, x.1) {
        t.push(x)
    } else {
        insert_sorted(t.drop_last(), x, le).push(t.last())
    }
}

/// The stable sort of `s` by key: items are ordered by key, and items with
/// equal keys keep their order.
pub open spec fn stable_sort<T, K>(s: Seq<(T, K)>, le: spec_fn(K, K) -> bool) -> Seq<(T, K)>
    decreases s.len(),
{
    if s.len() == 0 {
        s
    } else {
        insert_sorted(stable_sort(s.drop_last(), le), s.last(), le)
    }
}

/// The items of `s` without their keys.
pub open spec fn items_of<T, K>(s: Seq<(T, K)>) -> Seq<T> {
    s.map_values(|p: (T, K)| p.0)
}

/// Items paired with their keys, position by position.
pub open spec fn zip_keys<T, K>(items: Seq<T>, keys: Seq<K>) -> Seq<(T, K)> {
    Seq::new(items.len(), |i: int| (items[i], keys[i]))
}

/// Inserting where every later key is above `x`'s and the one before is not
/// places `x` at that position.
pub proof fn lemma_insert_at<T, K>(t: Seq<(T, K)>, x: (T, K), le: spec_fn(K, K) -> bool, p: int)
    requires
        0 <= p <= t.len(),
        forall|k: int| p <= k < t.len() ==> !le(#[trigger] t[k].1, x.1),
        p > 0 ==> le(t[p - 1].1, x.1),
    ensures
        insert_sorted(t, x, le) == t.insert(p, x),
    decreases t.len(),
{
    if t.len() == 0 {
        assert(t.insert(p, x) =~= seq![x]);
    } else if p == t.len() {
        assert(t.insert(p, x) =~= t.push(x));
    } else {
        assert(!le(t[t.len() - 1].1, x.1));
        let u = t.drop_last();
        assert forall|k: int| p <= k < u.len() implies !le(#[trigger] u[k].1, x.1) by {
            assert(u[k] == t[k]);
        }
        lemma_insert_at(u, x, le, p);
        assert(u.insert(p, x).push(t.last()) =~= t.insert(p, x));
    }
}

/// Inserting into a sorted sequence keeps it sorted, and each resulting item
/// is `x` or an item of `t`.
pub proof fn lemma_insert_sorted<T, K>(t: Seq<(T, K)>, x: (T, K), le: spec_fn(K, K) -> bool)
    requires
        total_preorder(le),
        sorted_by(t, le),
    ensures
        sorted_by(insert_sorted(t, x, le), le),
        insert_sorted(t, x, le).len() == t.len() + 1,
        forall|i: int| 0 <= i < t.len() + 1 ==> {
            let r = #[trigger] insert_sorted(t, x, le)[i];
            r == x || t.contains(r)
        },
    decreases t.len(),
{
    let r = insert_sorted(t, x, le);
    if t.len() == 0 {
    } else if le(t.last().1, x.1) {
        assert forall|i: int| 0 <= i < t.len() + 1 implies {
            let v = #[trigger] r[i];
            v == x || t.contains(v)
        } by {
            if i < t.len() {
                assert(r[i] == t[i]);
            }
        }
        assert forall|i: int, j: int| 0 <= i < j < r.len() implies le(#[trigger] r[i].1, #[trigger] r[j].1) by {
            if j == t.len() {
                if i < t.len() - 1 {
                    assert(le(t[i].1, t[t.len() - 1].1));
                }
            }
        }
    } else {
        let u = t.drop_last();
        let last = t.last();
        assert(sorted_by(u, le));
        lemma_insert_sorted(u, x, le);
        let w = insert_sorted(u, x, le);
        assert(le(x.1, last.1));
        assert forall|i: int| 0 <= i < w.len() implies le(#[trigger] w[i].1, last.1) by {
            let v = w[i];
            if v != x {
                assert(u.contains(v));
                let j = choose|j: int| 0 <= j < u.len() && u[j] == v;
                assert(t[j] == v);
                assert(le(t[j].1, t[t.len() - 1].1));
            }
        }
        assert forall|i: int| 0 <= i < t.len() + 1 implies {
            let v = #[trigger] r[i];
            v == x || t.contains(v)
        } by {
            if i < t.len() {
                let v = w[i];
                if v != x {
                    let j = choose|j: int| 0 <= j < u.len() && u[j] == v;
                    assert(t[j] == v);
                }
            } else {
                assert(t[t.len() - 1] == last);
            }
        }
        assert forall|i: int, j: int| 0 <= i < j < r.len() implies le(#[trigger] r[i].1, #[trigger] r[j].1) by {
            if j == t.len() {
                assert(le(w[i].1, last.1));
            } else {
                assert(le(w[i].1, w[j].1));
            }
        }
    }
}

/// A stable sort yields a sorted sequence of the same length whose items all
/// come from the input.
pub proof fn lemma_stable_sort<T, K>(s: Seq<(T, K)>, le: spec_fn(K, K) -> bool)
    requires
        total_preorder(le),
    ensures
        sorted_by(stable_sort(s, le), le),
        stable_sort(s, le).len() == s.len(),
        forall|i: int| 0 <= i < s.len() ==> s.contains(#[trigger] stable_sort(s, le)[i]),
    decreases s.len(),
{
    if s.len() > 0 {
        let u = s.drop_last();
        lemma_stable_sort(u, le);
        let su = stable_sort(u, le);
        lemma_insert_sorted(su, s.last(), le);
        assert forall|i: int| 0 <= i < s.len() implies s.contains(#[trigger] stable_sort(s, le)[i]) by {
            let v = stable_sort(s, le)[i];
            if v == s.last() {
                assert(s[s.len() - 1] == v);
            } else {
                assert(su.contains(v));
                let j = choose|j: int| 0 <= j < su.len() && su[j] == v;
                assert(u.contains(su[j]));
                let k = choose|k: int| 0 <= k < u.len() && u[k] == v;
                assert(s[k] == v);
            }
        }
    }
}

/// Sorting a sequence that is already sorted leaves it as it is.
pub proof fn lemma_sorted_unchanged<T, K>(s: Seq<(T, K)>, le: spec_fn(K, K) -> bool)
    requires
        sorted_by(s, le),
    ensures
        stable_sort(s, le) == s,
    decreases s.len(),
{
    if s.len() > 0 {
        let u = s.drop_last();
        assert(sorted_by(u, le));
        lemma_sorted_unchanged(u, le);
        if u.len() > 0 {
            assert(le(s[u.len() - 1].1, s[s.len() - 1].1));
        }
        assert(u.push(s.last()) =~= s);
    }
}

/// Inserting adds exactly the item of `x` to the items of `t`.
pub proof fn lemma_insert_items<T, K>(t: Seq<(T, K)>, x: (T, K), le: spec_fn(K, K) -> bool)
    ensures
        items_of(insert_sorted(t, x, le)).to_multiset() == items_of(t).to_multiset().insert(x.0),
    decreases t.len(),
{
    broadcast use vstd::seq_lib::group_to_multiset_ensures;

    if t.len() == 0 {
        assert(items_of(seq![x]) =~= Seq::<T>::empty().push(x.0));
        assert(items_of(t) =~= Seq::<T>::empty());
    } else if le(t.last().1, x.1) {
        assert(items_of(t.push(x)) =~= items_of(t).push(x.0));
    } else {
        let u = t.drop_last();
        lemma_insert_items(u, x, le);
        let w = insert_sorted(u, x, le);
        assert(items_of(w.push(t.last())) =~= items_of(w).push(t.last().0));
        assert(items_of(t) =~= items_of(u).push(t.last().0));
        assert(items_of(u).to_multiset().insert(x.0).insert(t.last().0) =~= items_of(u).to_multiset().insert(
            t.last().0,
        ).insert(x.0));
    }
}

/// A stable sort keeps every item, as many times as it occurs.
pub proof fn lemma_stable_sort_items<T, K>(s: Seq<(T, K)>, le: spec_fn(K, K) -> bool)
    ensures
        items_of(stable_sort(s, le)).to_multiset() == items_of(s).to_multiset(),
    decreases s.len(),
{
    broadcast use vstd::seq_lib::group_to_multiset_ensures;

    if s.len() > 0 {
        let u = s.drop_last();
        lemma_stable_sort_items(u, le);
        lemma_insert_items(stable_sort(u, le), s.last(), le);
        assert(items_of(s) =~= items_of(u).push(s.last().0));
    }
}

} // verus!
