//! Stable ordering of items by a (number, text) key, and grouping of the
//! sorted items into runs of equal text. This is how the audit lists
//! channels by position and name, and how it groups names that occur twice.
use vstd::prelude::*;
use crate::text::{chars_less, str_lt, lemma_str_lt_transitive, lemma_str_lt_total, lemma_str_lt_irreflexive};

verus! {

/// A sort key: a number first, then a text in code point order.
pub type Key = (u64, Seq<char>);

/// `a` sorts no later than `b`.
pub open spec fn key_le(a: Key, b: Key) -> bool {
    a.0 < b.0 || (a.0 == b.0 && !str_lt(b.1, a.1))
}

/// The spec view of executable keys.
pub open spec fn key_views(keys: Seq<(u64, Vec<char>)>) -> Seq<Key> {
    Seq::new(keys.len(), |i: int| (keys[i].0, keys[i].1@))
}

/// Every index in `idx` points into `keys`.
pub open spec fn indices_in(idx: Seq<usize>, n: nat) -> bool {
    forall|k: int| 0 <= k < idx.len() ==> (#[trigger] idx[k]) < n
}

/// `t` with `x` placed after every element whose key is not greater than x's.
pub open spec fn insert_sorted(keys: Seq<Key>, t: Seq<usize>, x: usize) -> Seq<usize>
    decreases t.len(),
{
    if t.len() == 0 {
        seq![x]
    } else if key_le(keys[t.last() as int], keys[x as int]) {
        t.push(x)
    } else {
        insert_sorted(keys, t.drop_last(), x).push(t.last())
    }
}

/// The stable sort of `idx` by `keys`: ties keep their order in `idx`.
pub open spec fn sort_by_keys(keys: Seq<Key>, idx: Seq<usize>) -> Seq<usize>
    decreases idx.len(),
{
    if idx.len() == 0 {
        Seq::empty()
    } else {
        insert_sorted(keys, sort_by_keys(keys, idx.drop_last()), idx.last())
    }
}

/// `s` cut into maximal runs of neighbours whose keys have the same text.
pub open spec fn runs(keys: Seq<Key>, s: Seq<usize>) -> Seq<Seq<usize>>
    decreases s.len(),
{
    if s.len() == 0 {
        Seq::empty()
    } else {
        let r = runs(keys, s.drop_last());
        if r.len() > 0 && keys[r.last().last() as int].1 == keys[s.last() as int].1 {
            r.drop_last().push(r.last().push(s.last()))
        } else {
            r.push(seq![s.last()])
        }
    }
}

/// Whether key `a` sorts no later than key `b`.
pub fn key_le_exec(a: &(u64, Vec<char>), b: &(u64, Vec<char>)) -> (r: bool)
    ensures
        r == key_le((a.0, a.1@), (b.0, b.1@)),
{
    a.0 < b.0 || (a.0 == b.0 && !chars_less(&b.1, &a.1))
}

proof fn lemma_insert_sorted_at(keys: Seq<Key>, t: Seq<usize>, x: usize, p: int)
    requires
        0 <= p <= t.len(),
        p == 0 || key_le(keys[t[p - 1] as int], keys[x as int]),
        forall|q: int| p <= q < t.len() ==> !key_le(keys[#[trigger] t[q] as int], keys[x as int]),
    ensures
        insert_sorted(keys, t, x) == t.take(p).push(x) + t.skip(p),
    decreases t.len(),
{
    if t.len() == 0 {
        assert(t.take(p).push(x) + t.skip(p) =~= seq![x]);
    } else if p == t.len() {
        assert(t.take(p).push(x) + t.skip(p) =~= t.push(x));
    } else {
        let u = t.drop_last();
        assert forall|q: int| p <= q < u.len() implies !key_le(keys[#[trigger] u[q] as int], keys[x as int]) by {
            assert(u[q] == t[q]);
        }
        if p > 0 {
            assert(u[p - 1] == t[p - 1]);
        }
        lemma_insert_sorted_at(keys, u, x, p);
        assert(!key_le(keys[t[t.len() - 1] as int], keys[x as int]));
        assert((u.take(p).push(x) + u.skip(p)).push(t.last()) =~= t.take(p).push(x) + t.skip(p));
    }
}

/// Inserts `x` into `t` as `insert_sorted` does.
pub fn insert_sorted_exec(keys: &Vec<(u64, Vec<char>)>, t: &mut Vec<usize>, x: usize)
    requires
        x < keys.len(),
        indices_in(old(t)@, keys.len() as nat),
    ensures
        final(t)@ == insert_sorted(key_views(keys@), old(t)@, x),
        indices_in(final(t)@, keys.len() as nat),
{
    let ghost kv = key_views(keys@);
    let mut p: usize = t.len();
    while p > 0 && !key_le_exec(&keys[t[p - 1]], &keys[x])
        invariant
            p <= t.len(),
            kv == key_views(keys@),
            x < keys.len(),
            indices_in(t@, keys.len() as nat),
            forall|q: int| p <= q < t.len() ==> !key_le(kv[#[trigger] t@[q] as int], kv[x as int]),
        decreases p,
    {
        p = p - 1;
    }
    proof {
        if p > 0 {
            assert(t@[p - 1] < keys.len());
        }
        lemma_insert_sorted_at(kv, t@, x, p as int);
    }
    t.insert(p, x);
    proof {
        assert(t@ =~= old(t)@.take(p as int).push(x) + old(t)@.skip(p as int));
    }
}

/// The stable sort of `idx` by `keys`.
pub fn sort_indices(keys: &Vec<(u64, Vec<char>)>, idx: &Vec<usize>) -> (r: Vec<usize>)
    requires
        indices_in(idx@, keys.len() as nat),
    ensures
        r@ == sort_by_keys(key_views(keys@), idx@),
        indices_in(r@, keys.len() as nat),
{
    let mut r: Vec<usize> = Vec::new();
    let mut i: usize = 0;
    while i < idx.len()
        invariant
            i <= idx.len(),
            indices_in(idx@, keys.len() as nat),
            indices_in(r@, keys.len() as nat),
            r@ == sort_by_keys(key_views(keys@), idx@.take(i as int)),
        decreases idx.len() - i,
    {
        proof {
            assert(idx@.take(i + 1).drop_last() =~= idx@.take(i as int));
            assert(idx@[i as int] < keys.len());
        }
        insert_sorted_exec(keys, &mut r, idx[i]);
        i = i + 1;
    }
    assert(idx@.take(idx.len() as int) =~= idx@);
    r
}

/// Cuts `s` into runs of neighbours with equal key text.
pub fn runs_exec(keys: &Vec<(u64, Vec<char>)>, s: &Vec<usize>) -> (r: Vec<Vec<usize>>)
    requires
        indices_in(s@, keys.len() as nat),
    ensures
        r@.len() == runs(key_views(keys@), s@).len(),
        forall|k: int| 0 <= k < r@.len() ==> (#[trigger] r@[k])@ == runs(key_views(keys@), s@)[k],
{
    let ghost kv = key_views(keys@);
    let mut r: Vec<Vec<usize>> = Vec::new();
    let mut i: usize = 0;
    while i < s.len()
        invariant
            i <= s.len(),
            kv == key_views(keys@),
            indices_in(s@, keys.len() as nat),
            r@.len() == runs(kv, s@.take(i as int)).len(),
            forall|k: int| 0 <= k < r@.len() ==> (#[trigger] r@[k])@ == runs(kv, s@.take(i as int))[k],
            forall|k: int| 0 <= k < r@.len() ==> (#[trigger] r@[k])@.len() > 0,
            forall|k: int, j: int| 0 <= k < r@.len() && 0 <= j < r@[k]@.len() ==> (#[trigger] r@[k]@[j]) < keys.len(),
        decreases s.len() - i,
    {
        let x = s[i];
        proof {
            assert(s@.take(i + 1).drop_last() =~= s@.take(i as int));
            assert(s@.take(i + 1).last() == x);
            assert(x < keys.len());
        }
        let ghost prev = runs(kv, s@.take(i as int));
        let n = r.len();
        let mut joined = false;
        if n > 0 {
            let m = r[n - 1].len();
            let last = r[n - 1][m - 1];
            proof {
                assert(r@[n - 1]@ == prev.last());
            }
            if chars_eq(&keys[last].1, &keys[x].1) {
                let mut run = r.pop().unwrap();
                run.push(x);
                r.push(run);
                joined = true;
                proof {
                    assert(r@.len() == runs(kv, s@.take(i + 1)).len());
                    assert forall|k: int| 0 <= k < r@.len() implies (#[trigger] r@[k])@ == runs(kv, s@.take(i + 1))[k] by {
                        if k < n - 1 {
                            assert(runs(kv, s@.take(i + 1))[k] == prev[k]);
                        }
                    }
                }
            }
        }
        if !joined {
            let mut run: Vec<usize> = Vec::new();
            run.push(x);
            r.push(run);
            proof {
                assert(r@[r@.len() - 1]@ =~= seq![x]);
                assert(runs(kv, s@.take(i + 1)) == prev.push(seq![x]));
                assert forall|k: int| 0 <= k < r@.len() implies (#[trigger] r@[k])@ == runs(kv, s@.take(i + 1))[k] by {
                    if k < n {
                        assert(runs(kv, s@.take(i + 1))[k] == prev[k]);
                    }
                }
            }
        }
        i = i + 1;
    }
    assert(s@.take(s.len() as int) =~= s@);
    r
}

/// Whether two character vectors are equal.
pub fn chars_eq(a: &Vec<char>, b: &Vec<char>) -> (r: bool)
    ensures
        r == (a@ == b@),
{
    if a.len() != b.len() {
        return false;
    }
    let mut i: usize = 0;
    while i < a.len()
        invariant
            a.len() == b.len(),
            i <= a.len(),
            forall|k: int| 0 <= k < i ==> a@[k] == b@[k],
        decreases a.len() - i,
    {
        if a[i] != b[i] {
            return false;
        }
        i = i + 1;
    }
    assert(a@ =~= b@);
    true
}

/// Items in key order.
pub open spec fn sorted_by_keys(keys: Seq<Key>, s: Seq<usize>) -> bool {
    forall|i: int, j: int| 0 <= i < j < s.len() ==> key_le(keys[#[trigger] s[i] as int], keys[#[trigger] s[j] as int])
}

proof fn lemma_key_le_transitive(a: Key, b: Key, c: Key)
    requires
        key_le(a, b),
        key_le(b, c),
    ensures
        key_le(a, c),
{
    if a.0 == b.0 && b.0 == c.0 {
        if str_lt(c.1, a.1) {
            lemma_str_lt_total(b.1, c.1);
            lemma_str_lt_total(a.1, b.1);
            if str_lt(b.1, c.1) {
                lemma_str_lt_transitive(b.1, c.1, a.1);
            }
        }
    }
}

proof fn lemma_key_le_total(a: Key, b: Key)
    ensures
        key_le(a, b) || key_le(b, a),
{
    lemma_str_lt_total(a.1, b.1);
    if str_lt(a.1, b.1) && str_lt(b.1, a.1) {
        lemma_str_lt_transitive(a.1, b.1, a.1);
        lemma_str_lt_irreflexive(a.1);
    }
}

proof fn lemma_insert_sorted_facts(keys: Seq<Key>, t: Seq<usize>, x: usize)
    requires
        sorted_by_keys(keys, t),
    ensures
        sorted_by_keys(keys, insert_sorted(keys, t, x)),
        insert_sorted(keys, t, x).to_multiset() =~= t.to_multiset().insert(x),
    decreases t.len(),
{
    broadcast use vstd::seq_lib::group_to_multiset_ensures;
    if t.len() == 0 {
        assert(insert_sorted(keys, t, x) == Seq::<usize>::empty().push(x));
    } else if key_le(keys[t.last() as int], keys[x as int]) {
        let r = t.push(x);
        assert forall|i: int, j: int| 0 <= i < j < r.len() implies key_le(keys[#[trigger] r[i] as int], keys[#[trigger] r[j] as int]) by {
            if j == t.len() {
                if i < t.len() - 1 {
                    assert(key_le(keys[t[i] as int], keys[t[t.len() - 1] as int]));
                    lemma_key_le_transitive(keys[t[i] as int], keys[t.last() as int], keys[x as int]);
                }
            } else {
                assert(r[i] == t[i] && r[j] == t[j]);
            }
        }
    } else {
        let u = t.drop_last();
        let l = t.last();
        assert forall|i: int, j: int| 0 <= i < j < u.len() implies key_le(keys[#[trigger] u[i] as int], keys[#[trigger] u[j] as int]) by {
            assert(u[i] == t[i] && u[j] == t[j]);
        }
        lemma_insert_sorted_facts(keys, u, x);
        let w = insert_sorted(keys, u, x);
        lemma_key_le_total(keys[l as int], keys[x as int]);
        assert(t =~= u.push(l));
        assert forall|k: int| 0 <= k < w.len() implies key_le(keys[#[trigger] w[k] as int], keys[l as int]) by {
            assert(w.to_multiset().count(w[k]) > 0);
            if w[k] != x {
                assert(u.to_multiset().count(w[k]) > 0);
                assert(u.contains(w[k]));
                let q = choose|q: int| 0 <= q < u.len() && u[q] == w[k];
                assert(t[q] == u[q]);
                assert(key_le(keys[t[q] as int], keys[t[t.len() - 1] as int]));
            }
        }
        let r = w.push(l);
        assert forall|i: int, j: int| 0 <= i < j < r.len() implies key_le(keys[#[trigger] r[i] as int], keys[#[trigger] r[j] as int]) by {
            if j == w.len() {
                assert(r[i] == w[i]);
            } else {
                assert(r[i] == w[i] && r[j] == w[j]);
            }
        }
        assert(r.to_multiset() =~= w.to_multiset().insert(l));
        assert(t.to_multiset() =~= u.to_multiset().insert(l));
    }
}

/// Sorting lists every item exactly as often as it was given, in key order:
/// the audit's layout shows each channel once, by position and then by name.
pub proof fn lemma_sort_by_keys_orders_all(keys: Seq<Key>, idx: Seq<usize>)
    ensures
        sorted_by_keys(keys, sort_by_keys(keys, idx)),
        sort_by_keys(keys, idx).to_multiset() =~= idx.to_multiset(),
        sort_by_keys(keys, idx).len() == idx.len(),
    decreases idx.len(),
{
    broadcast use vstd::seq_lib::group_to_multiset_ensures;
    if idx.len() > 0 {
        lemma_sort_by_keys_orders_all(keys, idx.drop_last());
        lemma_insert_sorted_facts(keys, sort_by_keys(keys, idx.drop_last()), idx.last());
        assert(idx =~= idx.drop_last().push(idx.last()));
        assert(sort_by_keys(keys, idx).to_multiset() =~= idx.to_multiset());
        assert(sort_by_keys(keys, idx).to_multiset().len() == idx.to_multiset().len());
    }
}

/// Strictly increasing indices, as every list of channels the audit sorts is.
pub open spec fn increasing(s: Seq<usize>) -> bool {
    forall|i: int, j: int| 0 <= i < j < s.len() ==> #[trigger] s[i] < #[trigger] s[j]
}

/// Items with equal keys keep their given (increasing) order.
pub open spec fn ties_in_order(keys: Seq<Key>, r: Seq<usize>) -> bool {
    forall|i: int, j: int|
        0 <= i < j < r.len() && key_le(keys[#[trigger] r[j] as int], keys[#[trigger] r[i] as int]) ==> r[i] < r[j]
}

proof fn insert_position(keys: Seq<Key>, t: Seq<usize>, x: usize, n: int) -> (p: int)
    requires
        0 <= n <= t.len(),
        forall|q: int| n <= q < t.len() ==> !key_le(keys[#[trigger] t[q] as int], keys[x as int]),
    ensures
        0 <= p <= t.len(),
        p == 0 || key_le(keys[t[p - 1] as int], keys[x as int]),
        forall|q: int| p <= q < t.len() ==> !key_le(keys[#[trigger] t[q] as int], keys[x as int]),
    decreases n,
{
    if n > 0 && !key_le(keys[t[n - 1] as int], keys[x as int]) {
        insert_position(keys, t, x, n - 1)
    } else {
        n
    }
}

/// The sort is stable: channels with the same position and name are listed
/// in the order they were given.
pub proof fn lemma_sort_by_keys_stable(keys: Seq<Key>, idx: Seq<usize>)
    requires
        increasing(idx),
    ensures
        ties_in_order(keys, sort_by_keys(keys, idx)),
    decreases idx.len(),
{
    broadcast use vstd::seq_lib::group_to_multiset_ensures;
    if idx.len() > 0 {
        let u = idx.drop_last();
        let x = idx.last();
        assert forall|i: int, j: int| 0 <= i < j < u.len() implies #[trigger] u[i] < #[trigger] u[j] by {
            assert(u[i] == idx[i] && u[j] == idx[j]);
        }
        lemma_sort_by_keys_stable(keys, u);
        lemma_sort_by_keys_orders_all(keys, u);
        let t = sort_by_keys(keys, u);
        assert forall|k: int| 0 <= k < t.len() implies #[trigger] t[k] < x by {
            assert(t.to_multiset().count(t[k]) > 0);
            assert(u.to_multiset().count(t[k]) > 0);
            assert(u.contains(t[k]));
            let q = choose|q: int| 0 <= q < u.len() && u[q] == t[k];
            assert(idx[q] == u[q]);
            assert(idx[q] < idx[idx.len() - 1]);
        }
        let p = insert_position(keys, t, x, t.len() as int);
        lemma_insert_sorted_at(keys, t, x, p);
        let r = insert_sorted(keys, t, x);
        assert forall|i: int, j: int|
            0 <= i < j < r.len() && key_le(keys[#[trigger] r[j] as int], keys[#[trigger] r[i] as int]) implies r[i] < r[j] by {
            if j < p {
                assert(r[i] == t[i] && r[j] == t[j]);
            } else if j == p {
                assert(r[i] == t[i]);
                assert(r[j] == x);
            } else if i == p {
                assert(r[i] == x);
                assert(r[j] == t[j - 1]);
                assert(!key_le(keys[t[j - 1] as int], keys[x as int]));
            } else if i < p {
                assert(r[i] == t[i] && r[j] == t[j - 1]);
            } else {
                assert(r[i] == t[i - 1] && r[j] == t[j - 1]);
            }
        }
    }
}

/// Cutting into runs keeps every item, in order, and groups exactly the
/// neighbours with the same key text: each run is non-empty, all its items
/// have one key text, and two neighbouring runs have different key texts.
pub proof fn lemma_runs_group_equal_texts(keys: Seq<Key>, s: Seq<usize>)
    ensures
        runs(keys, s).flatten() == s,
        forall|k: int| 0 <= k < runs(keys, s).len() ==> (#[trigger] runs(keys, s)[k]).len() > 0,
        forall|k: int, i: int|
            0 <= k < runs(keys, s).len() && 0 <= i < runs(keys, s)[k].len() ==> keys[(#[trigger] runs(
                keys,
                s,
            )[k][i]) as int].1 == keys[runs(keys, s)[k][0] as int].1,
        forall|k: int|
            0 < k < runs(keys, s).len() ==> keys[runs(keys, s)[k - 1][0] as int].1 != keys[(#[trigger] runs(
                keys,
                s,
            )[k])[0] as int].1,
    decreases s.len(),
{
    if s.len() == 0 {
        assert(runs(keys, s) =~= Seq::<Seq<usize>>::empty());
    } else {
        let u = s.drop_last();
        let x = s.last();
        lemma_runs_group_equal_texts(keys, u);
        let r = runs(keys, u);
        assert(u.push(x) =~= s);
        if r.len() > 0 && keys[r.last().last() as int].1 == keys[x as int].1 {
            let d = r.drop_last();
            let l = r.last();
            let n = runs(keys, s);
            assert(n == d.push(l.push(x)));
            assert(r =~= d.push(l));
            d.lemma_flatten_push(l);
            d.lemma_flatten_push(l.push(x));
            assert(d.flatten() + l.push(x) =~= (d.flatten() + l).push(x));
            assert(l == r[r.len() - 1]);
            assert forall|k: int, i: int| 0 <= k < n.len() && 0 <= i < n[k].len() implies keys[(#[trigger] n[k][i]) as int].1
                == keys[n[k][0] as int].1 by {
                if k < d.len() {
                    assert(n[k] == r[k]);
                } else {
                    assert(n[k] == l.push(x));
                    if i < l.len() {
                        assert(n[k][i] == l[i]);
                    } else {
                        assert(keys[l[l.len() - 1] as int].1 == keys[l[0] as int].1);
                    }
                    assert(n[k][0] == l[0]);
                }
            }
            assert forall|k: int| 0 < k < n.len() implies keys[n[k - 1][0] as int].1 != keys[(#[trigger] n[k])[0] as int].1 by {
                assert(n[k - 1] == r[k - 1]);
                if k < d.len() {
                    assert(n[k] == r[k]);
                } else {
                    assert(n[k][0] == l[0]);
                    assert(r[k] == l);
                }
            }
        } else {
            let n = runs(keys, s);
            assert(n == r.push(seq![x]));
            r.lemma_flatten_push(seq![x]);
            assert(r.flatten() + seq![x] =~= u.push(x));
            assert forall|k: int, i: int| 0 <= k < n.len() && 0 <= i < n[k].len() implies keys[(#[trigger] n[k][i]) as int].1
                == keys[n[k][0] as int].1 by {
                if k < r.len() {
                    assert(n[k] == r[k]);
                }
            }
            assert forall|k: int| 0 < k < n.len() implies keys[n[k - 1][0] as int].1 != keys[(#[trigger] n[k])[0] as int].1 by {
                assert(n[k - 1] == r[k - 1]);
                if k < r.len() {
                    assert(n[k] == r[k]);
                } else {
                    let l = r[r.len() - 1];
                    assert(keys[l[l.len() - 1] as int].1 == keys[l[0] as int].1);
                }
            }
        }
    }
}

} // verus!
