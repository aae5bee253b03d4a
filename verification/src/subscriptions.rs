//! Explicit project-watch subscriptions: which Discord channels watch which
//! repository. The store keeps repositories in name order, each with its
//! watching channels in (guild, channel) order; saving and loading the store
//! is left to the caller.
use vstd::prelude::*;
use crate::text::{str_lt, str_eq, str_less, owned, lemma_str_lt_irreflexive,
    lemma_str_lt_transitive, lemma_str_lt_total, lemma_str_lt_asymmetric};

verus! {

/// A channel of a guild that watches a repository.
#[derive(Clone, Copy, Debug, PartialEq, Eq, Structural, Hash, PartialOrd, Ord)]
pub struct Target {
    pub guild_id: u64,
    pub channel_id: u64,
}

impl Target {
    pub fn new(guild_id: u64, channel_id: u64) -> (t: Self)
        ensures
            t.guild_id == guild_id,
            t.channel_id == channel_id,
    {
        Target { guild_id, channel_id }
    }
}

/// The order of targets: by guild, then by channel.
pub open spec fn target_le(a: Target, b: Target) -> bool {
    a.guild_id < b.guild_id || (a.guild_id == b.guild_id && a.channel_id <= b.channel_id)
}

/// `t` with `x` placed after every target not greater than it.
pub open spec fn insert_target(t: Seq<Target>, x: Target) -> Seq<Target>
    decreases t.len(),
{
    if t.len() == 0 {
        seq![x]
    } else if target_le(t.last(), x) {
        t.push(x)
    } else {
        insert_target(t.drop_last(), x).push(t.last())
    }
}

/// `s` sorted by `target_le`.
pub open spec fn sort_targets(s: Seq<Target>) -> Seq<Target>
    decreases s.len(),
{
    if s.len() == 0 {
        Seq::empty()
    } else {
        insert_target(sort_targets(s.drop_last()), s.last())
    }
}

pub open spec fn targets_sorted(s: Seq<Target>) -> bool {
    forall|i: int, j: int| 0 <= i < j < s.len() ==> target_le(#[trigger] s[i], #[trigger] s[j])
}

/// `s` without every copy of `t`.
pub open spec fn without_target(s: Seq<Target>, t: Target) -> Seq<Target>
    decreases s.len(),
{
    if s.len() == 0 {
        Seq::empty()
    } else if s.last() == t {
        without_target(s.drop_last(), t)
    } else {
        without_target(s.drop_last(), t).push(s.last())
    }
}

/// The store as a sequence of (repository, targets) entries.
pub type Watches = Seq<(Seq<char>, Seq<Target>)>;

/// Repository names strictly increase along the entries.
pub open spec fn keys_sorted(m: Watches) -> bool {
    forall|i: int, j: int| 0 <= i < j < m.len() ==> str_lt(#[trigger] m[i].0, #[trigger] m[j].0)
}

/// The number of targets over all entries.
pub open spec fn total(m: Watches) -> nat
    decreases m.len(),
{
    if m.len() == 0 {
        0
    } else {
        total(m.drop_last()) + m.last().1.len()
    }
}

/// The targets of `repo`, if it has an entry.
pub open spec fn lookup(m: Watches, repo: Seq<char>) -> Option<Seq<Target>>
    decreases m.len(),
{
    if m.len() == 0 {
        None
    } else if m[0].0 == repo {
        Some(m[0].1)
    } else {
        lookup(m.drop_first(), repo)
    }
}

/// The targets of `repo`; none when it has no entry.
pub open spec fn targets_of(m: Watches, repo: Seq<char>) -> Seq<Target> {
    match lookup(m, repo) {
        Some(ts) => ts,
        None => Seq::empty(),
    }
}

/// `m` with the entry of `repo` set to `ts`, kept in name order.
pub open spec fn put(m: Watches, repo: Seq<char>, ts: Seq<Target>) -> Watches
    decreases m.len(),
{
    if m.len() == 0 {
        seq![(repo, ts)]
    } else if m.last().0 == repo {
        m.drop_last().push((repo, ts))
    } else if str_lt(m.last().0, repo) {
        m.push((repo, ts))
    } else {
        put(m.drop_last(), repo, ts).push(m.last())
    }
}

/// `m` without the entry of `repo`.
pub open spec fn remove_key(m: Watches, repo: Seq<char>) -> Watches
    decreases m.len(),
{
    if m.len() == 0 {
        Seq::empty()
    } else if m.last().0 == repo {
        remove_key(m.drop_last(), repo)
    } else {
        remove_key(m.drop_last(), repo).push(m.last())
    }
}

/// The repositories, in name order, that `t` watches.
pub open spec fn repos_with(m: Watches, t: Target) -> Seq<Seq<char>>
    decreases m.len(),
{
    if m.len() == 0 {
        Seq::empty()
    } else if m.last().1.contains(t) {
        repos_with(m.drop_last(), t).push(m.last().0)
    } else {
        repos_with(m.drop_last(), t)
    }
}

/// What watching `repo` from `t` makes of `m`: nothing when it already does;
/// otherwise `t` joins the repository's targets, which are then sorted.
pub open spec fn watched(m: Watches, repo: Seq<char>, t: Target) -> Watches {
    if targets_of(m, repo).contains(t) {
        m
    } else {
        put(m, repo, sort_targets(targets_of(m, repo).push(t)))
    }
}

/// What unwatching `repo` from `t` makes of `m`: every copy of `t` leaves the
/// repository's targets, and a repository left without targets loses its entry.
pub open spec fn unwatched(m: Watches, repo: Seq<char>, t: Target) -> Watches {
    match lookup(m, repo) {
        None => m,
        Some(ts) => if !ts.contains(t) {
            m
        } else if without_target(ts, t).len() == 0 {
            remove_key(m, repo)
        } else {
            put(m, repo, without_target(ts, t))
        },
    }
}

/// The watches of every repository.
pub struct Store {
    watches: Vec<(String, Vec<Target>)>,
}

pub open spec fn entry_views(w: Seq<(String, Vec<Target>)>) -> Watches {
    Seq::new(w.len(), |i: int| (w[i].0@, w[i].1@))
}

impl View for Store {
    type V = Watches;

    closed spec fn view(&self) -> Watches {
        entry_views(self.watches@)
    }
}

impl Store {
    #[verifier::type_invariant]
    spec fn inv(self) -> bool {
        &&& keys_sorted(entry_views(self.watches@))
        &&& total(entry_views(self.watches@)) <= usize::MAX
    }
}

// ---------------------------------------------------------------------------
// Facts about the entries.

proof fn lemma_total_concat(a: Watches, b: Watches)
    ensures
        total(a + b) == total(a) + total(b),
    decreases b.len(),
{
    if b.len() == 0 {
        assert(a + b =~= a);
    } else {
        lemma_total_concat(a, b.drop_last());
        assert((a + b).drop_last() =~= a + b.drop_last());
    }
}

proof fn lemma_total_single(e: (Seq<char>, Seq<Target>))
    ensures
        total(seq![e]) == e.1.len(),
{
    assert(seq![e].drop_last() =~= Seq::<(Seq<char>, Seq<Target>)>::empty());
    assert(total(Seq::<(Seq<char>, Seq<Target>)>::empty()) == 0);
    assert(seq![e].last() == e);
}

/// In sorted entries, the entry at `i` is the one `lookup` finds for its name.
proof fn lemma_lookup_at(m: Watches, i: int)
    requires
        keys_sorted(m),
        0 <= i < m.len(),
    ensures
        lookup(m, m[i].0) == Some(m[i].1),
    decreases i,
{
    if i > 0 {
        let rest = m.drop_first();
        assert forall|a: int, b: int| 0 <= a < b < rest.len() implies str_lt(#[trigger] rest[a].0, #[trigger] rest[b].0) by {
            assert(rest[a] == m[a + 1] && rest[b] == m[b + 1]);
        }
        lemma_lookup_at(rest, i - 1);
        assert(str_lt(m[0].0, m[i].0));
        lemma_str_lt_irreflexive(m[0].0);
    }
}

/// A name that no entry has is not found.
proof fn lemma_lookup_absent(m: Watches, k: Seq<char>)
    requires
        forall|i: int| 0 <= i < m.len() ==> (#[trigger] m[i]).0 != k,
    ensures
        lookup(m, k) is None,
    decreases m.len(),
{
    if m.len() > 0 {
        let rest = m.drop_first();
        assert forall|i: int| 0 <= i < rest.len() implies (#[trigger] rest[i]).0 != k by {
            assert(rest[i] == m[i + 1]);
        }
        assert(m[0].0 != k);
        lemma_lookup_absent(rest, k);
    }
}

/// Where `put` places the entry: after the names before `k`, replacing an
/// entry named `k`.
proof fn lemma_put_at(m: Watches, k: Seq<char>, v: Seq<Target>, p: int)
    requires
        0 <= p <= m.len(),
        p > 0 ==> !str_lt(k, m[p - 1].0),
        forall|q: int| p <= q < m.len() ==> str_lt(k, (#[trigger] m[q]).0),
    ensures
        put(m, k, v) == if p > 0 && m[p - 1].0 == k {
            m.take(p - 1).push((k, v)) + m.skip(p)
        } else {
            m.take(p).push((k, v)) + m.skip(p)
        },
    decreases m.len(),
{
    if m.len() == 0 {
        assert(m.take(p).push((k, v)) + m.skip(p) =~= seq![(k, v)]);
    } else if p == m.len() {
        if m.last().0 == k {
            assert(m.take(p - 1).push((k, v)) + m.skip(p) =~= m.drop_last().push((k, v)));
        } else {
            lemma_str_lt_total(m.last().0, k);
            assert(m.take(p).push((k, v)) + m.skip(p) =~= m.push((k, v)));
        }
    } else {
        let u = m.drop_last();
        assert(str_lt(k, m.last().0));
        lemma_str_lt_irreflexive(k);
        lemma_str_lt_asymmetric(k, m.last().0);
        assert forall|q: int| p <= q < u.len() implies str_lt(k, (#[trigger] u[q]).0) by {
            assert(u[q] == m[q]);
        }
        if p > 0 {
            assert(u[p - 1] == m[p - 1]);
        }
        lemma_put_at(u, k, v, p);
        if p > 0 && m[p - 1].0 == k {
            assert((u.take(p - 1).push((k, v)) + u.skip(p)).push(m.last()) =~= m.take(p - 1).push((k, v)) + m.skip(p));
        } else {
            assert((u.take(p).push((k, v)) + u.skip(p)).push(m.last()) =~= m.take(p).push((k, v)) + m.skip(p));
        }
    }
}

/// `put` on sorted entries keeps them sorted, and changes the total by the
/// difference of the targets.
proof fn lemma_put_keeps_order(m: Watches, k: Seq<char>, v: Seq<Target>, p: int)
    requires
        keys_sorted(m),
        0 <= p <= m.len(),
        p > 0 ==> !str_lt(k, m[p - 1].0),
        forall|q: int| p <= q < m.len() ==> str_lt(k, (#[trigger] m[q]).0),
    ensures
        keys_sorted(put(m, k, v)),
        total(put(m, k, v)) <= total(m) + v.len(),
        lookup(put(m, k, v), k) == Some(v),
        p > 0 && m[p - 1].0 == k ==> total(put(m, k, v)) + m[p - 1].1.len() == total(m) + v.len(),
        !(p > 0 && m[p - 1].0 == k) ==> total(put(m, k, v)) == total(m) + v.len(),
{
    lemma_put_at(m, k, v, p);
    let r = put(m, k, v);
    lemma_total_single((k, v));
    if p > 0 && m[p - 1].0 == k {
        assert(r =~= m.update(p - 1, (k, v)));
        assert forall|i: int, j: int| 0 <= i < j < r.len() implies str_lt(#[trigger] r[i].0, #[trigger] r[j].0) by {
            assert(r[i].0 == m[i].0 && r[j].0 == m[j].0);
        }
        lemma_total_concat(m.take(p - 1), seq![m[p - 1]] + m.skip(p));
        lemma_total_concat(seq![m[p - 1]], m.skip(p));
        lemma_total_single(m[p - 1]);
        assert(m =~= m.take(p - 1) + (seq![m[p - 1]] + m.skip(p)));
        lemma_total_concat(m.take(p - 1), seq![(k, v)] + m.skip(p));
        lemma_total_concat(seq![(k, v)], m.skip(p));
        assert(r =~= m.take(p - 1) + (seq![(k, v)] + m.skip(p)));
        lemma_lookup_at(r, p - 1);
    } else {
        if p > 0 {
            lemma_str_lt_total(m[p - 1].0, k);
        }
        assert forall|i: int, j: int| 0 <= i < j < r.len() implies str_lt(#[trigger] r[i].0, #[trigger] r[j].0) by {
            if j < p {
                assert(r[i] == m[i] && r[j] == m[j]);
            } else if j == p {
                assert(r[j].0 == k);
                assert(r[i] == m[i]);
                if i < p - 1 {
                    lemma_str_lt_transitive(m[i].0, m[p - 1].0, k);
                }
            } else if i == p {
                assert(r[j] == m[j - 1]);
            } else if i < p {
                assert(r[i] == m[i] && r[j] == m[j - 1]);
            } else {
                assert(r[i] == m[i - 1] && r[j] == m[j - 1]);
            }
        }
        lemma_total_concat(m.take(p), m.skip(p));
        assert(m =~= m.take(p) + m.skip(p));
        lemma_total_concat(m.take(p), seq![(k, v)] + m.skip(p));
        lemma_total_concat(seq![(k, v)], m.skip(p));
        assert(r =~= m.take(p) + (seq![(k, v)] + m.skip(p)));
        lemma_lookup_at(r, p);
    }
}

proof fn lemma_remove_absent(m: Watches, k: Seq<char>)
    requires
        forall|i: int| 0 <= i < m.len() ==> (#[trigger] m[i]).0 != k,
    ensures
        remove_key(m, k) == m,
    decreases m.len(),
{
    if m.len() > 0 {
        let u = m.drop_last();
        assert forall|i: int| 0 <= i < u.len() implies (#[trigger] u[i]).0 != k by {
            assert(u[i] == m[i]);
        }
        lemma_remove_absent(u, k);
        assert(u.push(m.last()) =~= m);
    }
}

/// In sorted entries, removing a name removes exactly its entry.
proof fn lemma_remove_at(m: Watches, i: int)
    requires
        keys_sorted(m),
        0 <= i < m.len(),
    ensures
        remove_key(m, m[i].0) == m.remove(i),
        keys_sorted(m.remove(i)),
        total(m.remove(i)) + m[i].1.len() == total(m),
    decreases m.len(),
{
    let k = m[i].0;
    let u = m.drop_last();
    assert forall|a: int, b: int| 0 <= a < b < u.len() implies str_lt(#[trigger] u[a].0, #[trigger] u[b].0) by {
        assert(u[a] == m[a] && u[b] == m[b]);
    }
    if i == m.len() - 1 {
        assert forall|j: int| 0 <= j < u.len() implies (#[trigger] u[j]).0 != k by {
            assert(str_lt(m[j].0, m[i].0));
            lemma_str_lt_irreflexive(k);
        }
        lemma_remove_absent(u, k);
        assert(m.remove(i) =~= u);
    } else {
        assert(str_lt(m[i].0, m.last().0));
        lemma_str_lt_irreflexive(k);
        lemma_remove_at(u, i);
        assert(u.remove(i).push(m.last()) =~= m.remove(i));
    }
    let r = m.remove(i);
    assert forall|a: int, b: int| 0 <= a < b < r.len() implies str_lt(#[trigger] r[a].0, #[trigger] r[b].0) by {
        if b < i {
            assert(r[a] == m[a] && r[b] == m[b]);
        } else if a < i {
            assert(r[a] == m[a] && r[b] == m[b + 1]);
        } else {
            assert(r[a] == m[a + 1] && r[b] == m[b + 1]);
        }
    }
    assert(m =~= m.take(i) + (seq![m[i]] + m.skip(i + 1)));
    assert(r =~= m.take(i) + m.skip(i + 1));
    lemma_total_concat(m.take(i), seq![m[i]] + m.skip(i + 1));
    lemma_total_concat(seq![m[i]], m.skip(i + 1));
    lemma_total_concat(m.take(i), m.skip(i + 1));
    lemma_total_single(m[i]);
}

proof fn lemma_insert_target_at(t: Seq<Target>, x: Target, p: int)
    requires
        0 <= p <= t.len(),
        p == 0 || target_le(t[p - 1], x),
        forall|q: int| p <= q < t.len() ==> !target_le(#[trigger] t[q], x),
    ensures
        insert_target(t, x) == t.take(p).push(x) + t.skip(p),
    decreases t.len(),
{
    if t.len() == 0 {
        assert(t.take(p).push(x) + t.skip(p) =~= seq![x]);
    } else if p == t.len() {
        assert(t.take(p).push(x) + t.skip(p) =~= t.push(x));
    } else {
        let u = t.drop_last();
        assert forall|q: int| p <= q < u.len() implies !target_le(#[trigger] u[q], x) by {
            assert(u[q] == t[q]);
        }
        if p > 0 {
            assert(u[p - 1] == t[p - 1]);
        }
        lemma_insert_target_at(u, x, p);
        assert(!target_le(t[t.len() - 1], x));
        assert((u.take(p).push(x) + u.skip(p)).push(t.last()) =~= t.take(p).push(x) + t.skip(p));
    }
}

/// Inserting into sorted targets keeps them sorted and keeps every target.
proof fn lemma_insert_target_facts(t: Seq<Target>, x: Target)
    requires
        targets_sorted(t),
    ensures
        targets_sorted(insert_target(t, x)),
        insert_target(t, x).len() == t.len() + 1,
        forall|y: Target| (#[trigger] insert_target(t, x).contains(y)) <==> (t.contains(y) || y == x),
    decreases t.len(),
{
    if t.len() == 0 {
        assert(insert_target(t, x) =~= seq![x]);
        assert forall|y: Target| insert_target(t, x).contains(y) <==> (t.contains(y) || y == x) by {
            if insert_target(t, x).contains(y) {
                assert(insert_target(t, x)[0] == x);
            }
            if y == x {
                assert(insert_target(t, x)[0] == x);
            }
        }
    } else if target_le(t.last(), x) {
        let r = t.push(x);
        assert forall|i: int, j: int| 0 <= i < j < r.len() implies target_le(#[trigger] r[i], #[trigger] r[j]) by {
            if j == t.len() {
                assert(target_le(t[i], t[t.len() - 1]) || i == t.len() - 1);
            }
        }
        assert forall|y: Target| r.contains(y) <==> (t.contains(y) || y == x) by {
            if r.contains(y) {
                let k = choose|k: int| 0 <= k < r.len() && r[k] == y;
                if k < t.len() {
                    assert(t[k] == y);
                }
            }
            if t.contains(y) {
                let k = choose|k: int| 0 <= k < t.len() && t[k] == y;
                assert(r[k] == y);
            }
            if y == x {
                assert(r[t.len() as int] == x);
            }
        }
    } else {
        let u = t.drop_last();
        assert forall|i: int, j: int| 0 <= i < j < u.len() implies target_le(#[trigger] u[i], #[trigger] u[j]) by {
            assert(u[i] == t[i] && u[j] == t[j]);
        }
        lemma_insert_target_facts(u, x);
        let w = insert_target(u, x);
        let r = w.push(t.last());
        assert forall|k: int| 0 <= k < w.len() implies target_le(#[trigger] w[k], t.last()) by {
            assert(w.contains(w[k]));
            if w[k] != x {
                assert(u.contains(w[k]));
                let q = choose|q: int| 0 <= q < u.len() && u[q] == w[k];
                assert(t[q] == u[q]);
            }
        }
        assert forall|i: int, j: int| 0 <= i < j < r.len() implies target_le(#[trigger] r[i], #[trigger] r[j]) by {
            if j == w.len() {
                assert(r[i] == w[i]);
            } else {
                assert(r[i] == w[i] && r[j] == w[j]);
            }
        }
        assert forall|y: Target| r.contains(y) <==> (t.contains(y) || y == x) by {
            if r.contains(y) {
                let k = choose|k: int| 0 <= k < r.len() && r[k] == y;
                if k < w.len() {
                    assert(w[k] == y);
                    assert(w.contains(y));
                    if y != x {
                        assert(u.contains(y));
                        let q = choose|q: int| 0 <= q < u.len() && u[q] == y;
                        assert(t[q] == y);
                    }
                } else {
                    assert(t[t.len() - 1] == y);
                }
            }
            if t.contains(y) {
                let k = choose|k: int| 0 <= k < t.len() && t[k] == y;
                if k < t.len() - 1 {
                    assert(u[k] == y);
                    assert(u.contains(y));
                    assert(w.contains(y));
                    let q = choose|q: int| 0 <= q < w.len() && w[q] == y;
                    assert(r[q] == y);
                } else {
                    assert(r[w.len() as int] == y);
                }
            }
            if y == x {
                assert(w.contains(x));
                let q = choose|q: int| 0 <= q < w.len() && w[q] == x;
                assert(r[q] == x);
            }
        }
    }
}

/// Sorting targets gives them in `target_le` order and keeps exactly the same targets.
pub proof fn lemma_sort_targets_facts(s: Seq<Target>)
    ensures
        targets_sorted(sort_targets(s)),
        sort_targets(s).len() == s.len(),
        forall|y: Target| (#[trigger] sort_targets(s).contains(y)) <==> s.contains(y),
    decreases s.len(),
{
    if s.len() > 0 {
        let u = s.drop_last();
        lemma_sort_targets_facts(u);
        lemma_insert_target_facts(sort_targets(u), s.last());
        assert forall|y: Target| sort_targets(s).contains(y) <==> s.contains(y) by {
            if u.contains(y) {
                let k = choose|k: int| 0 <= k < u.len() && u[k] == y;
                assert(s[k] == y);
            }
            if s.contains(y) {
                let k = choose|k: int| 0 <= k < s.len() && s[k] == y;
                if k < s.len() - 1 {
                    assert(u[k] == y);
                }
            }
        }
    }
}

proof fn lemma_without_target_facts(s: Seq<Target>, t: Target)
    ensures
        without_target(s, t).len() <= s.len(),
        !s.contains(t) ==> without_target(s, t) == s,
        s.contains(t) ==> without_target(s, t).len() < s.len(),
        !without_target(s, t).contains(t),
        forall|y: Target| y != t ==> ((#[trigger] without_target(s, t).contains(y)) <==> s.contains(y)),
    decreases s.len(),
{
    if s.len() > 0 {
        let u = s.drop_last();
        lemma_without_target_facts(u, t);
        let w = without_target(u, t);
        if s.contains(t) && s.last() != t {
            let k = choose|k: int| 0 <= k < s.len() && s[k] == t;
            assert(u[k] == t);
            assert(u.contains(t));
        }
        if !s.contains(t) {
            assert(!u.contains(t)) by {
                if u.contains(t) {
                    let k = choose|k: int| 0 <= k < u.len() && u[k] == t;
                    assert(s[k] == t);
                }
            }
            assert(s.last() != t);
            assert(w.push(s.last()) =~= s);
        }
        assert forall|y: Target| y != t implies (without_target(s, t).contains(y) <==> s.contains(y)) by {
            if u.contains(y) {
                let k = choose|k: int| 0 <= k < u.len() && u[k] == y;
                assert(s[k] == y);
            }
            if s.contains(y) {
                let k = choose|k: int| 0 <= k < s.len() && s[k] == y;
                if k < s.len() - 1 {
                    assert(u[k] == y);
                }
            }
            if s.last() != t {
                if w.push(s.last()).contains(y) {
                    let k = choose|k: int| 0 <= k < w.len() + 1 && w.push(s.last())[k] == y;
                    if k < w.len() {
                        assert(w[k] == y);
                    }
                }
                if w.contains(y) {
                    let k = choose|k: int| 0 <= k < w.len() && w[k] == y;
                    assert(w.push(s.last())[k] == y);
                }
                if y == s.last() {
                    assert(w.push(s.last())[w.len() as int] == y);
                }
            }
        }
        if s.last() != t {
            assert(!w.push(s.last()).contains(t)) by {
                if w.push(s.last()).contains(t) {
                    let k = choose|k: int| 0 <= k < w.len() + 1 && w.push(s.last())[k] == t;
                    if k < w.len() {
                        assert(w[k] == t);
                    }
                }
            }
        }
    }
}

/// The entries made from `entries` one by one, a later entry of a name
/// replacing an earlier one.
pub open spec fn build(entries: Watches) -> Watches
    decreases entries.len(),
{
    if entries.len() == 0 {
        Seq::empty()
    } else {
        put(build(entries.drop_last()), entries.last().0, entries.last().1)
    }
}

// ---------------------------------------------------------------------------
// The store's operations.

/// Sets the entry of `key` to `ts`, in name order.
fn put_entry(w: &mut Vec<(String, Vec<Target>)>, key: String, ts: Vec<Target>)
    requires
        keys_sorted(entry_views(old(w)@)),
    ensures
        entry_views(final(w)@) == put(entry_views(old(w)@), key@, ts@),
        keys_sorted(entry_views(final(w)@)),
        lookup(entry_views(final(w)@), key@) == Some(ts@),
        lookup(entry_views(old(w)@), key@) is None ==> total(entry_views(final(w)@)) == total(
            entry_views(old(w)@),
        ) + ts@.len(),
        lookup(entry_views(old(w)@), key@) matches Some(ov) ==> total(entry_views(final(w)@))
            + ov.len() == total(entry_views(old(w)@)) + ts@.len(),
{
    let ghost m = entry_views(w@);
    let ghost k = key@;
    let ghost v = ts@;
    let mut p: usize = w.len();
    while p > 0 && str_less(key.as_str(), w[p - 1].0.as_str())
        invariant
            p <= w.len(),
            m == entry_views(w@),
            k == key@,
            forall|q: int| p <= q < m.len() ==> str_lt(k, (#[trigger] m[q]).0),
        decreases p,
    {
        p = p - 1;
    }
    proof {
        lemma_put_keeps_order(m, k, v, p as int);
        if p > 0 && m[p - 1].0 == k {
            lemma_lookup_at(m, p - 1);
        } else {
            if p > 0 {
                lemma_str_lt_total(m[p - 1].0, k);
            }
            assert forall|i: int| 0 <= i < m.len() implies (#[trigger] m[i]).0 != k by {
                lemma_str_lt_irreflexive(k);
                if i >= p {
                } else if i < p - 1 {
                    assert(str_lt(m[i].0, m[p - 1].0));
                    lemma_str_lt_transitive(m[i].0, m[p - 1].0, k);
                }
            }
            lemma_lookup_absent(m, k);
        }
        lemma_put_at(m, k, v, p as int);
    }
    if p > 0 && str_eq(w[p - 1].0.as_str(), key.as_str()) {
        w.remove(p - 1);
        w.insert(p - 1, (key, ts));
        assert(entry_views(w@) =~= m.take(p - 1).push((k, v)) + m.skip(p as int));
    } else {
        w.insert(p, (key, ts));
        assert(entry_views(w@) =~= m.take(p as int).push((k, v)) + m.skip(p as int));
    }
}

/// The position of the entry named `repo`.
fn find_entry(w: &Vec<(String, Vec<Target>)>, repo: &str) -> (r: Option<usize>)
    requires
        keys_sorted(entry_views(w@)),
    ensures
        match r {
            Some(i) => i < w.len() && w@[i as int].0@ == repo@ && lookup(entry_views(w@), repo@)
                == Some(w@[i as int].1@),
            None => lookup(entry_views(w@), repo@) is None,
        },
{
    let ghost m = entry_views(w@);
    let mut i: usize = 0;
    while i < w.len()
        invariant
            i <= w.len(),
            m == entry_views(w@),
            keys_sorted(m),
            forall|j: int| 0 <= j < i ==> (#[trigger] m[j]).0 != repo@,
        decreases w.len() - i,
    {
        if str_eq(w[i].0.as_str(), repo) {
            proof {
                lemma_lookup_at(m, i as int);
            }
            return Some(i);
        }
        i = i + 1;
    }
    proof {
        lemma_lookup_absent(m, repo@);
    }
    None
}

fn copy_targets(v: &Vec<Target>) -> (r: Vec<Target>)
    ensures
        r@ == v@,
{
    let mut r: Vec<Target> = Vec::new();
    let mut i: usize = 0;
    while i < v.len()
        invariant
            i <= v.len(),
            r@ == v@.take(i as int),
        decreases v.len() - i,
    {
        r.push(v[i]);
        i = i + 1;
        assert(r@ =~= v@.take(i as int));
    }
    assert(v@.take(v.len() as int) =~= v@);
    r
}

fn contains_target(v: &Vec<Target>, t: &Target) -> (r: bool)
    ensures
        r == v@.contains(*t),
{
    let mut i: usize = 0;
    while i < v.len()
        invariant
            i <= v.len(),
            forall|j: int| 0 <= j < i ==> v@[j] != *t,
        decreases v.len() - i,
    {
        if v[i] == *t {
            assert(v@[i as int] == *t);
            return true;
        }
        i = i + 1;
    }
    false
}

fn target_le_exec(a: &Target, b: &Target) -> (r: bool)
    ensures
        r == target_le(*a, *b),
{
    a.guild_id < b.guild_id || (a.guild_id == b.guild_id && a.channel_id <= b.channel_id)
}

fn sort_targets_exec(v: &Vec<Target>) -> (r: Vec<Target>)
    ensures
        r@ == sort_targets(v@),
{
    let mut r: Vec<Target> = Vec::new();
    let mut i: usize = 0;
    while i < v.len()
        invariant
            i <= v.len(),
            r@ == sort_targets(v@.take(i as int)),
        decreases v.len() - i,
    {
        assert(v@.take(i + 1).drop_last() =~= v@.take(i as int));
        let x = v[i];
        let mut p: usize = r.len();
        while p > 0 && !target_le_exec(&r[p - 1], &x)
            invariant
                p <= r.len(),
                forall|q: int| p <= q < r.len() ==> !target_le(#[trigger] r@[q], x),
            decreases p,
        {
            p = p - 1;
        }
        proof {
            lemma_insert_target_at(r@, x, p as int);
        }
        r.insert(p, x);
        assert(r@ =~= sort_targets(v@.take(i as int)).take(p as int).push(x) + sort_targets(
            v@.take(i as int),
        ).skip(p as int));
        i = i + 1;
    }
    assert(v@.take(v.len() as int) =~= v@);
    r
}

fn without_target_exec(v: &Vec<Target>, t: &Target) -> (r: Vec<Target>)
    ensures
        r@ == without_target(v@, *t),
{
    let mut r: Vec<Target> = Vec::new();
    let mut i: usize = 0;
    while i < v.len()
        invariant
            i <= v.len(),
            r@ == without_target(v@.take(i as int), *t),
        decreases v.len() - i,
    {
        assert(v@.take(i + 1).drop_last() =~= v@.take(i as int));
        if v[i] != *t {
            r.push(v[i]);
        }
        i = i + 1;
    }
    assert(v@.take(v.len() as int) =~= v@);
    r
}

proof fn lemma_total_prefix(m: Watches, i: int)
    requires
        0 <= i <= m.len(),
    ensures
        total(m.take(i)) <= total(m),
{
    lemma_total_concat(m.take(i), m.skip(i));
    assert(m.take(i) + m.skip(i) =~= m);
}

/// The place `put` gives `k`: after the names not greater than it.
proof fn put_position(m: Watches, k: Seq<char>, n: int) -> (p: int)
    requires
        0 <= n <= m.len(),
        forall|q: int| n <= q < m.len() ==> str_lt(k, (#[trigger] m[q]).0),
    ensures
        0 <= p <= m.len(),
        p > 0 ==> !str_lt(k, m[p - 1].0),
        forall|q: int| p <= q < m.len() ==> str_lt(k, (#[trigger] m[q]).0),
    decreases n,
{
    if n > 0 && str_lt(k, m[n - 1].0) {
        put_position(m, k, n - 1)
    } else {
        n
    }
}

proof fn lemma_build_total(e: Watches)
    ensures
        keys_sorted(build(e)),
        total(build(e)) <= total(e),
    decreases e.len(),
{
    if e.len() > 0 {
        lemma_build_total(e.drop_last());
        let m = build(e.drop_last());
        let k = e.last().0;
        let p = put_position(m, k, m.len() as int);
        lemma_put_keeps_order(m, k, e.last().1, p);
    }
}

impl Store {
    /// A store without watches.
    pub fn new() -> (s: Self)
        ensures
            s@ == Seq::<(Seq<char>, Seq<Target>)>::empty(),
            keys_sorted(s@),
    {
        let s = Store { watches: Vec::new() };
        assert(s@ =~= Seq::<(Seq<char>, Seq<Target>)>::empty());
        s
    }

    /// Watches `repo` from `target`. Returns false, and changes nothing, when
    /// `target` already watches it.
    pub fn watch(&mut self, repo: &str, target: Target) -> (added: bool)
        requires
            total(old(self)@) < usize::MAX,
        ensures
            added == !targets_of(old(self)@, repo@).contains(target),
            final(self)@ == watched(old(self)@, repo@, target),
            keys_sorted(old(self)@),
    {
        proof {
            use_type_invariant(&*self);
        }
        let mut w: Vec<(String, Vec<Target>)> = Vec::new();
        std::mem::swap(&mut w, &mut self.watches);
        let ghost m = entry_views(w@);
        let mut ts: Vec<Target> = match find_entry(&w, repo) {
            Some(i) => {
                if contains_target(&w[i].1, &target) {
                    self.watches = w;
                    return false;
                }
                copy_targets(&w[i].1)
            },
            None => Vec::new(),
        };
        assert(ts@ == targets_of(m, repo@));
        ts.push(target);
        let sorted = sort_targets_exec(&ts);
        proof {
            lemma_sort_targets_facts(ts@);
        }
        put_entry(&mut w, owned(repo), sorted);
        self.watches = w;
        true
    }

    /// Stops `target` watching `repo`. Returns whether it did watch it; a
    /// repository left without targets loses its entry.
    pub fn unwatch(&mut self, repo: &str, target: &Target) -> (removed: bool)
        ensures
            removed == targets_of(old(self)@, repo@).contains(*target),
            final(self)@ == unwatched(old(self)@, repo@, *target),
            keys_sorted(old(self)@),
    {
        proof {
            use_type_invariant(&*self);
        }
        let mut w: Vec<(String, Vec<Target>)> = Vec::new();
        std::mem::swap(&mut w, &mut self.watches);
        let ghost m = entry_views(w@);
        let i = match find_entry(&w, repo) {
            Some(i) => i,
            None => {
                self.watches = w;
                return false;
            },
        };
        let kept = without_target_exec(&w[i].1, target);
        proof {
            lemma_without_target_facts(w@[i as int].1@, *target);
        }
        if kept.len() == w[i].1.len() {
            self.watches = w;
            return false;
        }
        if kept.len() == 0 {
            proof {
                lemma_remove_at(m, i as int);
            }
            w.remove(i);
            assert(entry_views(w@) =~= m.remove(i as int));
        } else {
            let key = w[i].0.clone();
            put_entry(&mut w, key, kept);
        }
        self.watches = w;
        true
    }

    /// The repositories, in name order, that `target` watches.
    pub fn repos_for(&self, target: &Target) -> (r: Vec<String>)
        ensures
            crate::text::string_views(r@) == repos_with(self@, *target),
    {
        let ghost m = self@;
        let mut r: Vec<String> = Vec::new();
        let mut i: usize = 0;
        while i < self.watches.len()
            invariant
                i <= self.watches.len(),
                m == entry_views(self.watches@),
                crate::text::string_views(r@) == repos_with(m.take(i as int), *target),
            decreases self.watches.len() - i,
        {
            assert(m.take(i + 1).drop_last() =~= m.take(i as int));
            if contains_target(&self.watches[i].1, target) {
                r.push(self.watches[i].0.clone());
            }
            i = i + 1;
            assert(crate::text::string_views(r@) =~= repos_with(m.take(i as int), *target));
        }
        assert(m.take(self.watches.len() as int) =~= m);
        r
    }

    /// The channels watching `repo`, in (guild, channel) order.
    pub fn targets_for(&self, repo: &str) -> (r: Vec<Target>)
        ensures
            r@ == targets_of(self@, repo@),
    {
        proof {
            use_type_invariant(self);
        }
        match find_entry(&self.watches, repo) {
            Some(i) => copy_targets(&self.watches[i].1),
            None => Vec::new(),
        }
    }

    /// The number of watches over all repositories.
    pub fn count(&self) -> (n: usize)
        ensures
            n == total(self@),
            keys_sorted(self@),
    {
        proof {
            use_type_invariant(self);
        }
        let ghost m = self@;
        let mut n: usize = 0;
        let mut i: usize = 0;
        while i < self.watches.len()
            invariant
                i <= self.watches.len(),
                m == entry_views(self.watches@),
                total(m) <= usize::MAX,
                n == total(m.take(i as int)),
            decreases self.watches.len() - i,
        {
            assert(m.take(i + 1).drop_last() =~= m.take(i as int));
            proof {
                lemma_total_prefix(m, i + 1);
            }
            n = n + self.watches[i].1.len();
            i = i + 1;
        }
        assert(m.take(self.watches.len() as int) =~= m);
        n
    }

    /// Whether no channel watches anything.
    pub fn is_empty(&self) -> (b: bool)
        ensures
            b == (total(self@) == 0),
    {
        self.count() == 0
    }

    /// The entries, for saving.
    pub fn entries(&self) -> (r: Vec<(String, Vec<Target>)>)
        ensures
            entry_views(r@) == self@,
    {
        let ghost m = self@;
        let mut r: Vec<(String, Vec<Target>)> = Vec::new();
        let mut i: usize = 0;
        while i < self.watches.len()
            invariant
                i <= self.watches.len(),
                m == entry_views(self.watches@),
                r@.len() == i,
                entry_views(r@) == m.take(i as int),
            decreases self.watches.len() - i,
        {
            let k = self.watches[i].0.clone();
            let t = copy_targets(&self.watches[i].1);
            assert(k@ == m[i as int].0 && t@ == m[i as int].1);
            let ghost old_r = r@;
            r.push((k, t));
            i = i + 1;
            assert forall|j: int| 0 <= j < i implies #[trigger] entry_views(r@)[j] == m.take(i as int)[j] by {
                if j < i - 1 {
                    assert(r@[j] == old_r[j]);
                    assert(entry_views(old_r)[j] == m.take(i - 1)[j]);
                }
            }
            assert(entry_views(r@) =~= m.take(i as int));
        }
        assert(m.take(self.watches.len() as int) =~= m);
        r
    }

    /// A store of saved entries, a later entry of a name replacing an earlier one.
    pub fn from_entries(entries: &Vec<(String, Vec<Target>)>) -> (s: Self)
        requires
            total(entry_views(entries@)) <= usize::MAX,
        ensures
            s@ == build(entry_views(entries@)),
            keys_sorted(s@),
    {
        let ghost e = entry_views(entries@);
        let mut w: Vec<(String, Vec<Target>)> = Vec::new();
        let mut i: usize = 0;
        assert(entry_views(w@) =~= build(e.take(0)));
        while i < entries.len()
            invariant
                i <= entries.len(),
                e == entry_views(entries@),
                total(e) <= usize::MAX,
                entry_views(w@) == build(e.take(i as int)),
            decreases entries.len() - i,
        {
            assert(e.take(i + 1).drop_last() =~= e.take(i as int));
            proof {
                lemma_build_total(e.take(i as int));
            }
            put_entry(&mut w, entries[i].0.clone(), copy_targets(&entries[i].1));
            i = i + 1;
        }
        proof {
            assert(e.take(entries.len() as int) =~= e);
            lemma_build_total(e);
        }
        Store { watches: w }
    }
}

// ---------------------------------------------------------------------------
// Laws of watching and unwatching.

/// In sorted entries, `lookup` finds exactly the entry with the name, if any.
proof fn lemma_lookup_sorted(m: Watches, k: Seq<char>)
    requires
        keys_sorted(m),
    ensures
        match lookup(m, k) {
            Some(ts) => exists|i: int| 0 <= i < m.len() && (#[trigger] m[i]).0 == k && m[i].1 == ts,
            None => forall|i: int| 0 <= i < m.len() ==> (#[trigger] m[i]).0 != k,
        },
{
    if exists|i: int| 0 <= i < m.len() && (#[trigger] m[i]).0 == k {
        let i = choose|i: int| 0 <= i < m.len() && (#[trigger] m[i]).0 == k;
        lemma_lookup_at(m, i);
    } else {
        lemma_lookup_absent(m, k);
    }
}

proof fn lemma_put_lookup(m: Watches, k: Seq<char>, v: Seq<Target>)
    requires
        keys_sorted(m),
    ensures
        keys_sorted(put(m, k, v)),
        lookup(put(m, k, v), k) == Some(v),
        forall|k2: Seq<char>| k2 != k ==> #[trigger] lookup(put(m, k, v), k2) == lookup(m, k2),
        lookup(m, k) is None ==> total(put(m, k, v)) == total(m) + v.len(),
        lookup(m, k) matches Some(ov) ==> total(put(m, k, v)) + ov.len() == total(m) + v.len(),
{
    let p = put_position(m, k, m.len() as int);
    lemma_put_keeps_order(m, k, v, p);
    lemma_put_at(m, k, v, p);
    let r = put(m, k, v);
    if p > 0 && m[p - 1].0 == k {
        lemma_lookup_at(m, p - 1);
    } else {
        if p > 0 {
            lemma_str_lt_total(m[p - 1].0, k);
        }
        assert forall|i: int| 0 <= i < m.len() implies (#[trigger] m[i]).0 != k by {
            lemma_str_lt_irreflexive(k);
            if i < p - 1 {
                assert(str_lt(m[i].0, m[p - 1].0));
                lemma_str_lt_transitive(m[i].0, m[p - 1].0, k);
            }
        }
        lemma_lookup_absent(m, k);
    }
    assert forall|k2: Seq<char>| k2 != k implies #[trigger] lookup(r, k2) == lookup(m, k2) by {
        lemma_lookup_sorted(m, k2);
        lemma_lookup_sorted(r, k2);
        if p > 0 && m[p - 1].0 == k {
            assert(r =~= m.update(p - 1, (k, v)));
            match lookup(m, k2) {
                Some(ts) => {
                    let i = choose|i: int| 0 <= i < m.len() && (#[trigger] m[i]).0 == k2 && m[i].1 == ts;
                    assert(r[i] == m[i]);
                    lemma_lookup_at(r, i);
                },
                None => {
                    assert forall|i: int| 0 <= i < r.len() implies (#[trigger] r[i]).0 != k2 by {
                        if i != p - 1 {
                            assert(r[i] == m[i]);
                        }
                    }
                    lemma_lookup_absent(r, k2);
                },
            }
        } else {
            assert(r =~= m.take(p).push((k, v)) + m.skip(p));
            match lookup(m, k2) {
                Some(ts) => {
                    let i = choose|i: int| 0 <= i < m.len() && (#[trigger] m[i]).0 == k2 && m[i].1 == ts;
                    if i < p {
                        assert(r[i] == m[i]);
                        lemma_lookup_at(r, i);
                    } else {
                        assert(r[i + 1] == m[i]);
                        lemma_lookup_at(r, i + 1);
                    }
                },
                None => {
                    assert forall|i: int| 0 <= i < r.len() implies (#[trigger] r[i]).0 != k2 by {
                        if i < p {
                            assert(r[i] == m[i]);
                        } else if i > p {
                            assert(r[i] == m[i - 1]);
                        }
                    }
                    lemma_lookup_absent(r, k2);
                },
            }
        }
    }
}

proof fn lemma_remove_lookup(m: Watches, k: Seq<char>)
    requires
        keys_sorted(m),
    ensures
        keys_sorted(remove_key(m, k)),
        lookup(remove_key(m, k), k) is None,
        forall|k2: Seq<char>| k2 != k ==> #[trigger] lookup(remove_key(m, k), k2) == lookup(m, k2),
        lookup(m, k) matches Some(ov) ==> total(remove_key(m, k)) + ov.len() == total(m),
        lookup(m, k) is None ==> remove_key(m, k) == m,
{
    lemma_lookup_sorted(m, k);
    match lookup(m, k) {
        None => {
            lemma_remove_absent(m, k);
        },
        Some(ts) => {
            let i = choose|i: int| 0 <= i < m.len() && (#[trigger] m[i]).0 == k && m[i].1 == ts;
            lemma_remove_at(m, i);
            let r = m.remove(i);
            assert forall|j: int| 0 <= j < r.len() implies (#[trigger] r[j]).0 != k by {
                lemma_str_lt_irreflexive(k);
                if j < i {
                    assert(r[j] == m[j]);
                } else {
                    assert(r[j] == m[j + 1]);
                }
            }
            lemma_lookup_absent(r, k);
            assert forall|k2: Seq<char>| k2 != k implies #[trigger] lookup(r, k2) == lookup(m, k2) by {
                lemma_lookup_sorted(m, k2);
                match lookup(m, k2) {
                    Some(ts2) => {
                        let q = choose|q: int| 0 <= q < m.len() && (#[trigger] m[q]).0 == k2 && m[q].1 == ts2;
                        if q < i {
                            assert(r[q] == m[q]);
                            lemma_lookup_at(r, q);
                        } else {
                            assert(r[q - 1] == m[q]);
                            lemma_lookup_at(r, q - 1);
                        }
                    },
                    None => {
                        assert forall|j: int| 0 <= j < r.len() implies (#[trigger] r[j]).0 != k2 by {
                            if j < i {
                                assert(r[j] == m[j]);
                            } else {
                                assert(r[j] == m[j + 1]);
                            }
                        }
                        lemma_lookup_absent(r, k2);
                    },
                }
            }
        },
    }
}

/// After `target` watches `repo`, it is among the repository's targets, which
/// are sorted when they changed; the entries stay in name order; every other
/// repository keeps its targets; the count grows by one exactly when the watch
/// is new.
pub proof fn lemma_watch_laws(m: Watches, repo: Seq<char>, target: Target)
    requires
        keys_sorted(m),
    ensures
        keys_sorted(watched(m, repo, target)),
        targets_of(watched(m, repo, target), repo).contains(target),
        !targets_of(m, repo).contains(target) ==> targets_sorted(targets_of(watched(m, repo, target), repo)),
        forall|other: Seq<char>| other != repo ==> #[trigger] targets_of(watched(m, repo, target), other)
            == targets_of(m, other),
        total(watched(m, repo, target)) == total(m) + if targets_of(m, repo).contains(target) {
            0nat
        } else {
            1nat
        },
{
    let ts = targets_of(m, repo);
    if !ts.contains(target) {
        let v = sort_targets(ts.push(target));
        lemma_sort_targets_facts(ts.push(target));
        assert(ts.push(target).contains(target)) by {
            assert(ts.push(target)[ts.len() as int] == target);
        }
        lemma_put_lookup(m, repo, v);
        assert forall|other: Seq<char>| other != repo implies #[trigger] targets_of(watched(m, repo, target), other)
            == targets_of(m, other) by {
            assert(lookup(put(m, repo, v), other) == lookup(m, other));
        }
    }
}

/// Watching the same repository from the same channel a second time changes nothing.
pub proof fn lemma_watch_idempotent(m: Watches, repo: Seq<char>, target: Target)
    requires
        keys_sorted(m),
    ensures
        watched(watched(m, repo, target), repo, target) == watched(m, repo, target),
{
    lemma_watch_laws(m, repo, target);
}

/// After `target` stops watching `repo`, it is not among the repository's
/// targets; every other repository keeps its targets; the entries stay in name
/// order; and the count drops by the copies removed.
pub proof fn lemma_unwatch_laws(m: Watches, repo: Seq<char>, target: Target)
    requires
        keys_sorted(m),
    ensures
        keys_sorted(unwatched(m, repo, target)),
        !targets_of(unwatched(m, repo, target), repo).contains(target),
        forall|other: Seq<char>| other != repo ==> #[trigger] targets_of(unwatched(m, repo, target), other)
            == targets_of(m, other),
        total(unwatched(m, repo, target)) + targets_of(m, repo).len() == total(m) + without_target(
            targets_of(m, repo),
            target,
        ).len(),
{
    lemma_without_target_facts(targets_of(m, repo), target);
    match lookup(m, repo) {
        None => {},
        Some(ts) => {
            if !ts.contains(target) {
            } else if without_target(ts, target).len() == 0 {
                lemma_remove_lookup(m, repo);
                assert forall|other: Seq<char>| other != repo implies #[trigger] targets_of(unwatched(m, repo, target), other)
                    == targets_of(m, other) by {
                    assert(lookup(remove_key(m, repo), other) == lookup(m, other));
                }
            } else {
                lemma_put_lookup(m, repo, without_target(ts, target));
                assert forall|other: Seq<char>| other != repo implies #[trigger] targets_of(unwatched(m, repo, target), other)
                    == targets_of(m, other) by {
                    assert(lookup(put(m, repo, without_target(ts, target)), other) == lookup(m, other));
                }
            }
        },
    }
}

/// Targets strictly ascending: in (guild, channel) order, with no repeats.
pub open spec fn targets_ascending(s: Seq<Target>) -> bool {
    forall|i: int, j: int| 0 <= i < j < s.len() ==> target_le(#[trigger] s[i], #[trigger] s[j]) && s[i] != s[j]
}

/// Every stored repository has at least one target, and its targets are
/// strictly ascending.
pub open spec fn lists_well_formed(m: Watches) -> bool {
    forall|k: Seq<char>| #[trigger] lookup(m, k) is Some ==> targets_of(m, k).len() > 0
        && targets_ascending(targets_of(m, k))
}

/// Sorting targets that are already in order leaves them as they are.
proof fn lemma_sort_sorted(s: Seq<Target>)
    requires
        targets_sorted(s),
    ensures
        sort_targets(s) == s,
    decreases s.len(),
{
    if s.len() > 0 {
        let u = s.drop_last();
        assert forall|i: int, j: int| 0 <= i < j < u.len() implies target_le(#[trigger] u[i], #[trigger] u[j]) by {
            assert(u[i] == s[i] && u[j] == s[j]);
        }
        lemma_sort_sorted(u);
        if u.len() > 0 {
            assert(target_le(s[u.len() - 1], s[s.len() - 1]));
        }
        assert(u.push(s.last()) =~= s);
    }
}

/// Inserting a new target into strictly ascending targets keeps them so.
proof fn lemma_insert_target_ascending(t: Seq<Target>, x: Target)
    requires
        targets_ascending(t),
        !t.contains(x),
    ensures
        targets_ascending(insert_target(t, x)),
    decreases t.len(),
{
    if t.len() == 0 {
        assert(insert_target(t, x) =~= seq![x]);
    } else if target_le(t.last(), x) {
        let r = t.push(x);
        assert(t[t.len() - 1] != x);
        assert forall|i: int, j: int| 0 <= i < j < r.len() implies target_le(#[trigger] r[i], #[trigger] r[j])
            && r[i] != r[j] by {
            if j == t.len() {
                assert(r[i] == t[i]);
                if i < t.len() - 1 {
                    assert(target_le(t[i], t[t.len() - 1]) && t[i] != t[t.len() - 1]);
                }
                assert(t[i] != x);
            } else {
                assert(r[i] == t[i] && r[j] == t[j]);
            }
        }
    } else {
        let u = t.drop_last();
        assert forall|i: int, j: int| 0 <= i < j < u.len() implies target_le(#[trigger] u[i], #[trigger] u[j])
            && u[i] != u[j] by {
            assert(u[i] == t[i] && u[j] == t[j]);
        }
        assert(!u.contains(x)) by {
            if u.contains(x) {
                let q = choose|q: int| 0 <= q < u.len() && u[q] == x;
                assert(t[q] == x);
            }
        }
        assert forall|i: int, j: int| 0 <= i < j < u.len() implies target_le(#[trigger] u[i], #[trigger] u[j]) by {
            assert(u[i] == t[i] && u[j] == t[j]);
        }
        lemma_insert_target_ascending(u, x);
        lemma_insert_target_facts(u, x);
        let w = insert_target(u, x);
        let r = w.push(t.last());
        assert forall|k: int| 0 <= k < w.len() implies target_le(#[trigger] w[k], t.last()) && w[k] != t.last() by {
            assert(w.contains(w[k]));
            if w[k] != x {
                assert(u.contains(w[k]));
                let q = choose|q: int| 0 <= q < u.len() && u[q] == w[k];
                assert(t[q] == u[q]);
            }
        }
        assert forall|i: int, j: int| 0 <= i < j < r.len() implies target_le(#[trigger] r[i], #[trigger] r[j])
            && r[i] != r[j] by {
            if j == w.len() {
                assert(r[i] == w[i]);
            } else {
                assert(r[i] == w[i] && r[j] == w[j]);
            }
        }
    }
}

/// Taking a target out of strictly ascending targets keeps them so.
proof fn lemma_without_target_ascending(s: Seq<Target>, t: Target)
    requires
        targets_ascending(s),
    ensures
        targets_ascending(without_target(s, t)),
    decreases s.len(),
{
    if s.len() > 0 {
        let u = s.drop_last();
        assert forall|i: int, j: int| 0 <= i < j < u.len() implies target_le(#[trigger] u[i], #[trigger] u[j])
            && u[i] != u[j] by {
            assert(u[i] == s[i] && u[j] == s[j]);
        }
        lemma_without_target_ascending(u, t);
        lemma_without_target_facts(u, t);
        if s.last() != t {
            let w = without_target(u, t);
            let r = w.push(s.last());
            assert forall|k: int| 0 <= k < w.len() implies target_le(#[trigger] w[k], s.last()) && w[k] != s.last() by {
                assert(w.contains(w[k]));
                assert(w[k] != t);
                assert(u.contains(w[k]));
                let q = choose|q: int| 0 <= q < u.len() && u[q] == w[k];
                assert(s[q] == u[q]);
            }
            assert forall|i: int, j: int| 0 <= i < j < r.len() implies target_le(#[trigger] r[i], #[trigger] r[j])
                && r[i] != r[j] by {
                if j == w.len() {
                    assert(r[i] == w[i]);
                } else {
                    assert(r[i] == w[i] && r[j] == w[j]);
                }
            }
        }
    }
}

/// Taking out a target that was just inserted gives the targets back.
proof fn lemma_without_inserted(s: Seq<Target>, x: Target)
    requires
        !s.contains(x),
    ensures
        without_target(insert_target(s, x), x) == s,
    decreases s.len(),
{
    if s.len() == 0 {
        let r = seq![x];
        assert(r.drop_last() =~= Seq::<Target>::empty());
        assert(without_target(r, x) == without_target(Seq::<Target>::empty(), x));
    } else if target_le(s.last(), x) {
        lemma_without_target_facts(s, x);
        assert(s.push(x).drop_last() =~= s);
    } else {
        let u = s.drop_last();
        assert(!u.contains(x)) by {
            if u.contains(x) {
                let q = choose|q: int| 0 <= q < u.len() && u[q] == x;
                assert(s[q] == x);
            }
        }
        lemma_without_inserted(u, x);
        let w = insert_target(u, x);
        assert(s[s.len() - 1] != x);
        assert(w.push(s.last()).drop_last() =~= w);
        assert(u.push(s.last()) =~= s);
    }
}

/// In sorted entries, setting the targets of a stored name replaces them in place.
proof fn lemma_put_existing(m: Watches, i: int, v: Seq<Target>)
    requires
        keys_sorted(m),
        0 <= i < m.len(),
    ensures
        put(m, m[i].0, v) == m.update(i, (m[i].0, v)),
{
    let k = m[i].0;
    lemma_str_lt_irreflexive(k);
    lemma_put_at(m, k, v, i + 1);
    assert(m.take(i).push((k, v)) + m.skip(i + 1) =~= m.update(i, (k, v)));
}

/// Unwatching keeps every stored repository with at least one target, its
/// targets strictly ascending; a repository whose last target leaves is no
/// longer stored.
pub proof fn lemma_unwatch_keeps_lists_well_formed(m: Watches, repo: Seq<char>, target: Target)
    requires
        keys_sorted(m),
        lists_well_formed(m),
    ensures
        lists_well_formed(unwatched(m, repo, target)),
        targets_of(m, repo) == seq![target] ==> lookup(unwatched(m, repo, target), repo) is None,
{
    match lookup(m, repo) {
        None => {},
        Some(ts) => {
            lemma_without_target_facts(ts, target);
            if !ts.contains(target) {
            } else if without_target(ts, target).len() == 0 {
                lemma_remove_lookup(m, repo);
                let r = remove_key(m, repo);
                assert forall|k: Seq<char>| #[trigger] lookup(r, k) is Some implies targets_of(r, k).len() > 0
                    && targets_ascending(targets_of(r, k)) by {
                    assert(lookup(r, k) == lookup(m, k));
                }
            } else {
                let v = without_target(ts, target);
                assert(lookup(m, repo) is Some);
                lemma_without_target_ascending(ts, target);
                lemma_put_lookup(m, repo, v);
                let r = put(m, repo, v);
                assert forall|k: Seq<char>| #[trigger] lookup(r, k) is Some implies targets_of(r, k).len() > 0
                    && targets_ascending(targets_of(r, k)) by {
                    if k != repo {
                        assert(lookup(r, k) == lookup(m, k));
                    }
                }
            }
            if ts == seq![target] {
                assert(ts.contains(target)) by {
                    assert(ts[0] == target);
                }
                assert(without_target(ts, target).len() == 0);
                lemma_remove_lookup(m, repo);
            }
        },
    }
}

/// Watching keeps every stored repository with at least one target, its
/// targets strictly ascending.
pub proof fn lemma_watch_keeps_lists_well_formed(m: Watches, repo: Seq<char>, target: Target)
    requires
        keys_sorted(m),
        lists_well_formed(m),
    ensures
        lists_well_formed(watched(m, repo, target)),
{
    let ts = targets_of(m, repo);
    if !ts.contains(target) {
        assert(targets_ascending(ts)) by {
            if lookup(m, repo) is None {
                assert(ts =~= Seq::<Target>::empty());
            }
        }
        assert(targets_sorted(ts));
        lemma_sort_sorted(ts);
        assert(ts.push(target).drop_last() =~= ts);
        let v = sort_targets(ts.push(target));
        assert(v == insert_target(ts, target));
        lemma_insert_target_ascending(ts, target);
        lemma_insert_target_facts(ts, target);
        lemma_put_lookup(m, repo, v);
        let r = put(m, repo, v);
        assert forall|k: Seq<char>| #[trigger] lookup(r, k) is Some implies targets_of(r, k).len() > 0
            && targets_ascending(targets_of(r, k)) by {
            if k != repo {
                assert(lookup(r, k) == lookup(m, k));
            }
        }
    }
}

/// Unwatching right after a new watch gives the store back: on a store whose
/// targets are stored as `watch` keeps them, a target that did not yet watch
/// `repo` watches and then unwatches it, and every entry is as before.
pub proof fn lemma_unwatch_undoes_watch(m: Watches, repo: Seq<char>, target: Target)
    requires
        keys_sorted(m),
        lists_well_formed(m),
        !targets_of(m, repo).contains(target),
    ensures
        unwatched(watched(m, repo, target), repo, target) == m,
{
    let ts = targets_of(m, repo);
    lemma_lookup_sorted(m, repo);
    assert(targets_ascending(ts)) by {
        if lookup(m, repo) is None {
            assert(ts =~= Seq::<Target>::empty());
        }
    }
    assert(targets_sorted(ts));
    lemma_sort_sorted(ts);
    assert(ts.push(target).drop_last() =~= ts);
    let v = sort_targets(ts.push(target));
    assert(v == insert_target(ts, target));
    lemma_insert_target_facts(ts, target);
    lemma_without_inserted(ts, target);
    lemma_put_lookup(m, repo, v);
    let r = put(m, repo, v);
    assert(watched(m, repo, target) == r);
    assert(v.contains(target));
    match lookup(m, repo) {
        None => {
            assert(ts =~= Seq::<Target>::empty());
            let p = put_position(m, repo, m.len() as int);
            lemma_put_keeps_order(m, repo, v, p);
            lemma_put_at(m, repo, v, p);
            assert(!(p > 0 && m[p - 1].0 == repo));
            assert(r == m.take(p).push((repo, v)) + m.skip(p));
            assert(r[p] == (repo, v));
            lemma_remove_at(r, p);
            assert(r.remove(p) =~= m);
        },
        Some(ots) => {
            let i = choose|i: int| 0 <= i < m.len() && (#[trigger] m[i]).0 == repo && m[i].1 == ots;
            assert(ts == ots);
            assert(ts.len() > 0);
            lemma_put_existing(m, i, v);
            assert(r[i] == (repo, v));
            lemma_put_existing(r, i, ts);
            assert(r.update(i, (repo, ts)) =~= m);
        },
    }
}

/// Unwatching right after a new watch, on any store: every repository keeps
/// its targets, the watched one gets them back in (guild, channel) order
/// (the order `watch` leaves them in), and the count is as before.
pub proof fn lemma_unwatch_after_watch_restores_targets(m: Watches, repo: Seq<char>, target: Target)
    requires
        keys_sorted(m),
        !targets_of(m, repo).contains(target),
    ensures
        forall|r: Seq<char>| #[trigger] targets_of(unwatched(watched(m, repo, target), repo, target), r) == if r
            == repo {
            sort_targets(targets_of(m, repo))
        } else {
            targets_of(m, r)
        },
        total(unwatched(watched(m, repo, target), repo, target)) == total(m),
{
    let ts = targets_of(m, repo);
    let w = watched(m, repo, target);
    let u = unwatched(w, repo, target);
    lemma_watch_laws(m, repo, target);
    lemma_unwatch_laws(w, repo, target);
    assert(ts.push(target).drop_last() =~= ts);
    let v = sort_targets(ts.push(target));
    assert(v == insert_target(sort_targets(ts), target));
    lemma_sort_targets_facts(ts);
    lemma_sort_targets_facts(ts.push(target));
    assert(!sort_targets(ts).contains(target));
    lemma_without_inserted(sort_targets(ts), target);
    lemma_put_lookup(m, repo, v);
    assert(w == put(m, repo, v));
    assert(lookup(w, repo) == Some(v));
    assert(v.contains(target)) by {
        assert(ts.push(target).contains(target)) by {
            assert(ts.push(target)[ts.len() as int] == target);
        }
    }
    if without_target(v, target).len() == 0 {
        lemma_remove_lookup(w, repo);
        assert(sort_targets(ts) =~= Seq::<Target>::empty());
    } else {
        lemma_put_lookup(w, repo, without_target(v, target));
    }
    assert(targets_of(u, repo) == sort_targets(ts));
    assert forall|r: Seq<char>| #[trigger] targets_of(u, r) == if r == repo {
        sort_targets(ts)
    } else {
        targets_of(m, r)
    } by {
        if r != repo {
            assert(targets_of(u, r) == targets_of(w, r));
            assert(targets_of(w, r) == targets_of(m, r));
        }
    }
}

/// A channel's repositories are exactly those whose targets hold it.
pub proof fn lemma_repos_for_matches_targets_for(m: Watches, target: Target, repo: Seq<char>)
    requires
        keys_sorted(m),
    ensures
        repos_with(m, target).contains(repo) <==> targets_of(m, repo).contains(target),
    decreases m.len(),
{
    if m.len() > 0 {
        let u = m.drop_last();
        assert forall|i: int, j: int| 0 <= i < j < u.len() implies str_lt(#[trigger] u[i].0, #[trigger] u[j].0) by {
            assert(u[i] == m[i] && u[j] == m[j]);
        }
        lemma_repos_for_matches_targets_for(u, target, repo);
        lemma_lookup_sorted(m, repo);
        lemma_lookup_sorted(u, repo);
        let last = m.last();
        // lookup in m is the lookup in u, unless the name is the last one's
        if last.0 == repo {
            lemma_lookup_at(m, m.len() - 1);
            assert forall|i: int| 0 <= i < u.len() implies (#[trigger] u[i]).0 != repo by {
                assert(str_lt(m[i].0, m[m.len() - 1].0));
                lemma_str_lt_irreflexive(repo);
            }
            lemma_lookup_absent(u, repo);
            if repos_with(u, target).contains(repo) {
                assert(false);
            }
            if last.1.contains(target) {
                assert(repos_with(m, target) == repos_with(u, target).push(repo));
                assert(repos_with(m, target)[repos_with(u, target).len() as int] == repo);
            } else {
                assert(repos_with(m, target) == repos_with(u, target));
            }
        } else {
            match lookup(u, repo) {
                Some(ts) => {
                    let i = choose|i: int| 0 <= i < u.len() && (#[trigger] u[i]).0 == repo && u[i].1 == ts;
                    assert(m[i] == u[i]);
                    lemma_lookup_at(m, i);
                },
                None => {
                    assert forall|i: int| 0 <= i < m.len() implies (#[trigger] m[i]).0 != repo by {
                        if i < u.len() {
                            assert(m[i] == u[i]);
                        }
                    }
                    lemma_lookup_absent(m, repo);
                },
            }
            let rw = repos_with(u, target);
            if last.1.contains(target) {
                assert(repos_with(m, target) == rw.push(last.0));
                assert(rw.push(last.0).contains(repo) <==> rw.contains(repo)) by {
                    if rw.push(last.0).contains(repo) {
                        let q = choose|q: int| 0 <= q < rw.len() + 1 && rw.push(last.0)[q] == repo;
                        if q < rw.len() {
                            assert(rw[q] == repo);
                        }
                    }
                    if rw.contains(repo) {
                        let q = choose|q: int| 0 <= q < rw.len() && rw[q] == repo;
                        assert(rw.push(last.0)[q] == repo);
                    }
                }
            }
        }
    }
}

/// Saving and loading give the store back: building a store from its own
/// entries changes nothing.
pub proof fn lemma_saved_entries_load_back(m: Watches)
    requires
        keys_sorted(m),
    ensures
        build(m) == m,
    decreases m.len(),
{
    if m.len() > 0 {
        let u = m.drop_last();
        assert forall|i: int, j: int| 0 <= i < j < u.len() implies str_lt(#[trigger] u[i].0, #[trigger] u[j].0) by {
            assert(u[i] == m[i] && u[j] == m[j]);
        }
        lemma_saved_entries_load_back(u);
        let k = m.last().0;
        if u.len() > 0 {
            assert(str_lt(u[u.len() - 1].0, k));
            crate::text::lemma_str_lt_asymmetric(u[u.len() - 1].0, k);
        }
        lemma_put_at(u, k, m.last().1, u.len() as int);
        if u.len() > 0 {
            lemma_str_lt_irreflexive(k);
        }
        assert(u.take(u.len() as int).push((k, m.last().1)) + u.skip(u.len() as int) =~= m);
    }
}

} // verus!
