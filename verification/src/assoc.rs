//! A small keyed collection that remembers the order in which its keys were
//! first put in.
use vstd::prelude::*;

use crate::lists;
use crate::order;
use crate::order::order_named;

verus! {

/// What can be a key: a value compared and copied by its view.
pub trait Key: View + Sized {
    fn same(&self, other: &Self) -> (r: bool)
        ensures
            r == (self@ == other@),
    ;

    fn copied(&self) -> (r: Self)
        ensures
            r@ == self@,
    ;
}

impl Key for String {
    fn same(&self, other: &Self) -> (r: bool) {
        *self == *other
    }

    fn copied(&self) -> (r: Self) {
        self.clone()
    }
}

impl Key for u64 {
    fn same(&self, other: &Self) -> (r: bool) {
        *self == *other
    }

    fn copied(&self) -> (r: Self) {
        *self
    }
}

impl Key for u32 {
    fn same(&self, other: &Self) -> (r: bool) {
        *self == *other
    }

    fn copied(&self) -> (r: Self) {
        *self
    }
}

/// Whether some pair carries the key `k`.
pub open spec fn has_key<A, B>(pairs: Seq<(A, B)>, k: A) -> bool {
    exists|i: int| 0 <= i < pairs.len() && (#[trigger] pairs[i]).0 == k
}

/// Whether no two pairs carry one key.
pub open spec fn distinct_keys<A, B>(pairs: Seq<(A, B)>) -> bool {
    forall|i: int, j: int|
        0 <= i < j < pairs.len() ==> (#[trigger] pairs[i]).0 != (#[trigger] pairs[j]).0
}

/// Where the key `k` stands.
pub open spec fn place_of<A, B>(pairs: Seq<(A, B)>, k: A) -> int {
    choose|i: int| 0 <= i < pairs.len() && (#[trigger] pairs[i]).0 == k
}

/// The pairs read as a map.
pub open spec fn map_of<A, B>(pairs: Seq<(A, B)>) -> Map<A, B> {
    Map::new(|k: A| has_key(pairs, k), |k: A| pairs[place_of(pairs, k)].1)
}

/// A keyed collection: at most one value per key.
pub struct Assoc<K: Key, V: View> {
    pub entries: Vec<(K, V)>,
}

impl<K: Key, V: View> View for Assoc<K, V> {
    type V = Map<K::V, V::V>;

    open spec fn view(&self) -> Map<K::V, V::V> {
        map_of(self.pairs())
    }
}

impl<K: Key, V: View> Assoc<K, V> {
    /// The keys and values, in the order in which the keys came.
    pub open spec fn pairs(&self) -> Seq<(K::V, V::V)> {
        self.entries@.map_values(|e: (K, V)| (e.0@, e.1@))
    }

    pub open spec fn wf(&self) -> bool {
        distinct_keys(self.pairs())
    }

    pub fn new() -> (r: Self)
        ensures
            r.wf(),
            r.pairs() == Seq::<(K::V, V::V)>::empty(),
            r@ == Map::<K::V, V::V>::empty(),
    {
        let r: Assoc<K, V> = Assoc { entries: Vec::new() };
        proof {
            assert(r.pairs() =~= Seq::<(K::V, V::V)>::empty());
            assert(r@ =~= Map::<K::V, V::V>::empty());
        }
        r
    }

    pub fn len(&self) -> (n: usize)
        ensures
            n == self.pairs().len(),
    {
        self.entries.len()
    }

    /// The key that came in `i`-th.
    pub fn key_at(&self, i: usize) -> (r: &K)
        requires
            i < self.pairs().len(),
        ensures
            r@ == self.pairs()[i as int].0,
    {
        &self.entries[i].0
    }

    /// The value of the key that came in `i`-th.
    pub fn value_at(&self, i: usize) -> (r: &V)
        requires
            i < self.pairs().len(),
        ensures
            r@ == self.pairs()[i as int].1,
    {
        &self.entries[i].1
    }

    /// Where the key stands, if it is there.
    pub fn find(&self, k: &K) -> (r: Option<usize>)
        ensures
            match r {
                Some(i) => i < self.pairs().len() && self.pairs()[i as int].0 == k@,
                None => !has_key(self.pairs(), k@),
            },
            r is Some <==> self@.contains_key(k@),
    {
        let mut i: usize = 0;
        while i < self.entries.len()
            invariant
                i <= self.entries@.len(),
                forall|j: int| 0 <= j < i ==> (#[trigger] self.pairs()[j]).0 != k@,
            decreases self.entries@.len() - i,
        {
            if self.entries[i].0.same(k) {
                proof {
                    assert(self.pairs()[i as int].0 == k@);
                }
                return Some(i);
            }
            i = i + 1;
        }
        None
    }

    pub fn contains(&self, k: &K) -> (r: bool)
        ensures
            r == self@.contains_key(k@),
    {
        self.find(k).is_some()
    }

    /// The value of the key, if it is there.
    pub fn get(&self, k: &K) -> (r: Option<&V>)
        requires
            self.wf(),
        ensures
            match r {
                Some(v) => self@.contains_key(k@) && v@ == self@[k@],
                None => !self@.contains_key(k@),
            },
    {
        match self.find(k) {
            Some(i) => {
                proof {
                    lemma_place(self.pairs(), i as int);
                }
                Some(&self.entries[i].1)
            },
            None => None,
        }
    }

    /// Puts the value under the key, over the one that was there.
    pub fn insert(&mut self, k: K, v: V)
        requires
            old(self).wf(),
        ensures
            final(self).wf(),
            final(self)@ == old(self)@.insert(k@, v@),
            old(self)@.contains_key(k@) ==> final(self).pairs() == old(self).pairs().update(
                place_of(old(self).pairs(), k@),
                (k@, v@),
            ),
            !old(self)@.contains_key(k@) ==> final(self).pairs() == old(self).pairs().push(
                (k@, v@),
            ),
    {
        let ghost before = self.pairs();
        match self.find(&k) {
            Some(i) => {
                proof {
                    lemma_place(before, i as int);
                }
                let ghost kv = k@;
                let ghost vv = v@;
                self.entries.set(i, (k, v));
                proof {
                    assert(self.pairs() =~= before.update(i as int, (kv, vv)));
                    lemma_update(before, i as int, vv);
                }
            },
            None => {
                let ghost kv = k@;
                let ghost vv = v@;
                self.entries.push((k, v));
                proof {
                    assert(self.pairs() =~= before.push((kv, vv)));
                    lemma_push(before, kv, vv);
                }
            },
        }
    }

    /// The value of the key that came in `i`-th, to be changed in place.
    pub fn value_mut(&mut self, i: usize) -> (r: &mut V)
        requires
            i < old(self).pairs().len(),
        ensures
            r@ == old(self).pairs()[i as int].1,
            *r == old(self).entries@[i as int].1,
            final(self).entries@ == old(self).entries@.update(
                i as int,
                (old(self).entries@[i as int].0, *final(r)),
            ),
    {
        &mut self.entries[i].1
    }

    /// Takes out the `i`-th key with its value.
    pub fn remove_at(&mut self, i: usize) -> (r: (K, V))
        requires
            old(self).wf(),
            i < old(self).pairs().len(),
        ensures
            final(self).wf(),
            (r.0@, r.1@) == old(self).pairs()[i as int],
            final(self).pairs() == old(self).pairs().remove(i as int),
            final(self)@ == old(self)@.remove(old(self).pairs()[i as int].0),
    {
        let ghost before = self.pairs();
        let r: (K, V) = self.entries.remove(i);
        proof {
            assert(self.pairs() =~= before.remove(i as int));
            lemma_remove(before, i as int);
        }
        r
    }

    /// Takes the key out, if it is there.
    pub fn remove(&mut self, k: &K) -> (r: Option<V>)
        requires
            old(self).wf(),
        ensures
            final(self).wf(),
            final(self)@ == old(self)@.remove(k@),
            match r {
                Some(v) => old(self)@.contains_key(k@) && v@ == old(self)@[k@],
                None => !old(self)@.contains_key(k@) && final(self)@ == old(self)@,
            },
    {
        match self.find(k) {
            Some(i) => {
                proof {
                    lemma_place(self.pairs(), i as int);
                }
                let (_, v) = self.remove_at(i);
                Some(v)
            },
            None => {
                proof {
                    assert(self@.remove(k@) =~= self@);
                }
                None
            },
        }
    }
}

/// A value changed in place is a value put in its key's place.
pub proof fn lemma_changed<K: Key, V: View>(before: Assoc<K, V>, after: Assoc<K, V>, i: int, v: V)
    requires
        before.wf(),
        0 <= i < before.pairs().len(),
        after.entries@ == before.entries@.update(i, (before.entries@[i].0, v)),
    ensures
        after.wf(),
        after.pairs() == before.pairs().update(i, (before.pairs()[i].0, v@)),
        after@ == before@.insert(before.pairs()[i].0, v@),
{
    assert(after.pairs() =~= before.pairs().update(i, (before.pairs()[i].0, v@)));
    lemma_update(before.pairs(), i, v@);
}

/// With distinct keys, a pair's key stands where the pair stands.
pub proof fn lemma_place<A, B>(pairs: Seq<(A, B)>, i: int)
    requires
        distinct_keys(pairs),
        0 <= i < pairs.len(),
    ensures
        has_key(pairs, pairs[i].0),
        place_of(pairs, pairs[i].0) == i,
        map_of(pairs).contains_key(pairs[i].0),
        map_of(pairs)[pairs[i].0] == pairs[i].1,
{
    let p = place_of(pairs, pairs[i].0);
    assert(pairs[i].0 == pairs[i].0);
    assert(0 <= p < pairs.len() && pairs[p].0 == pairs[i].0);
    if p < i {
        assert(pairs[p].0 != pairs[i].0);
    } else if i < p {
        assert(pairs[i].0 != pairs[p].0);
    }
}

proof fn lemma_update<A, B>(pairs: Seq<(A, B)>, i: int, v: B)
    requires
        distinct_keys(pairs),
        0 <= i < pairs.len(),
    ensures
        distinct_keys(pairs.update(i, (pairs[i].0, v))),
        map_of(pairs.update(i, (pairs[i].0, v))) == map_of(pairs).insert(pairs[i].0, v),
{
    let next = pairs.update(i, (pairs[i].0, v));
    let m = map_of(pairs).insert(pairs[i].0, v);
    assert forall|a: int, b: int| 0 <= a < b < next.len() implies (#[trigger] next[a]).0 != (
    #[trigger] next[b]).0 by {
        assert(pairs[a].0 != pairs[b].0);
    }
    assert forall|k: A| map_of(next).contains_key(k) == m.contains_key(k) by {
        if has_key(next, k) {
            let p = place_of(next, k);
            assert(pairs[p].0 == k);
        }
        if has_key(pairs, k) {
            let p = place_of(pairs, k);
            assert(next[p].0 == k);
        }
        assert(next[i].0 == pairs[i].0);
    }
    assert forall|k: A| map_of(next).contains_key(k) implies map_of(next)[k] == m[k] by {
        let p = place_of(next, k);
        lemma_place(next, p);
        lemma_place(pairs, p);
        lemma_place(next, i);
    }
    assert(map_of(next) =~= m);
}

proof fn lemma_push<A, B>(pairs: Seq<(A, B)>, k: A, v: B)
    requires
        distinct_keys(pairs),
        !has_key(pairs, k),
    ensures
        distinct_keys(pairs.push((k, v))),
        map_of(pairs.push((k, v))) == map_of(pairs).insert(k, v),
{
    let next = pairs.push((k, v));
    let m = map_of(pairs).insert(k, v);
    assert forall|a: int, b: int| 0 <= a < b < next.len() implies (#[trigger] next[a]).0 != (
    #[trigger] next[b]).0 by {
        assert(next[a] == pairs[a]);
        if b < pairs.len() {
            assert(next[b] == pairs[b]);
        }
    }
    assert forall|x: A| map_of(next).contains_key(x) == m.contains_key(x) by {
        if has_key(next, x) {
            let p = place_of(next, x);
            if p < pairs.len() {
                assert(pairs[p].0 == x);
            }
        }
        if has_key(pairs, x) {
            let p = place_of(pairs, x);
            assert(next[p].0 == x);
        }
        assert(next[pairs.len() as int].0 == k);
    }
    assert forall|x: A| map_of(next).contains_key(x) implies map_of(next)[x] == m[x] by {
        let p = place_of(next, x);
        lemma_place(next, p);
        if p < pairs.len() {
            lemma_place(pairs, p);
            assert(next[p] == pairs[p]);
            assert(x != k) by {
                assert(pairs[p].0 == x);
            }
        }
    }
    assert(map_of(next) =~= m);
}

proof fn lemma_remove<A, B>(pairs: Seq<(A, B)>, i: int)
    requires
        distinct_keys(pairs),
        0 <= i < pairs.len(),
    ensures
        distinct_keys(pairs.remove(i)),
        map_of(pairs.remove(i)) == map_of(pairs).remove(pairs[i].0),
{
    let next = pairs.remove(i);
    let m = map_of(pairs).remove(pairs[i].0);
    assert forall|a: int, b: int| 0 <= a < b < next.len() implies (#[trigger] next[a]).0 != (
    #[trigger] next[b]).0 by {
        let a2 = if a < i {
            a
        } else {
            a + 1
        };
        let b2 = if b < i {
            b
        } else {
            b + 1
        };
        assert(next[a] == pairs[a2] && next[b] == pairs[b2]);
    }
    assert forall|x: A| map_of(next).contains_key(x) == m.contains_key(x) by {
        if has_key(next, x) {
            let p = place_of(next, x);
            let p2 = if p < i {
                p
            } else {
                p + 1
            };
            assert(next[p] == pairs[p2]);
            assert(pairs[p2].0 == x);
            if p2 < i {
                assert(pairs[p2].0 != pairs[i].0);
            } else {
                assert(pairs[i].0 != pairs[p2].0);
            }
        }
        if has_key(pairs, x) && x != pairs[i].0 {
            let p = place_of(pairs, x);
            let p2 = if p < i {
                p
            } else {
                p - 1
            };
            assert(next[p2] == pairs[p]);
            assert(next[p2].0 == x);
        }
    }
    assert forall|x: A| map_of(next).contains_key(x) implies map_of(next)[x] == m[x] by {
        let p = place_of(next, x);
        let p2 = if p < i {
            p
        } else {
            p + 1
        };
        assert(next[p] == pairs[p2]);
        lemma_place(next, p);
        lemma_place(pairs, p2);
    }
    assert(map_of(next) =~= m);
}

/// What carries the time at which it was last heard of.
pub trait Dated: View {
    spec fn date(v: Self::V) -> u64;

    fn dated(&self) -> (r: u64)
        ensures
            r == Self::date(self@),
    ;
}

/// Whether what was last heard of at `date` has been silent for less than `ttl`.
pub open spec fn still_fresh(date: u64, now: u64, ttl: u64) -> bool {
    (if now < date {
        0
    } else {
        now - date
    }) < ttl
}

pub fn is_fresh(date: u64, now: u64, ttl: u64) -> (r: bool)
    ensures
        r == still_fresh(date, now, ttl),
{
    now.saturating_sub(date) < ttl
}

/// The entries of a map that are still fresh.
pub open spec fn fresh_part<A, V: Dated>(m: Map<A, V::V>, now: u64, ttl: u64) -> Map<A, V::V> {
    Map::new(
        |k: A| m.contains_key(k) && still_fresh(V::date(m[k]), now, ttl),
        |k: A| m[k],
    )
}

/// The pairs that are still fresh, in the order in which they stood.
pub open spec fn fresh_pairs<A, V: Dated>(pairs: Seq<(A, V::V)>, now: u64, ttl: u64) -> Seq<
    (A, V::V),
> {
    pairs.filter(|p: (A, V::V)| still_fresh(V::date(p.1), now, ttl))
}

proof fn lemma_fresh_step<A, V: Dated>(pairs: Seq<(A, V::V)>, i: int, now: u64, ttl: u64)
    requires
        0 <= i < pairs.len(),
    ensures
        fresh_pairs::<A, V>(pairs.take(i + 1), now, ttl) == if still_fresh(
            V::date(pairs[i].1),
            now,
            ttl,
        ) {
            fresh_pairs::<A, V>(pairs.take(i), now, ttl).push(pairs[i])
        } else {
            fresh_pairs::<A, V>(pairs.take(i), now, ttl)
        },
{
    lists::lemma_filter_step(pairs, i, |p: (A, V::V)| still_fresh(V::date(p.1), now, ttl));
}

proof fn lemma_fresh_map<A, V: Dated>(pairs: Seq<(A, V::V)>, n: int, now: u64, ttl: u64)
    requires
        distinct_keys(pairs),
        0 <= n <= pairs.len(),
    ensures
        distinct_keys(pairs.take(n)),
        distinct_keys(fresh_pairs::<A, V>(pairs.take(n), now, ttl)),
        map_of(fresh_pairs::<A, V>(pairs.take(n), now, ttl)) == fresh_part::<A, V>(
            map_of(pairs.take(n)),
            now,
            ttl,
        ),
    decreases n,
{
    let part = pairs.take(n);
    let kept = fresh_pairs::<A, V>(part, now, ttl);
    assert forall|a: int, b: int| 0 <= a < b < part.len() implies (#[trigger] part[a]).0 != (
    #[trigger] part[b]).0 by {
        assert(pairs[a].0 != pairs[b].0);
    }
    if n == 0 {
        reveal(Seq::filter);
        assert(kept =~= Seq::<(A, V::V)>::empty());
        assert(map_of(kept) =~= fresh_part::<A, V>(map_of(part), now, ttl));
    } else {
        let init = pairs.take(n - 1);
        let (k, v) = pairs[n - 1];
        lemma_fresh_map::<A, V>(pairs, n - 1, now, ttl);
        lemma_fresh_step::<A, V>(pairs, n - 1, now, ttl);
        assert(part =~= init.push((k, v)));
        assert(!has_key(init, k)) by {
            if has_key(init, k) {
                let p = place_of(init, k);
                assert(pairs[p].0 != pairs[n - 1].0);
            }
        }
        lemma_push(init, k, v);
        let before = fresh_pairs::<A, V>(init, now, ttl);
        assert(!has_key(before, k)) by {
            if has_key(before, k) {
                assert(map_of(before).contains_key(k));
                assert(map_of(init).contains_key(k));
            }
        }
        if still_fresh(V::date(v), now, ttl) {
            lemma_push(before, k, v);
        }
        assert(map_of(kept) =~= fresh_part::<A, V>(map_of(part), now, ttl));
    }
}

impl<K: Key, V: Dated> Assoc<K, V> {
    /// Drops what has not been heard of for `ttl`.
    pub fn keep_fresh(&mut self, now: u64, ttl: u64)
        requires
            old(self).wf(),
        ensures
            final(self).wf(),
            final(self).pairs() == fresh_pairs::<K::V, V>(old(self).pairs(), now, ttl),
            final(self)@ == fresh_part::<K::V, V>(old(self)@, now, ttl),
    {
        let ghost all = self.pairs();
        let n: usize = self.entries.len();
        let mut i: usize = 0;
        let mut seen: usize = 0;
        proof {
            reveal(Seq::filter);
            assert(all.take(0) =~= Seq::<(K::V, V::V)>::empty());
            assert(fresh_pairs::<K::V, V>(all.take(0), now, ttl) =~= Seq::<(K::V, V::V)>::empty());
            assert(self.pairs() =~= fresh_pairs::<K::V, V>(all.take(0), now, ttl) + all.skip(0));
        }
        while seen < n
            invariant
                n == all.len(),
                seen <= n,
                self.wf(),
                self.pairs() == fresh_pairs::<K::V, V>(all.take(seen as int), now, ttl) + all.skip(
                    seen as int,
                ),
                i == fresh_pairs::<K::V, V>(all.take(seen as int), now, ttl).len(),
            decreases n - seen,
        {
            let ghost before = fresh_pairs::<K::V, V>(all.take(seen as int), now, ttl);
            proof {
                lemma_fresh_step::<K::V, V>(all, seen as int, now, ttl);
                assert(self.pairs().len() == before.len() + (n - seen));
                assert(self.pairs()[i as int] == all.skip(seen as int)[0]);
                assert(self.pairs()[i as int] == all[seen as int]);
                assert(all.skip(seen as int) =~= seq![all[seen as int]] + all.skip(seen + 1));
            }
            if is_fresh(self.value_at(i).dated(), now, ttl) {
                proof {
                    assert(self.pairs() =~= before.push(all[seen as int]) + all.skip(seen + 1));
                }
                i = i + 1;
            } else {
                let _ = self.remove_at(i);
                proof {
                    assert(self.pairs() =~= before + all.skip(seen + 1));
                }
            }
            seen = seen + 1;
        }
        proof {
            lemma_fresh_map::<K::V, V>(all, n as int, now, ttl);
            assert(all.take(n as int) =~= all);
            assert(self.pairs() =~= fresh_pairs::<K::V, V>(all, now, ttl));
        }
    }
}

/// Whether `p` lists the positions of the pairs by ascending key.
pub open spec fn ascending<B>(pairs: Seq<(Seq<char>, B)>, p: Seq<usize>) -> bool {
    &&& p.len() == pairs.len()
    &&& forall|i: int| 0 <= i < p.len() ==> 0 <= #[trigger] p[i] < pairs.len()
    &&& forall|i: int, j: int|
        0 <= i < j < p.len() ==> order::text_before(
            pairs[#[trigger] p[i] as int].0,
            pairs[#[trigger] p[j] as int].0,
        )
    &&& forall|k: int| 0 <= k < pairs.len() ==> #[trigger] lists(p, k)
}

/// Whether the position `k` is listed.
pub open spec fn lists(p: Seq<usize>, k: int) -> bool {
    exists|i: int| 0 <= i < p.len() && #[trigger] p[i] == k
}

impl<V: View> Assoc<String, V> {
    /// The positions of the entries by ascending key.
    pub fn by_key(&self) -> (p: Vec<usize>)
        requires
            self.wf(),
        ensures
            ascending(self.pairs(), p@),
    {
        let mut keys: Vec<(String, u64)> = Vec::new();
        let mut i: usize = 0;
        while i < self.entries.len()
            invariant
                i <= self.entries@.len(),
                keys@.len() == i,
                forall|j: int|
                    0 <= j < i ==> (#[trigger] keys@[j]).0@ == self.pairs()[j].0 && keys@[j].1 == 0,
            decreases self.entries@.len() - i,
        {
            keys.push((self.entries[i].0.clone(), 0));
            i = i + 1;
        }
        let p: Vec<usize> = order_named(&keys);
        proof {
            let q = p@.map_values(|i: usize| i as int);
            let k = order::rank_keys(keys@);
            let pairs = self.pairs();
            assert forall|a: int| 0 <= a < p@.len() implies 0 <= #[trigger] p@[a] < pairs.len() by {
                assert(q[a] == p@[a]);
            }
            assert forall|a: int, b: int| 0 <= a < b < p@.len() implies order::text_before(
                pairs[#[trigger] p@[a] as int].0,
                pairs[#[trigger] p@[b] as int].0,
            ) by {
                assert(q[a] == p@[a] && q[b] == p@[b]);
                assert(order::stands_before(k, q[a], q[b]));
                assert(k[q[a]].0 == pairs[q[a]].0 && k[q[b]].0 == pairs[q[b]].0);
                assert(q[a] != q[b]);
                if q[a] < q[b] {
                    assert(pairs[q[a]].0 != pairs[q[b]].0);
                } else {
                    assert(pairs[q[b]].0 != pairs[q[a]].0);
                }
            }
            assert forall|x: int| 0 <= x < pairs.len() implies #[trigger] lists(p@, x) by {
                order::ranked_lists_all(k, q, x);
                let i = choose|i: int| 0 <= i < q.len() && #[trigger] q[i] == x;
                assert(p@[i] == x);
            }
        }
        p
    }
}

/// Whether the names ascend, each once.
pub open spec fn ascending_names(names: Seq<Seq<char>>) -> bool {
    forall|i: int, j: int|
        0 <= i < j < names.len() ==> order::text_before(#[trigger] names[i], #[trigger] names[j])
}

/// Whether the names are the keys of the map.
pub open spec fn names_keys<B>(names: Seq<Seq<char>>, m: Map<Seq<char>, B>) -> bool {
    forall|k: Seq<char>| #[trigger] m.contains_key(k) <==> names.contains(k)
}

/// The keys taken by ascending key ascend, and are all the keys.
pub proof fn lemma_keys_listed<B>(
    pairs: Seq<(Seq<char>, B)>,
    p: Seq<usize>,
    names: Seq<Seq<char>>,
)
    requires
        distinct_keys(pairs),
        ascending(pairs, p),
        names.len() == p.len(),
        forall|i: int| 0 <= i < p.len() ==> #[trigger] names[i] == pairs[p[i] as int].0,
    ensures
        ascending_names(names),
        names_keys(names, map_of(pairs)),
{
    assert forall|i: int, j: int| 0 <= i < j < names.len() implies order::text_before(
        #[trigger] names[i],
        #[trigger] names[j],
    ) by {
        assert(order::text_before(pairs[p[i] as int].0, pairs[p[j] as int].0));
    }
    assert forall|k: Seq<char>| #[trigger] map_of(pairs).contains_key(k) <==> names.contains(k) by {
        if map_of(pairs).contains_key(k) {
            let x = place_of(pairs, k);
            assert(lists(p, x));
            let i = choose|i: int| 0 <= i < p.len() && #[trigger] p[i] == x;
            assert(names[i] == k);
        }
        if names.contains(k) {
            let i = names.index_of(k);
            lemma_place(pairs, p[i] as int);
        }
    }
}

/// What was heard of at `date` is fresh until `ttl` later, and no longer.
pub proof fn freshness_lasts_its_time(date: u64, now: u64, ttl: u64)
    requires
        ttl > 0,
    ensures
        now < date + ttl ==> still_fresh(date, now, ttl),
        now >= date + ttl ==> !still_fresh(date, now, ttl),
{
}

/// Exactly the fresh entries are kept, each as it was.
pub proof fn only_stale_entries_go<A, V: Dated>(m: Map<A, V::V>, now: u64, ttl: u64, k: A)
    requires
        ttl > 0,
    ensures
        fresh_part::<A, V>(m, now, ttl).contains_key(k) <==> m.contains_key(k) && now < V::date(m[k])
            + ttl,
        fresh_part::<A, V>(m, now, ttl).contains_key(k) ==> fresh_part::<A, V>(m, now, ttl)[k]
            == m[k],
{
}

/// Of the pairs exactly the fresh ones are kept, none twice.
pub proof fn fresh_pairs_are_the_fresh_ones<A, V: Dated>(
    pairs: Seq<(A, V::V)>,
    now: u64,
    ttl: u64,
    i: int,
)
    requires
        ttl > 0,
        0 <= i < pairs.len(),
    ensures
        now < V::date(pairs[i].1) + ttl ==> fresh_pairs::<A, V>(pairs, now, ttl).contains(pairs[i]),
        forall|j: int|
            0 <= j < fresh_pairs::<A, V>(pairs, now, ttl).len() ==> now < V::date(
                (#[trigger] fresh_pairs::<A, V>(pairs, now, ttl)[j]).1,
            ) + ttl && pairs.contains(fresh_pairs::<A, V>(pairs, now, ttl)[j]),
        fresh_pairs::<A, V>(pairs, now, ttl).len() <= pairs.len(),
{
    broadcast use {
        Seq::lemma_filter_pred,
        Seq::lemma_filter_contains,
        Seq::lemma_filter_len,
        Seq::lemma_filter_contains_rev,
    };

    let keep = |p: (A, V::V)| still_fresh(V::date(p.1), now, ttl);
    let kept = pairs.filter(keep);
    assert forall|j: int| 0 <= j < kept.len() implies now < V::date((#[trigger] kept[j]).1) + ttl
        && pairs.contains(kept[j]) by {
        assert(keep(kept[j]));
        assert(kept.contains(kept[j]));
    }
    if now < V::date(pairs[i].1) + ttl {
        assert(keep(pairs[i]));
    }
}

/// A key stands for the value that its pair carries, and for nothing without one.
pub proof fn pairs_are_the_map<A, B>(pairs: Seq<(A, B)>, k: A, v: B)
    requires
        distinct_keys(pairs),
    ensures
        map_of(pairs).contains_key(k) && map_of(pairs)[k] == v <==> pairs.contains((k, v)),
{
    if pairs.contains((k, v)) {
        let i = pairs.index_of((k, v));
        lemma_place(pairs, i);
    }
    if map_of(pairs).contains_key(k) {
        let i = place_of(pairs, k);
        assert(pairs[i].0 == k);
        assert(pairs[i] == (k, map_of(pairs)[k]));
    }
}

/// Names that ascend are in the order of the dictionary, each once.
pub proof fn ascending_names_come_once(names: Seq<Seq<char>>, i: int, j: int)
    requires
        ascending_names(names),
        0 <= i < j < names.len(),
    ensures
        order::text_before(names[i], names[j]),
        names[i] != names[j],
{
    order::lemma_no_text_before_itself(names[i]);
}

} // verus!
