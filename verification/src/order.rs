//! Stable ordering by a key.
use vstd::prelude::*;

use crate::text::chars_of;

verus! {

/// A key by which items are put in order. Keys that stand neither before nor
/// after one another are ties.
pub trait Rank: Sized {
    spec fn before(self, other: Self) -> bool;

    proof fn asymmetric(a: Self, b: Self)
        requires
            a.before(b),
        ensures
            !b.before(a),
    ;

    /// What stands before `b` stands before all that does not stand before `b`.
    proof fn carries(a: Self, b: Self, c: Self)
        requires
            a.before(b),
            !c.before(b),
        ensures
            a.before(c),
    ;

    fn is_before(&self, other: &Self) -> (r: bool)
        ensures
            r == self.before(*other),
    ;
}

/// Whether `p` lists the positions of `keys` in order: each position once,
/// lower keys first, and ties in the order in which they stood.
pub open spec fn stable_order<K: Rank>(keys: Seq<K>, p: Seq<int>) -> bool {
    &&& p.len() == keys.len()
    &&& forall|i: int| 0 <= i < p.len() ==> 0 <= #[trigger] p[i] < keys.len()
    &&& in_order(keys, p)
}

pub open spec fn in_order<K: Rank>(keys: Seq<K>, p: Seq<int>) -> bool {
    forall|i: int, j: int|
        0 <= i < j < p.len() ==> {
            &&& p[i] != p[j]
            &&& !keys[p[j]].before(keys[#[trigger] p[i]])
            &&& (!keys[p[i]].before(keys[#[trigger] p[j]]) ==> p[i] < p[j])
        }
}

/// The positions of `keys`, in order.
pub fn order_of<K: Rank>(keys: &Vec<K>) -> (p: Vec<usize>)
    ensures
        stable_order(keys@, p@.map_values(|i: usize| i as int)),
{
    let mut p: Vec<usize> = Vec::new();
    let mut i: usize = 0;
    let ghost to = |i: usize| i as int;
    while i < keys.len()
        invariant
            i <= keys@.len(),
            p@.len() == i,
            to == (|i: usize| i as int),
            forall|j: int| 0 <= j < p@.len() ==> 0 <= #[trigger] p@[j] < i,
            in_order(keys@, p@.map_values(to)),
        decreases keys@.len() - i,
    {
        let ghost q = p@.map_values(to);
        let mut at: usize = 0;
        while at < p.len() && !keys[i].is_before(&keys[p[at]])
            invariant
                i < keys@.len(),
                at <= p@.len(),
                forall|j: int| 0 <= j < p@.len() ==> 0 <= #[trigger] p@[j] < i,
                forall|j: int|
                    0 <= j < at ==> !keys@[i as int].before(keys@[#[trigger] p@[j] as int]),
            decreases p@.len() - at,
        {
            at = at + 1;
        }
        proof {
            assert forall|j: int| at <= j < q.len() implies keys@[i as int].before(
                keys@[#[trigger] q[j]],
            ) by {
                if j > at {
                    assert(q[at as int] == p@[at as int]);
                    K::carries(keys@[i as int], keys@[q[at as int]], keys@[q[j]]);
                }
            }
            assert forall|j: int| 0 <= j < q.len() implies 0 <= #[trigger] q[j] < i by {
                assert(q[j] == p@[j]);
            }
            assert forall|j: int| 0 <= j < at implies !keys@[i as int].before(
                keys@[#[trigger] q[j]],
            ) by {
                assert(q[j] == p@[j]);
            }
        }
        let ghost p0 = p@;
        p.insert(at, i);
        proof {
            let r = p@.map_values(to);
            assert(r =~= q.insert(at as int, i as int));
            assert forall|a: int, b: int| 0 <= a < b < r.len() implies {
                &&& r[a] != r[b]
                &&& !keys@[r[b]].before(keys@[#[trigger] r[a]])
                &&& (!keys@[r[a]].before(keys@[#[trigger] r[b]]) ==> r[a] < r[b])
            } by {
                if a == at {
                    assert(r[b] == q[b - 1]);
                    K::asymmetric(keys@[i as int], keys@[r[b]]);
                } else if b == at {
                    assert(r[a] == q[a]);
                } else {
                    let a2 = if a < at {
                        a
                    } else {
                        a - 1
                    };
                    let b2 = if b < at {
                        b
                    } else {
                        b - 1
                    };
                    assert(r[a] == q[a2] && r[b] == q[b2]);
                }
            }
            assert forall|j: int| 0 <= j < p@.len() implies 0 <= #[trigger] p@[j] < i + 1 by {
                if j < at {
                    assert(p@[j] == p0[j]);
                } else if j > at {
                    assert(p@[j] == p0[j - 1]);
                }
            }
        }
        i = i + 1;
    }
    proof {
        let r = p@.map_values(to);
        assert forall|j: int| 0 <= j < r.len() implies 0 <= #[trigger] r[j] < keys@.len() by {
            assert(r[j] == p@[j]);
        }
    }
    p
}

impl Rank for u64 {
    open spec fn before(self, other: Self) -> bool {
        self < other
    }

    proof fn asymmetric(a: Self, b: Self) {
    }

    proof fn carries(a: Self, b: Self, c: Self) {
    }

    fn is_before(&self, other: &Self) -> (r: bool) {
        *self < *other
    }
}

/// Whether `a` stands before `b` in the dictionary order of code points.
pub open spec fn text_before(a: Seq<char>, b: Seq<char>) -> bool
    decreases a.len(),
{
    if b.len() == 0 {
        false
    } else if a.len() == 0 {
        true
    } else if a[0] != b[0] {
        a[0] < b[0]
    } else {
        text_before(a.drop_first(), b.drop_first())
    }
}

proof fn lemma_text_asymmetric(a: Seq<char>, b: Seq<char>)
    requires
        text_before(a, b),
    ensures
        !text_before(b, a),
    decreases a.len(),
{
    if a.len() > 0 && b.len() > 0 && a[0] == b[0] {
        lemma_text_asymmetric(a.drop_first(), b.drop_first());
    }
}

proof fn lemma_text_carries(a: Seq<char>, b: Seq<char>, c: Seq<char>)
    requires
        text_before(a, b),
        !text_before(c, b),
    ensures
        text_before(a, c),
    decreases a.len(),
{
    if a.len() > 0 && c.len() > 0 && b.len() > 0 && a[0] == b[0] && b[0] == c[0] {
        lemma_text_carries(a.drop_first(), b.drop_first(), c.drop_first());
    }
}

/// Texts neither of which stands before the other are the same text.
pub proof fn lemma_text_ties(a: Seq<char>, b: Seq<char>)
    requires
        !text_before(a, b),
        !text_before(b, a),
    ensures
        a == b,
    decreases a.len(),
{
    if a.len() > 0 && b.len() > 0 {
        let (x, y) = (a.drop_first(), b.drop_first());
        assert(a[0] == b[0]);
        lemma_text_ties(x, y);
        assert(a.len() == x.len() + 1 && b.len() == y.len() + 1);
        assert forall|i: int| 0 <= i < a.len() implies a[i] == b[i] by {
            if i > 0 {
                assert(a[i] == x[i - 1] && b[i] == y[i - 1]);
            }
        }
        assert(a =~= b);
    } else {
        assert(a =~= b);
    }
}

/// Compares two texts in the dictionary order of code points.
pub fn chars_before(a: &Vec<char>, b: &Vec<char>) -> (r: bool)
    ensures
        r == text_before(a@, b@),
{
    let mut i: usize = 0;
    proof {
        assert(a@.skip(0) =~= a@);
        assert(b@.skip(0) =~= b@);
    }
    while i < a.len() && i < b.len()
        invariant
            i <= a@.len(),
            i <= b@.len(),
            text_before(a@, b@) == text_before(a@.skip(i as int), b@.skip(i as int)),
        decreases a@.len() - i,
    {
        proof {
            assert(a@.skip(i as int).drop_first() =~= a@.skip(i + 1));
            assert(b@.skip(i as int).drop_first() =~= b@.skip(i + 1));
        }
        if a[i] != b[i] {
            return a[i] < b[i];
        }
        i = i + 1;
    }
    i < b.len()
}

/// A text as an ordering key, then a number to part equal texts.
pub struct TextRank {
    pub text: Vec<char>,
    pub id: u64,
}

impl Rank for TextRank {
    open spec fn before(self, other: Self) -> bool {
        ||| text_before(self.text@, other.text@)
        ||| self.text@ == other.text@ && self.id < other.id
    }

    proof fn asymmetric(a: Self, b: Self) {
        if text_before(a.text@, b.text@) {
            lemma_text_asymmetric(a.text@, b.text@);
        } else if text_before(b.text@, a.text@) {
            lemma_text_asymmetric(b.text@, a.text@);
        }
    }

    proof fn carries(a: Self, b: Self, c: Self) {
        if text_before(a.text@, b.text@) {
            lemma_text_carries(a.text@, b.text@, c.text@);
        } else if text_before(b.text@, c.text@) {
        } else {
            lemma_text_ties(b.text@, c.text@);
        }
    }

    fn is_before(&self, other: &Self) -> (r: bool) {
        if chars_before(&self.text, &other.text) {
            true
        } else if chars_before(&other.text, &self.text) {
            proof {
                lemma_text_asymmetric(other.text@, self.text@);
            }
            false
        } else {
            proof {
                lemma_text_ties(self.text@, other.text@);
            }
            self.id < other.id
        }
    }
}

/// Whether `p` lists the positions of `keys`, a name and a number each, in
/// order: each position once, by name, then by number, then as they stood.
pub open spec fn ranked(keys: Seq<(Seq<char>, u64)>, p: Seq<int>) -> bool {
    &&& p.len() == keys.len()
    &&& forall|i: int| 0 <= i < p.len() ==> 0 <= #[trigger] p[i] < keys.len()
    &&& forall|i: int, j: int|
        0 <= i < j < p.len() ==> p[i] != p[j] && stands_before(
            keys,
            #[trigger] p[i],
            #[trigger] p[j],
        )
}

/// Whether the key at `a` is listed before the one at `b`.
pub open spec fn stands_before(keys: Seq<(Seq<char>, u64)>, a: int, b: int) -> bool {
    ||| text_before(keys[a].0, keys[b].0)
    ||| keys[a].0 == keys[b].0 && keys[a].1 < keys[b].1
    ||| keys[a] == keys[b] && a < b
}

/// Every position is listed.
pub proof fn ranked_lists_all(keys: Seq<(Seq<char>, u64)>, p: Seq<int>, k: int)
    requires
        ranked(keys, p),
        0 <= k < keys.len(),
    ensures
        exists|i: int| 0 <= i < p.len() && #[trigger] p[i] == k,
{
    let n = keys.len() as int;
    assert(p.no_duplicates()) by {
        assert forall|i: int, j: int| 0 <= i < p.len() && 0 <= j < p.len() && i != j implies p[i]
            != p[j] by {
            if i < j {
                assert(p[i] != p[j]);
            } else {
                assert(p[j] != p[i]);
            }
        }
    }
    p.unique_seq_to_set();
    vstd::set_lib::lemma_int_range(0, n);
    let all = vstd::set_lib::set_int_range(0, n);
    assert(p.to_set().subset_of(all)) by {
        assert forall|x: int| p.to_set().contains(x) implies all.contains(x) by {
            let i = p.index_of(x);
            assert(p.contains(x));
            assert(0 <= p[i] < n);
        }
    }
    vstd::seq_lib::seq_to_set_is_finite(p);
    vstd::set_lib::lemma_subset_equality(p.to_set(), all);
    assert(all.contains(k));
    assert(p.to_set().contains(k));
    assert(p.contains(k));
    let i = p.index_of(k);
    assert(p[i] == k);
}

/// The names with their numbers.
pub open spec fn rank_keys(keys: Seq<(String, u64)>) -> Seq<(Seq<char>, u64)> {
    keys.map_values(|k: (String, u64)| (k.0@, k.1))
}

/// The positions of names with their numbers, in order.
pub fn order_named(keys: &Vec<(String, u64)>) -> (p: Vec<usize>)
    ensures
        ranked(rank_keys(keys@), p@.map_values(|i: usize| i as int)),
{
    let mut ranks: Vec<TextRank> = Vec::new();
    let mut i: usize = 0;
    while i < keys.len()
        invariant
            i <= keys@.len(),
            ranks@.len() == i,
            forall|j: int|
                0 <= j < i ==> (#[trigger] ranks@[j]).text@ == keys@[j].0@ && ranks@[j].id
                    == keys@[j].1,
        decreases keys@.len() - i,
    {
        ranks.push(TextRank { text: chars_of(keys[i].0.as_str()), id: keys[i].1 });
        i = i + 1;
    }
    let p: Vec<usize> = order_of(&ranks);
    proof {
        let q = p@.map_values(|i: usize| i as int);
        let k = rank_keys(keys@);
        assert forall|a: int, b: int| 0 <= a < b < q.len() implies q[a] != q[b] && stands_before(
            k,
            #[trigger] q[a],
            #[trigger] q[b],
        ) by {
            let x = ranks@[q[a]];
            let y = ranks@[q[b]];
            assert(x.text@ == k[q[a]].0 && x.id == k[q[a]].1);
            assert(y.text@ == k[q[b]].0 && y.id == k[q[b]].1);
            assert(!y.before(x));
            if !x.before(y) {
                lemma_text_ties(x.text@, y.text@);
                assert(q[a] < q[b]);
            }
        }
    }
    p
}

/// A text stands before another when it is a part of its beginning, or has the lower
/// character where the two first differ.
pub proof fn first_difference_decides(a: Seq<char>, b: Seq<char>, n: int)
    requires
        0 <= n <= a.len(),
        n <= b.len(),
        a.take(n) == b.take(n),
        n < a.len() && n < b.len() ==> a[n] != b[n],
    ensures
        n == a.len() && n < b.len() ==> text_before(a, b) && !text_before(b, a),
        n == b.len() && n < a.len() ==> text_before(b, a) && !text_before(a, b),
        n == a.len() && n == b.len() ==> !text_before(a, b) && !text_before(b, a),
        n < a.len() && n < b.len() ==> text_before(a, b) == (a[n] < b[n]) && text_before(b, a) == (
        b[n] < a[n]),
    decreases n,
{
    if n > 0 {
        assert(a.take(n)[0] == a[0] && b.take(n)[0] == b[0]);
        let (x, y) = (a.drop_first(), b.drop_first());
        assert(x.take(n - 1) =~= y.take(n - 1)) by {
            assert forall|i: int| 0 <= i < n - 1 implies x[i] == y[i] by {
                assert(a.take(n)[i + 1] == a[i + 1] && b.take(n)[i + 1] == b[i + 1]);
            }
        }
        first_difference_decides(x, y, n - 1);
    } else {
        if a.len() > 0 && b.len() > 0 {
            assert(a[0] != b[0]);
        }
    }
}

/// Names are listed by their text, those of one text by their number, and nothing is
/// listed twice or left off.
pub proof fn ranking_sorts(keys: Seq<(Seq<char>, u64)>, p: Seq<int>, i: int, j: int)
    requires
        ranked(keys, p),
        0 <= i < j < p.len(),
    ensures
        p.len() == keys.len(),
        p[i] != p[j],
        !text_before(keys[p[j]].0, keys[p[i]].0),
        keys[p[i]].0 == keys[p[j]].0 ==> keys[p[i]].1 <= keys[p[j]].1,
        keys[p[i]] == keys[p[j]] ==> p[i] < p[j],
{
    let (a, b) = (keys[p[i]].0, keys[p[j]].0);
    assert(stands_before(keys, p[i], p[j]));
    lemma_no_text_before_itself(a);
    if text_before(a, b) {
        lemma_text_asymmetric(a, b);
    }
}

pub proof fn lemma_no_text_before_itself(a: Seq<char>)
    ensures
        !text_before(a, a),
    decreases a.len(),
{
    if a.len() > 0 {
        lemma_no_text_before_itself(a.drop_first());
    }
}

/// Numbers are listed in ascending order, equal ones as they stood, and nothing is
/// listed twice or left off.
pub proof fn ordering_sorts(keys: Seq<u64>, p: Seq<int>, i: int, j: int)
    requires
        stable_order(keys, p),
        0 <= i < j < p.len(),
    ensures
        p.len() == keys.len(),
        p[i] != p[j],
        0 <= p[i] < keys.len(),
        keys[p[i]] <= keys[p[j]],
        keys[p[i]] == keys[p[j]] ==> p[i] < p[j],
{
}

} // verus!
