//! Client groups.
//!
//! A group steers several clients at once: members follow the group's chosen
//! source. Membership lives on each [`crate::clients::ClientRecord`]; this store
//! holds the group's display name and selected source.
//!
//! A group's source is stored by *name*, not id: ids derive from the per-boot
//! server id and change across restarts, whereas the name is stable.
use vstd::prelude::*;

use crate::assoc;
use crate::assoc::Assoc;
use crate::order;
use crate::order::order_of;
use crate::text;
use crate::text::{chars_of, copy_opt, filled, parse_bounded, push_decimal};

verus! {

/// One persisted group. Both fields optional: a freshly created group has no
/// name and no source yet (an empty rectangle in the UI).
#[derive(Debug)]
pub struct GroupRecord {
    pub name: Option<String>,
    /// Source *name* this group points at (`None` = not listening to anything).
    pub source: Option<String>,
}

/// What a group's record holds.
#[verifier::ext_equal]
pub struct GroupView {
    pub name: Option<Seq<char>>,
    pub source: Option<Seq<char>>,
}

impl View for GroupRecord {
    type V = GroupView;

    open spec fn view(&self) -> GroupView {
        GroupView { name: text::opt(self.name), source: text::opt(self.source) }
    }
}

impl Default for GroupRecord {
    fn default() -> (r: Self)
        ensures
            r@ == (GroupView { name: None, source: None }),
    {
        GroupRecord { name: None, source: None }
    }
}

impl Clone for GroupRecord {
    fn clone(&self) -> (r: Self)
        ensures
            r@ == self@,
    {
        GroupRecord { name: copy_opt(&self.name), source: copy_opt(&self.source) }
    }
}

/// Numeric part of a `g<N>` id (0 if it doesn't match), for ordering + id gen.
pub open spec fn suffix_of(id: Seq<char>) -> u64 {
    if id.len() > 0 && id[0] == 'g' {
        match text::bounded_value(id.skip(1), 10, u64::MAX as nat) {
            Some(n) => n as u64,
            None => 0,
        }
    } else {
        0
    }
}

pub fn num_suffix(id: &str) -> (n: u64)
    ensures
        n == suffix_of(id@),
{
    let chars: Vec<char> = chars_of(id);
    if chars.len() == 0 || chars[0] != 'g' {
        return 0;
    }
    let mut rest: Vec<char> = Vec::new();
    let mut i: usize = 1;
    while i < chars.len()
        invariant
            1 <= i <= chars@.len(),
            rest@ == chars@.subrange(1, i as int),
        decreases chars@.len() - i,
    {
        rest.push(chars[i]);
        i = i + 1;
        proof {
            assert(rest@ =~= chars@.subrange(1, i as int));
        }
    }
    proof {
        assert(rest@ =~= chars@.skip(1));
    }
    match parse_bounded(&rest, 10, u64::MAX) {
        Some(n) => n,
        None => 0,
    }
}

/// The id of the group with this number.
pub open spec fn group_id(n: nat) -> Seq<char> {
    seq!['g'] + text::decimal(n)
}

/// A generated id carries its number.
pub proof fn group_ids_carry_numbers(n: u64)
    ensures
        suffix_of(group_id(n as nat)) == n,
{
    text::decimal_round_trip(n as nat);
    assert(group_id(n as nat).skip(1) =~= text::decimal(n as nat));
}

/// Whether `t` is the highest number among the ids; 0 where there are none.
pub open spec fn is_top(m: Map<Seq<char>, GroupView>, t: u64) -> bool {
    &&& forall|k: Seq<char>| #[trigger] m.contains_key(k) ==> suffix_of(k) <= t
    &&& t == 0 || exists|k: Seq<char>| #[trigger] m.contains_key(k) && suffix_of(k) == t
}

/// The groups that a list of them makes: of several under one id the last counts.
pub open spec fn groups_of(list: Seq<(Seq<char>, GroupView)>) -> Map<Seq<char>, GroupView>
    decreases list.len(),
{
    if list.len() == 0 {
        Map::empty()
    } else {
        groups_of(list.drop_last()).insert(list.last().0, list.last().1)
    }
}

/// The numbers of the ids.
pub open spec fn suffixes(pairs: Seq<(Seq<char>, GroupView)>) -> Seq<u64> {
    pairs.map_values(|p: (Seq<char>, GroupView)| suffix_of(p.0))
}

/// The persistent store. Whoever changes it writes it back.
pub struct GroupStore {
    pub inner: Assoc<String, GroupRecord>,
}

impl View for GroupStore {
    type V = Map<Seq<char>, GroupView>;

    open spec fn view(&self) -> Map<Seq<char>, GroupView> {
        self.inner@
    }
}

impl GroupStore {
    pub open spec fn wf(&self) -> bool {
        self.inner.wf()
    }

    /// The store with the groups that were read, or empty if there are none or
    /// they couldn't be read.
    pub fn load(records: Option<Vec<(String, GroupRecord)>>) -> (r: Self)
        ensures
            r.wf(),
            r@ == match records {
                Some(list) => groups_of(
                    list@.map_values(|e: (String, GroupRecord)| (e.0@, e.1@)),
                ),
                None => Map::empty(),
            },
    {
        let mut inner: Assoc<String, GroupRecord> = Assoc::new();
        if let Some(list) = records {
            let ghost all = list@.map_values(|e: (String, GroupRecord)| (e.0@, e.1@));
            let mut i: usize = 0;
            proof {
                assert(all.take(0) =~= Seq::<(Seq<char>, GroupView)>::empty());
            }
            while i < list.len()
                invariant
                    i <= list@.len(),
                    inner.wf(),
                    all == list@.map_values(|e: (String, GroupRecord)| (e.0@, e.1@)),
                    inner@ == groups_of(all.take(i as int)),
                decreases list@.len() - i,
            {
                proof {
                    assert(all.take(i + 1).drop_last() =~= all.take(i as int));
                    assert(all.take(i + 1).last() == all[i as int]);
                }
                inner.insert(list[i].0.clone(), list[i].1.clone());
                i = i + 1;
            }
            proof {
                assert(all.take(i as int) =~= all);
            }
        }
        GroupStore { inner }
    }

    /// All groups as `(id, record)`, sorted by the id's numeric suffix so the UI
    /// order is stable.
    pub fn list(&self) -> (out: Vec<(String, GroupRecord)>)
        ensures
            exists|p: Seq<int>|
                {
                    &&& #[trigger] order::stable_order(suffixes(self.inner.pairs()), p)
                    &&& out@.len() == p.len()
                    &&& forall|i: int|
                        0 <= i < out@.len() ==> ((#[trigger] out@[i]).0@, out@[i].1@)
                            == self.inner.pairs()[p[i]]
                },
    {
        let ghost pairs = self.inner.pairs();
        let n: usize = self.inner.len();
        let mut keys: Vec<u64> = Vec::new();
        let mut k: usize = 0;
        while k < n
            invariant
                n == pairs.len(),
                pairs == self.inner.pairs(),
                k <= n,
                keys@.len() == k,
                forall|j: int| 0 <= j < k ==> #[trigger] keys@[j] == suffix_of(pairs[j].0),
            decreases n - k,
        {
            keys.push(num_suffix(self.inner.key_at(k).as_str()));
            k = k + 1;
        }
        proof {
            assert(keys@ =~= suffixes(pairs));
        }
        let p: Vec<usize> = order_of(&keys);
        let ghost q = p@.map_values(|i: usize| i as int);
        let mut out: Vec<(String, GroupRecord)> = Vec::new();
        let mut i: usize = 0;
        while i < p.len()
            invariant
                i <= p@.len(),
                pairs == self.inner.pairs(),
                q == p@.map_values(|i: usize| i as int),
                order::stable_order(suffixes(pairs), q),
                out@.len() == i,
                forall|j: int|
                    0 <= j < i ==> ((#[trigger] out@[j]).0@, out@[j].1@) == pairs[q[j]],
            decreases p@.len() - i,
        {
            proof {
                assert(q[i as int] == p@[i as int]);
            }
            out.push((self.inner.key_at(p[i]).clone(), self.inner.value_at(p[i]).clone()));
            i = i + 1;
        }
        proof {
            assert(order::stable_order(suffixes(pairs), q));
        }
        out
    }

    pub fn get(&self, id: &String) -> (r: Option<GroupRecord>)
        requires
            self.wf(),
        ensures
            match r {
                Some(rec) => self@.contains_key(id@) && rec@ == self@[id@],
                None => !self@.contains_key(id@),
            },
    {
        match self.inner.get(id) {
            Some(rec) => Some(rec.clone()),
            None => None,
        }
    }

    pub fn contains(&self, id: &String) -> (r: bool)
        ensures
            r == self@.contains_key(id@),
    {
        self.inner.contains(id)
    }

    /// The highest number among the ids; 0 where there are none.
    fn top(&self) -> (t: u64)
        requires
            self.wf(),
        ensures
            is_top(self@, t),
    {
        let ghost pairs = self.inner.pairs();
        let n: usize = self.inner.len();
        let mut t: u64 = 0;
        let mut i: usize = 0;
        while i < n
            invariant
                n == pairs.len(),
                pairs == self.inner.pairs(),
                i <= n,
                forall|j: int| 0 <= j < i ==> suffix_of((#[trigger] pairs[j]).0) <= t,
                t == 0 || exists|j: int| 0 <= j < i && suffix_of((#[trigger] pairs[j]).0) == t,
            decreases n - i,
        {
            let s: u64 = num_suffix(self.inner.key_at(i).as_str());
            if s > t {
                t = s;
            }
            proof {
                assert(suffix_of(pairs[i as int].0) == s);
            }
            i = i + 1;
        }
        proof {
            assert forall|k: Seq<char>| #[trigger] self@.contains_key(k) implies suffix_of(k)
                <= t by {
                let p = assoc::place_of(pairs, k);
                assert(pairs[p].0 == k);
            }
            if t != 0 {
                let j = choose|j: int| 0 <= j < n && suffix_of((#[trigger] pairs[j]).0) == t;
                assoc::lemma_place(pairs, j);
                assert(self@.contains_key(pairs[j].0));
            }
        }
        t
    }

    /// Whether there is a number left for another group.
    pub fn can_create(&self) -> (r: bool)
        requires
            self.wf(),
        ensures
            r == !is_top(self@, u64::MAX),
    {
        let t: u64 = self.top();
        proof {
            if is_top(self@, u64::MAX) && t != u64::MAX {
                let k = choose|k: Seq<char>|
                    #[trigger] self@.contains_key(k) && suffix_of(k) == u64::MAX;
                assert(suffix_of(k) <= t);
            }
        }
        t != u64::MAX
    }

    /// Create a new, empty group and return its generated id (`g<N>`).
    pub fn create(&mut self) -> (id: String)
        requires
            old(self).wf(),
            !is_top(old(self)@, u64::MAX),
        ensures
            final(self).wf(),
            exists|t: u64| #[trigger] is_top(old(self)@, t) && id@ == group_id((t + 1) as nat),
            !old(self)@.contains_key(id@),
            final(self)@ == old(self)@.insert(id@, (GroupView { name: None, source: None })),
    {
        let t: u64 = self.top();
        let mut id: String = String::new();
        id.push('g');
        push_decimal(&mut id, t + 1);
        proof {
            assert(id@ =~= group_id((t + 1) as nat));
            group_ids_carry_numbers((t + 1) as u64);
            assert(is_top(self@, t));
        }
        self.inner.insert(id.clone(), GroupRecord::default());
        id
    }

    /// Remove a group. Returns whether it existed.
    pub fn delete(&mut self, id: &String) -> (existed: bool)
        requires
            old(self).wf(),
        ensures
            final(self).wf(),
            existed == old(self)@.contains_key(id@),
            final(self)@ == old(self)@.remove(id@),
    {
        self.inner.remove(id).is_some()
    }

    /// Set (or, with `None`/blank, clear) the group's display name. Returns whether
    /// the group exists.
    pub fn set_name(&mut self, id: &String, name: Option<String>) -> (found: bool)
        requires
            old(self).wf(),
        ensures
            final(self).wf(),
            found == old(self)@.contains_key(id@),
            final(self)@ == if found {
                old(self)@.insert(
                    id@,
                    GroupView { name: text::filled_of(text::opt(name)), ..old(self)@[id@] },
                )
            } else {
                old(self)@
            },
    {
        match self.inner.find(id) {
            Some(i) => {
                let ghost mid = self.inner;
                proof {
                    assoc::lemma_place(mid.pairs(), i as int);
                }
                self.inner.value_mut(i).name = filled(name);
                proof {
                    assoc::lemma_changed(mid, self.inner, i as int, self.inner.entries@[i as int].1);
                }
                true
            },
            None => false,
        }
    }

    /// Set (or, with `None`, clear) the group's source name. Returns whether the
    /// group exists.
    pub fn set_source(&mut self, id: &String, source: Option<String>) -> (found: bool)
        requires
            old(self).wf(),
        ensures
            final(self).wf(),
            found == old(self)@.contains_key(id@),
            final(self)@ == if found {
                old(self)@.insert(
                    id@,
                    GroupView { source: text::opt(source), ..old(self)@[id@] },
                )
            } else {
                old(self)@
            },
    {
        match self.inner.find(id) {
            Some(i) => {
                let ghost mid = self.inner;
                proof {
                    assoc::lemma_place(mid.pairs(), i as int);
                }
                self.inner.value_mut(i).source = source;
                proof {
                    assoc::lemma_changed(mid, self.inner, i as int, self.inner.entries@[i as int].1);
                }
                true
            },
            None => false,
        }
    }
}

/// A new group's number is above those of all groups that there are, so it is listed
/// last and its id is new.
pub proof fn new_groups_come_last(m: Map<Seq<char>, GroupView>, t: u64, k: Seq<char>)
    requires
        is_top(m, t),
        t < u64::MAX,
        m.contains_key(k),
    ensures
        suffix_of(group_id((t + 1) as nat)) == t + 1,
        suffix_of(group_id((t + 1) as nat)) > suffix_of(k),
        k != group_id((t + 1) as nat),
{
    group_ids_carry_numbers((t + 1) as u64);
}

/// The highest number is one of the groups' own, or zero where there is none above it.
pub proof fn top_number_is_the_highest(m: Map<Seq<char>, GroupView>, t: u64, u: u64)
    requires
        is_top(m, t),
        is_top(m, u),
    ensures
        t == u,
        m.dom() == Set::<Seq<char>>::empty() ==> t == 0,
{
    if t != 0 {
        let k = choose|k: Seq<char>| #[trigger] m.contains_key(k) && suffix_of(k) == t;
        assert(m.dom().contains(k));
    }
    if u != 0 {
        let k = choose|k: Seq<char>| #[trigger] m.contains_key(k) && suffix_of(k) == u;
    }
}

/// Only an id that is a `g` and a number has a number.
pub proof fn other_ids_have_no_number(id: Seq<char>)
    ensures
        suffix_of(id) > 0 ==> id[0] == 'g' && text::unsigned_value(id.skip(1), 10) == Some(
            suffix_of(id) as nat,
        ),
        id.len() > 0 && id[0] != 'g' ==> suffix_of(id) == 0,
{
}

/// A list of groups holds what it says last under an id.
pub proof fn last_group_counts(list: Seq<(Seq<char>, GroupView)>, id: Seq<char>, i: int)
    requires
        0 <= i < list.len(),
        list[i].0 == id,
        forall|j: int| i < j < list.len() ==> (#[trigger] list[j]).0 != id,
    ensures
        groups_of(list).contains_key(id),
        groups_of(list)[id] == list[i].1,
    decreases list.len(),
{
    let n = list.len() - 1;
    if i < n {
        let init = list.drop_last();
        assert(list[n].0 != id);
        assert(init[i].0 == id);
        assert forall|j: int| i < j < init.len() implies (#[trigger] init[j]).0 != id by {
            assert(list[j].0 != id);
        }
        last_group_counts(init, id, i);
    }
}

/// A list of groups holds nothing under an id that it does not name.
pub proof fn unnamed_groups_are_not_held(list: Seq<(Seq<char>, GroupView)>, id: Seq<char>)
    requires
        forall|j: int| 0 <= j < list.len() ==> (#[trigger] list[j]).0 != id,
    ensures
        !groups_of(list).contains_key(id),
    decreases list.len(),
{
    if list.len() > 0 {
        let init = list.drop_last();
        assert(list[list.len() - 1].0 != id);
        assert forall|j: int| 0 <= j < init.len() implies (#[trigger] init[j]).0 != id by {
            assert(list[j].0 != id);
        }
        unnamed_groups_are_not_held(init, id);
    }
}

} // verus!
