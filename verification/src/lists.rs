//! What is true, and asked, of lists of anything.
use vstd::prelude::*;
use vstd::std_specs::cmp::PartialEqSpec;

verus! {

/// Whether `==` tells the items apart.
pub open spec fn comparable<T: PartialEq>() -> bool {
    &&& T::obeys_eq_spec()
    &&& forall|x: T, y: T| #[trigger] x.eq_spec(&y) <==> x == y
}

/// Whether two lists hold the same items, in the same order.
pub fn same_items<T: PartialEq>(a: &Vec<T>, b: &Vec<T>) -> (same: bool)
    requires
        comparable::<T>(),
    ensures
        same == (a@ == b@),
{
    if a.len() != b.len() {
        return false;
    }
    let mut i: usize = 0;
    while i < a.len()
        invariant
            comparable::<T>(),
            i <= a@.len(),
            a@.len() == b@.len(),
            forall|j: int| 0 <= j < i ==> a@[j] == b@[j],
        decreases a@.len() - i,
    {
        if a[i] != b[i] {
            return false;
        }
        i = i + 1;
    }
    proof {
        assert(a@ =~= b@);
    }
    true
}

/// Of no items, none pass.
pub proof fn lemma_filter_none<T>(all: Seq<T>, keep: spec_fn(T) -> bool)
    ensures
        all.take(0).filter(keep) == Seq::<T>::empty(),
{
    reveal(Seq::filter);
    assert(all.take(0).filter(keep) =~= Seq::<T>::empty());
}

/// Those that pass of one item more.
pub proof fn lemma_filter_step<T>(all: Seq<T>, i: int, keep: spec_fn(T) -> bool)
    requires
        0 <= i < all.len(),
    ensures
        all.take(i + 1).filter(keep) == if keep(all[i]) {
            all.take(i).filter(keep).push(all[i])
        } else {
            all.take(i).filter(keep)
        },
{
    reveal(Seq::filter);
    assert(all.take(i + 1).drop_last() =~= all.take(i));
    assert(all.take(i + 1).last() == all[i]);
}

} // verus!
