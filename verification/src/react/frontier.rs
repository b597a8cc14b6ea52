//! The working set of a propagation pass: cell indices still to be
//! recomputed, handed out smallest first.

use std::collections::BTreeSet;
use vstd::prelude::*;
use vstd::std_specs::cmp::OrdSpec;
use vstd::std_specs::iter::IteratorSpec;

verus! {

broadcast use {vstd::std_specs::btree::group_btree_axioms, vstd::laws_cmp::group_laws_cmp};

/// The smallest member of `set`, if it has any.
pub fn smallest(set: &BTreeSet<usize>) -> (r: Option<usize>)
    ensures
        match r {
            Some(m) => set@.contains(m) && forall|x: usize| set@.contains(x) ==> m <= x,
            None => set@ =~= Set::<usize>::empty(),
        },
{
    for x in it: set.iter()
        invariant
            it.index() == 0,
    {
        proof {
            let all = it.seq();
            assert(all.unref().to_set() == set@);
            assert(all.unref()[0] == *x);
            assert(all.unref().to_set().contains(*x));
            assert forall|y: usize| set@.contains(y) implies *x <= y by {
                assert(all.unref().to_set().contains(y));
                let j = choose|j: int| 0 <= j < all.unref().len() && all.unref()[j] == y;
                assert(vstd::std_specs::btree::increasing_seq(all));
                if j > 0 {
                    assert(vstd::laws_cmp::obeys_cmp::<usize>());
                    assert(vstd::laws_cmp::obeys_cmp::<&usize>());
                    vstd::std_specs::btree::axiom_increasing_seq_meaning(all);
                    assert(0 < j < all.len());
                    let a: &usize = all[0];
                    let b: &usize = all[j];
                    assert(OrdSpec::cmp_spec(&a, &b) is Less);
                }
            }
        }
        return Some(*x);
    }
    None
}

/// Inserts every member of `items` into `set`.
pub fn add_all(set: &mut BTreeSet<usize>, items: &Vec<usize>)
    ensures
        forall|x: usize| #[trigger]
            final(set)@.contains(x) <==> old(set)@.contains(x) || items@.contains(x),
{
    let mut k: usize = 0;
    while k < items.len()
        invariant
            k <= items@.len(),
            forall|x: usize| #[trigger]
                set@.contains(x) <==> old(set)@.contains(x) || items@.take(k as int).contains(x),
        decreases items@.len() - k,
    {
        let ghost before = set@;
        set.insert(items[k]);
        proof {
            let item = items@[k as int];
            assert(set@ == before.insert(item));
            assert forall|x: usize| #[trigger]
                set@.contains(x) <==> old(set)@.contains(x) || items@.take(k as int + 1).contains(
                    x,
                ) by {
                let longer = items@.take(k as int + 1);
                let shorter = items@.take(k as int);
                assert(longer[k as int] == item);
                if shorter.contains(x) {
                    let j = choose|j: int| 0 <= j < shorter.len() && shorter[j] == x;
                    assert(longer[j] == x);
                }
                if longer.contains(x) {
                    let j = choose|j: int| 0 <= j < longer.len() && longer[j] == x;
                    if j < k {
                        assert(shorter[j] == x);
                    }
                }
            }
        }
        k += 1;
    }
    proof {
        assert(items@.take(k as int) =~= items@);
    }
}

/// Removes `x` from `set`.
pub fn discard(set: &mut BTreeSet<usize>, x: usize)
    ensures
        final(set)@ == old(set)@.remove(x),
{
    set.remove(&x);
}

} // verus!
