//! Merging maps by adding up what they hold under the same key.

use std::collections::HashMap;
use std::hash::Hash;
use vstd::prelude::*;
use vstd::std_specs::hash::*;
use vstd::std_specs::iter::IteratorSpec;

verus! {

broadcast use vstd::std_specs::hash::group_hash_axioms;

/// The map `m` with its values as mathematical integers.
pub open spec fn widen<K>(m: Map<K, i32>) -> Map<K, int> {
    Map::new(|k: K| m.contains_key(k), |k: K| m[k] as int)
}

/// What taking `m` into `acc` gives: a key of `m` holds what `acc` held
/// under it, or else what `m` holds under it, plus what `m` holds under it;
/// the other keys of `acc` hold what they held.
pub open spec fn absorb<K>(acc: Map<K, int>, m: Map<K, int>) -> Map<K, int> {
    Map::new(
        |k: K| acc.contains_key(k) || m.contains_key(k),
        |k: K|
            if m.contains_key(k) {
                (if acc.contains_key(k) {
                    acc[k]
                } else {
                    m[k]
                }) + m[k]
            } else {
                acc[k]
            },
    )
}

/// What merging `maps` gives: nothing for no map, else the first map with
/// each further one taken into it in turn.
pub open spec fn merged<K>(maps: Seq<Map<K, i32>>) -> Map<K, int>
    decreases maps.len(),
{
    if maps.len() == 0 {
        Map::empty()
    } else if maps.len() == 1 {
        widen(maps[0])
    } else {
        absorb(merged(maps.drop_last()), widen(maps.last()))
    }
}

/// Every value of `m` fits a machine integer.
pub open spec fn fits<K>(m: Map<K, int>) -> bool {
    forall|k: K| m.contains_key(k) ==> i32::MIN <= #[trigger] m[k] <= i32::MAX
}

/// The models of the maps `maps`.
pub open spec fn models<K>(maps: Seq<HashMap<K, i32>>) -> Seq<Map<K, i32>> {
    Seq::new(maps.len(), |i: int| maps[i]@)
}

/// Among the first `n` entries of `entries` one has the key `key`.
spec fn seen<K>(entries: Seq<(&K, &i32)>, n: int, key: K) -> bool {
    exists|j: int| 0 <= j < n && *(#[trigger] entries[j]).0 == key
}

/// Takes `m` into `acc`.
fn absorb_into<K: Hash + Eq + Copy>(acc: &mut HashMap<K, i32>, m: &HashMap<K, i32>)
    requires
        obeys_key_model::<K>(),
        fits(absorb(widen(old(acc)@), widen(m@))),
    ensures
        widen(final(acc)@) == absorb(widen(old(acc)@), widen(m@)),
{
    let ghost before = acc@;
    let ghost target = absorb(widen(before), widen(m@));
    let ghost all = spec_hash_map_iter(m).remaining();
    for entry in it: m.iter()
        invariant
            obeys_key_model::<K>(),
            target == absorb(widen(before), widen(m@)),
            fits(target),
            it.seq() == all,
            it.seq().no_duplicates(),
            forall|i: int|
                0 <= i < it.seq().len() ==> m@.contains_key(*(#[trigger] it.seq()[i]).0) && m@[*it.seq()[i].0]
                    == *it.seq()[i].1,
            forall|k: K| #[trigger] m@.contains_key(k) ==> it.seq().contains((&k, &m@[k])),
            forall|k: K|
                #[trigger] acc@.contains_key(k) <==> before.contains_key(k) || seen(
                    it.seq(),
                    it.index() as int,
                    k,
                ),
            forall|k: K|
                acc@.contains_key(k) ==> #[trigger] acc@[k] as int == if seen(
                    it.seq(),
                    it.index() as int,
                    k,
                ) {
                    target[k]
                } else {
                    before[k] as int
                },
    {
        let (k, v) = entry;
        let ghost s = it.seq();
        let ghost idx = it.index() as int;
        proof {
            assert(s[idx] == (k, v));
            assert(m@.contains_key(*k) && m@[*k] == *v);
            assert(!seen(s, idx, *k)) by {
                if seen(s, idx, *k) {
                    let j = choose|j: int| 0 <= j < idx && *(#[trigger] s[j]).0 == *k;
                    assert(m@[*s[j].0] == *s[j].1);
                    assert(s[j] == s[idx]);
                }
            }
            assert(target.contains_key(*k));
        }
        let base = match acc.get(k) {
            Some(x) => *x,
            None => *v,
        };
        let ghost acc_before = acc@;
        proof {
            if acc@.contains_key(*k) {
                assert(before.contains_key(*k));
                assert(acc@[*k] as int == before[*k] as int);
                assert(widen(before)[*k] == before[*k] as int);
            } else {
                assert(!before.contains_key(*k));
            }
            assert(widen(m@)[*k] == *v as int);
            assert(target[*k] == base + *v);
        }
        acc.insert(*k, base + *v);
        proof {
            assert forall|key: K| #[trigger]
                acc@.contains_key(key) <==> before.contains_key(key) || seen(
                    s,
                    idx + 1,
                    key,
                ) by {
                if seen(s, idx, key) {
                    let j = choose|j: int| 0 <= j < idx && *(#[trigger] s[j]).0 == key;
                    assert(0 <= j < idx + 1 && *s[j].0 == key);
                }
                if key == *k {
                    assert(*s[idx].0 == key);
                }
                if seen(s, idx + 1, key) {
                    let j = choose|j: int| 0 <= j < idx + 1 && *(#[trigger] s[j]).0 == key;
                    if j < idx {
                        assert(seen(s, idx, key));
                    }
                }
            }
            assert forall|key: K| acc@.contains_key(key) implies #[trigger] acc@[key] as int
                == if seen(s, idx + 1, key) {
                target[key]
            } else {
                before[key] as int
            } by {
                if seen(s, idx, key) {
                    let j = choose|j: int| 0 <= j < idx && *(#[trigger] s[j]).0 == key;
                    assert(0 <= j < idx + 1 && *s[j].0 == key);
                }
                if key == *k {
                    assert(*s[idx].0 == key);
                    assert(seen(s, idx + 1, key));
                } else {
                    assert(acc_before.contains_key(key));
                    if seen(s, idx + 1, key) {
                        let j = choose|j: int| 0 <= j < idx + 1 && *(#[trigger] s[j]).0 == key;
                        assert(j < idx);
                        assert(seen(s, idx, key));
                    }
                }
            }
        }
    }
    proof {
        let s = all;
        assert forall|k: K| m@.contains_key(k) implies seen(s, s.len() as int, k) by {
            assert(s.contains((&k, &m@[k])));
            let j = choose|j: int| 0 <= j < s.len() && s[j] == (&k, &m@[k]);
            assert(*s[j].0 == k);
        }
        assert forall|k: K| seen(s, s.len() as int, k) implies m@.contains_key(k) by {
            let j = choose|j: int| 0 <= j < s.len() && *(#[trigger] s[j]).0 == k;
            assert(m@.contains_key(*s[j].0));
        }
        assert(widen(acc@) =~= target);
    }
}

/// Merges `maps` into one map: the first map, into which each further map
/// is taken in turn. Taking a map in adds what it holds under a key to what
/// the merged map holds there; a key that the merged map lacks enters with
/// what the map holds under it and then has the same added.
pub fn merge_with<K: Hash + Eq + Copy>(maps: &[HashMap<K, i32>]) -> (r: HashMap<K, i32>)
    requires
        obeys_key_model::<K>(),
        forall|n: int| 1 <= n <= maps@.len() ==> fits(#[trigger] merged(models(maps@).take(n))),
    ensures
        widen(r@) == merged(models(maps@)),
{
    let n = maps.len();
    if n == 0 {
        let r = HashMap::new();
        proof {
            assert(widen(r@) =~= merged(models(maps@)));
        }
        return r;
    }
    let mut acc = maps[0].clone();
    let ghost all = models(maps@);
    proof {
        assert(all.take(1).len() == 1);
        assert(all.take(1)[0] == maps@[0]@);
    }
    let mut i: usize = 1;
    while i < n
        invariant
            obeys_key_model::<K>(),
            1 <= i <= n,
            n == maps@.len(),
            all == models(maps@),
            forall|n: int| 1 <= n <= maps@.len() ==> fits(#[trigger] merged(all.take(n))),
            widen(acc@) == merged(all.take(i as int)),
        decreases n - i,
    {
        proof {
            let longer = all.take(i as int + 1);
            assert(longer.drop_last() =~= all.take(i as int));
            assert(longer.last() == maps@[i as int]@);
            assert(fits(merged(longer)));
        }
        absorb_into(&mut acc, &maps[i]);
        i += 1;
    }
    proof {
        assert(all.take(n as int) =~= all);
    }
    acc
}

/// Merging a single map gives that map.
pub proof fn lemma_merge_of_one<K>(m: Map<K, i32>)
    ensures
        merged(seq![m]) == widen(m),
{
}

/// A key that every one of two maps holds ends with the sum of the two
/// values.
pub proof fn lemma_merge_of_two_adds<K>(a: Map<K, i32>, b: Map<K, i32>, k: K)
    requires
        a.contains_key(k),
        b.contains_key(k),
    ensures
        merged(seq![a, b])[k] == a[k] + b[k],
{
    let both = seq![a, b];
    assert(both.drop_last() =~= seq![a]);
    assert(merged(both.drop_last()) == widen(a));
}

} // verus!
