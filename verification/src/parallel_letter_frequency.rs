//! Counting how often each letter occurs in texts; the texts can be counted
//! apart and the counts merged.

use std::collections::HashMap;
use vstd::prelude::*;
use vstd::std_specs::hash::*;
use vstd::std_specs::iter::IteratorSpec;
use crate::text::{
    alphabetic, append_chars, char_to_lowercase, chars_of, is_alphabetic, lower_of,
};

verus! {

broadcast use vstd::std_specs::hash::group_hash_axioms;

/// The letters of the first `k` characters of `s`: each character in lower
/// case, which may be more than one character, and of these the alphabetic
/// ones.
pub open spec fn letters_upto(s: Seq<char>, k: int) -> Seq<char>
    decreases k,
{
    if k <= 0 {
        Seq::empty()
    } else {
        letters_upto(s, k - 1) + lower_of(s[k - 1]).filter(|c: char| alphabetic(c))
    }
}

/// The letters of `s`.
pub open spec fn letters(s: Seq<char>) -> Seq<char> {
    letters_upto(s, s.len() as int)
}

/// The letters of the first `k` of `texts`, text after text.
pub open spec fn all_letters(texts: Seq<&str>, k: int) -> Seq<char>
    decreases k,
{
    if k <= 0 {
        Seq::empty()
    } else {
        all_letters(texts, k - 1) + letters(texts[k - 1]@)
    }
}

/// How many of `s` have the code `code`.
pub open spec fn tally(s: Seq<char>, code: u32) -> nat
    decreases s.len(),
{
    if s.len() == 0 {
        0
    } else {
        tally(s.drop_last(), code) + if s.last() as u32 == code {
            1nat
        } else {
            0nat
        }
    }
}

/// `m` holds, under the code of each character that `s` holds, how often
/// `s` holds it, and nothing else.
pub open spec fn counts(m: Map<u32, usize>, s: Seq<char>) -> bool {
    &&& forall|code: u32| #[trigger] m.contains_key(code) <==> tally(s, code) > 0
    &&& forall|code: u32| m.contains_key(code) ==> #[trigger] m[code] == tally(s, code)
}

/// No character occurs more often than there are characters.
pub proof fn lemma_tally_bounded(s: Seq<char>, code: u32)
    ensures
        tally(s, code) <= s.len(),
    decreases s.len(),
{
    if s.len() > 0 {
        lemma_tally_bounded(s.drop_last(), code);
    }
}

/// The letters of `text`.
pub fn letters_of(text: &str) -> (r: Vec<char>)
    ensures
        r@ == letters(text@),
{
    let s = chars_of(text);
    let mut r: Vec<char> = Vec::new();
    let mut i: usize = 0;
    while i < s.len()
        invariant
            i <= s@.len(),
            s@ == text@,
            r@ == letters_upto(s@, i as int),
        decreases s@.len() - i,
    {
        let lower = char_to_lowercase(s[i]);
        let ghost before = r@;
        let ghost keep = |c: char| alphabetic(c);
        let mut k: usize = 0;
        while k < lower.len()
            invariant
                k <= lower@.len(),
                keep == |c: char| alphabetic(c),
                r@ == before + lower@.take(k as int).filter(keep),
            decreases lower@.len() - k,
        {
            let c = lower[k];
            proof {
                let longer = lower@.take(k as int + 1);
                assert(longer.drop_last() =~= lower@.take(k as int));
                assert(longer.last() == c);
                reveal(Seq::filter);
            }
            if is_alphabetic(c) {
                r.push(c);
            }
            k += 1;
            proof {
                assert(r@ =~= before + lower@.take(k as int).filter(keep));
            }
        }
        proof {
            assert(lower@.take(k as int) =~= lower@);
        }
        i += 1;
    }
    r
}

/// How often each of `letters` occurs, under its code.
pub fn count(letters: &Vec<char>) -> (r: HashMap<u32, usize>)
    ensures
        counts(r@, letters@),
{
    let mut m: HashMap<u32, usize> = HashMap::new();
    let mut i: usize = 0;
    while i < letters.len()
        invariant
            i <= letters@.len(),
            counts(m@, letters@.take(i as int)),
        decreases letters@.len() - i,
    {
        let code = letters[i] as u32;
        proof {
            assert(letters@.take(i as int + 1).drop_last() =~= letters@.take(i as int));
            assert(letters@.take(i as int + 1).last() == letters@[i as int]);
            lemma_tally_bounded(letters@.take(i as int), code);
        }
        let seen = match m.get(&code) {
            Some(n) => *n,
            None => 0,
        };
        m.insert(code, seen + 1);
        i += 1;
    }
    proof {
        assert(letters@.take(i as int) =~= letters@);
    }
    m
}

/// How often each letter occurs in the texts of `input`, under its code.
/// Capital and small letters count as the same letter; what is no letter is
/// not counted. The number of workers has no part in the result.
pub fn frequency(input: &[&str], worker_count: usize) -> (r: HashMap<u32, usize>)
    ensures
        counts(r@, all_letters(input@, input@.len() as int)),
{
    let mut all: Vec<char> = Vec::new();
    let mut i: usize = 0;
    while i < input.len()
        invariant
            i <= input@.len(),
            all@ == all_letters(input@, i as int),
        decreases input@.len() - i,
    {
        let more = letters_of(input[i]);
        append_chars(&mut all, &more);
        i += 1;
    }
    count(&all)
}

/// What merging the counts `a` and `b` gives: under each code the sum of
/// what the two hold under it.
pub open spec fn merged(a: Map<u32, usize>, b: Map<u32, usize>) -> Map<u32, int> {
    Map::new(
        |code: u32| a.contains_key(code) || b.contains_key(code),
        |code: u32|
            (if a.contains_key(code) {
                a[code] as int
            } else {
                0
            }) + (if b.contains_key(code) {
                b[code] as int
            } else {
                0
            }),
    )
}

/// The counts `a` and `b` merged, or `None` if one of the sums does not fit.
pub fn merge(a: HashMap<u32, usize>, b: &HashMap<u32, usize>) -> (r: Option<HashMap<u32, usize>>)
    ensures
        match r {
            Some(m) => {
                &&& m@.dom() == merged(a@, b@).dom()
                &&& forall|code: u32| m@.contains_key(code) ==> #[trigger] m@[code] == merged(
                    a@,
                    b@,
                )[code]
            },
            None => exists|code: u32| merged(a@, b@)[code] > usize::MAX,
        },
{
    let mut acc = a;
    let ghost all = spec_hash_map_iter(b).remaining();
    for entry in it: b.iter()
        invariant
            it.seq() == all,
            it.seq().no_duplicates(),
            forall|i: int|
                0 <= i < it.seq().len() ==> b@.contains_key(*(#[trigger] it.seq()[i]).0) && b@[*it.seq()[i].0]
                    == *it.seq()[i].1,
            forall|k: u32| #[trigger] b@.contains_key(k) ==> it.seq().contains((&k, &b@[k])),
            forall|k: u32|
                #[trigger] acc@.contains_key(k) <==> a@.contains_key(k) || seen(
                    it.seq(),
                    it.index() as int,
                    k,
                ),
            forall|k: u32|
                acc@.contains_key(k) ==> #[trigger] acc@[k] as int == if seen(
                    it.seq(),
                    it.index() as int,
                    k,
                ) {
                    merged(a@, b@)[k]
                } else {
                    a@[k] as int
                },
    {
        let (k, v) = entry;
        let ghost s = it.seq();
        let ghost idx = it.index() as int;
        proof {
            assert(s[idx] == (k, v));
            assert(b@.contains_key(*k) && b@[*k] == *v);
            assert(!seen(s, idx, *k)) by {
                if seen(s, idx, *k) {
                    let j = choose|j: int| 0 <= j < idx && *(#[trigger] s[j]).0 == *k;
                    assert(b@[*s[j].0] == *s[j].1);
                    assert(s[j] == s[idx]);
                }
            }
        }
        let base = match acc.get(k) {
            Some(x) => *x,
            None => 0,
        };
        let ghost acc_before = acc@;
        proof {
            if acc@.contains_key(*k) {
                assert(a@.contains_key(*k));
            }
            assert(merged(a@, b@)[*k] == base + *v);
        }
        match base.checked_add(*v) {
            Some(sum) => {
                acc.insert(*k, sum);
            },
            None => {
                return None;
            },
        }
        proof {
            assert forall|key: u32| #[trigger]
                acc@.contains_key(key) <==> a@.contains_key(key) || seen(s, idx + 1, key) by {
                if seen(s, idx, key) {
                    let j = choose|j: int| 0 <= j < idx && *(#[trigger] s[j]).0 == key;
                    assert(0 <= j < idx + 1 && *s[j].0 == key);
                }
                if key == *k {
                    assert(*s[idx].0 == key);
                }
                if seen(s, idx + 1, key) {
                    let j = choose|j: int| 0 <= j < idx + 1 && *(#[trigger] s[j]).0 == key;
                    if j < idx {
                        assert(seen(s, idx, key));
                    }
                }
            }
            assert forall|key: u32| acc@.contains_key(key) implies #[trigger] acc@[key] as int
                == if seen(s, idx + 1, key) {
                merged(a@, b@)[key]
            } else {
                a@[key] as int
            } by {
                if seen(s, idx, key) {
                    let j = choose|j: int| 0 <= j < idx && *(#[trigger] s[j]).0 == key;
                    assert(0 <= j < idx + 1 && *s[j].0 == key);
                }
                if key == *k {
                    assert(*s[idx].0 == key);
                    assert(seen(s, idx + 1, key));
                } else {
                    assert(acc_before.contains_key(key));
                    if seen(s, idx + 1, key) {
                        let j = choose|j: int| 0 <= j < idx + 1 && *(#[trigger] s[j]).0 == key;
                        assert(j < idx);
                        assert(seen(s, idx, key));
                    }
                }
            }
        }
    }
    proof {
        let s = all;
        assert forall|k: u32| b@.contains_key(k) implies seen(s, s.len() as int, k) by {
            assert(s.contains((&k, &b@[k])));
            let j = choose|j: int| 0 <= j < s.len() && s[j] == (&k, &b@[k]);
            assert(*s[j].0 == k);
        }
        assert forall|k: u32| seen(s, s.len() as int, k) implies b@.contains_key(k) by {
            let j = choose|j: int| 0 <= j < s.len() && *(#[trigger] s[j]).0 == k;
            assert(b@.contains_key(*s[j].0));
        }
        assert(acc@.dom() =~= merged(a@, b@).dom());
    }
    Some(acc)
}

/// Among the first `n` entries of `entries` one has the key `key`.
spec fn seen(entries: Seq<(&u32, &usize)>, n: int, key: u32) -> bool {
    exists|j: int| 0 <= j < n && *(#[trigger] entries[j]).0 == key
}

} // verus!
