//! Sentences that use every letter of the alphabet.

use unic_char_range::CharRange;
use vstd::prelude::*;
use crate::text::chars_of;

verus! {

/// `c` in lower case, if it is a capital letter of the ASCII range; else `c`.
pub open spec fn ascii_lower(c: char) -> char {
    if 'A' <= c <= 'Z' {
        ((c as u32) + 32) as u8 as char
    } else {
        c
    }
}

/// `s` holds the letter `c`, in either case.
pub open spec fn uses(s: Seq<char>, c: char) -> bool {
    exists|i: int| 0 <= i < s.len() && ascii_lower(#[trigger] s[i]) == c
}

/// `s` holds every letter from `a` to `z`, in either case.
pub open spec fn pangram(s: Seq<char>) -> bool {
    forall|c: char| 'a' <= c <= 'z' ==> uses(s, c)
}

/// `unic_char_range`'s `CharRange::closed` and `CharRange::iter`: the
/// characters from `first` to `last`, both included, in rising order. The
/// range must lie below the surrogates.
#[verifier::external_body]
fn char_range(first: char, last: char) -> (r: Vec<char>)
    requires
        first <= last,
        (last as int) < 0xD800,
    ensures
        r@.len() == last as int - first as int + 1,
        forall|i: int| 0 <= i < r@.len() ==> (#[trigger] r@[i]) as int == first as int + i,
{
    CharRange::closed(first, last).iter().collect()
}

fn to_ascii_lowercase(c: char) -> (r: char)
    ensures
        r == ascii_lower(c),
{
    if 'A' <= c && c <= 'Z' {
        ((c as u32 + 32) as u8) as char
    } else {
        c
    }
}

/// Whether `sentence` holds every letter from `a` to `z`, in either case.
pub fn is_pangram(sentence: &str) -> (r: bool)
    ensures
        r == pangram(sentence@),
{
    let alf = char_range('a', 'z');
    let s = chars_of(sentence);
    let mut k: usize = 0;
    while k < alf.len()
        invariant
            k <= alf@.len(),
            alf@.len() == 26,
            s@ == sentence@,
            forall|i: int| 0 <= i < 26 ==> (#[trigger] alf@[i]) as int == 'a' as int + i,
            forall|i: int| 0 <= i < k ==> uses(s@, #[trigger] alf@[i]),
        decreases alf@.len() - k,
    {
        let letter = alf[k];
        let mut found = false;
        let mut i: usize = 0;
        while i < s.len() && !found
            invariant
                i <= s@.len(),
                s@ == sentence@,
                found ==> uses(s@, letter),
                !found ==> forall|j: int| 0 <= j < i ==> ascii_lower(#[trigger] s@[j]) != letter,
            decreases s@.len() - i + if found { 0int } else { 1int },
        {
            if to_ascii_lowercase(s[i]) == letter {
                found = true;
            } else {
                i += 1;
            }
        }
        if !found {
            proof {
                assert(letter as int == 'a' as int + k);
                assert('a' <= letter <= 'z');
                assert(!uses(s@, letter));
            }
            return false;
        }
        k += 1;
    }
    proof {
        assert forall|c: char| 'a' <= c <= 'z' implies uses(s@, c) by {
            let i = c as int - 'a' as int;
            assert(alf@[i] as int == c as int);
            assert(alf@[i] == c);
        }
    }
    true
}

} // verus!
