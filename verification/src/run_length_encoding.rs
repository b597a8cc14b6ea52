//! Run-length encoding: a run of equal characters is written as its length
//! and the character.

use itertools::Itertools;
use vstd::prelude::*;
use crate::text::{
    append_chars, chars_of, decimal, decimal_of, is_numeric, numeric, parse_usize, parsed_usize,
    string_of,
};

verus! {

/// The runs of `s`: each maximal stretch of equal neighbours, as the
/// character and the length of the stretch, in order.
pub open spec fn runs_of(s: Seq<char>) -> Seq<(char, usize)>
    decreases s.len(),
{
    if s.len() == 0 {
        Seq::empty()
    } else {
        let before = runs_of(s.drop_last());
        if before.len() > 0 && before.last().0 == s.last() {
            before.drop_last().push((s.last(), (before.last().1 + 1) as usize))
        } else {
            before.push((s.last(), 1usize))
        }
    }
}

/// How a run is written: the character alone if the run has the length 1,
/// else the length in decimal and the character.
pub open spec fn run_text(run: (char, usize)) -> Seq<char> {
    if run.1 == 1 {
        seq![run.0]
    } else {
        decimal_of(run.1 as nat).push(run.0)
    }
}

/// The first `k` of `runs` as they are written, one after the other.
pub open spec fn runs_text(runs: Seq<(char, usize)>, k: int) -> Seq<char>
    decreases k,
{
    if k <= 0 {
        Seq::empty()
    } else {
        runs_text(runs, k - 1) + run_text(runs[k - 1])
    }
}

/// `itertools`' `Itertools::group_by` with the character itself as the key,
/// each group handed out as its key and the count of its members: the runs
/// of `source`.
#[verifier::external_body]
fn runs(source: &str) -> (r: Vec<(char, usize)>)
    ensures
        r@ == runs_of(source@),
{
    source.chars().group_by(|&c| c).into_iter().map(|(c, group)| (c, group.count())).collect()
}

/// `source` with each of its runs written as its length and its character;
/// a run of one character is written as the character alone.
pub fn encode(source: &str) -> (r: String)
    ensures
        r@ == runs_text(runs_of(source@), runs_of(source@).len() as int),
{
    let groups = runs(source);
    let mut out: Vec<char> = Vec::new();
    let mut i: usize = 0;
    while i < groups.len()
        invariant
            i <= groups@.len(),
            out@ == runs_text(groups@, i as int),
        decreases groups@.len() - i,
    {
        let (c, n) = groups[i];
        let ghost before = out@;
        if n == 1 {
            out.push(c);
        } else {
            let digits = decimal(n);
            append_chars(&mut out, &digits);
            out.push(c);
        }
        proof {
            assert(out@ =~= before + run_text(groups@[i as int]));
        }
        i += 1;
    }
    string_of(&out)
}

/// `n` times the character `c`.
pub open spec fn repeated(c: char, n: nat) -> Seq<char> {
    Seq::new(n, |i: int| c)
}

/// Where a decoding stands: the digits read since the last character that
/// is none, and the text put out so far.
pub struct Decoding {
    pub group: Seq<char>,
    pub out: Seq<char>,
}

/// Where the decoding of `s` stands at its end. A character that is numeric
/// joins the digits; any other is put out as often as the digits say, or
/// once if they write no number, and the digits begin anew.
pub open spec fn decoding(s: Seq<char>) -> Decoding
    decreases s.len(),
{
    if s.len() == 0 {
        Decoding { group: Seq::empty(), out: Seq::empty() }
    } else {
        let before = decoding(s.drop_last());
        let c = s.last();
        if numeric(c) {
            Decoding { group: before.group.push(c), out: before.out }
        } else {
            let n = match parsed_usize(before.group) {
                Some(n) => n,
                None => 1usize,
            };
            Decoding { group: Seq::empty(), out: before.out + repeated(c, n as nat) }
        }
    }
}

/// The text that `source` encodes: each character that is not numeric, as
/// often as the number before it says, or once if no number stands before
/// it. Numeric characters at the end stand for nothing.
pub fn decode(source: &str) -> (r: String)
    ensures
        r@ == decoding(source@).out,
{
    let s = chars_of(source);
    let mut group: Vec<char> = Vec::new();
    let mut res: Vec<char> = Vec::new();
    let mut i: usize = 0;
    while i < s.len()
        invariant
            i <= s@.len(),
            s@ == source@,
            group@ == decoding(s@.take(i as int)).group,
            res@ == decoding(s@.take(i as int)).out,
        decreases s@.len() - i,
    {
        let c = s[i];
        proof {
            assert(s@.take(i as int + 1).drop_last() =~= s@.take(i as int));
            assert(s@.take(i as int + 1).last() == c);
        }
        if is_numeric(c) {
            group.push(c);
        } else {
            let n = match parse_usize(&group) {
                Some(n) => n,
                None => 1,
            };
            let ghost before = res@;
            let mut k: usize = 0;
            while k < n
                invariant
                    k <= n,
                    res@ == before + repeated(c, k as nat),
                decreases n - k,
            {
                res.push(c);
                k += 1;
                proof {
                    assert(res@ =~= before + repeated(c, k as nat));
                }
            }
            group.clear();
        }
        i += 1;
    }
    proof {
        assert(s@.take(i as int) =~= s@);
    }
    string_of(&res)
}

} // verus!
