//! Text as sequences of characters: conversions, and the functions of the
//! standard library on text that the logic of this crate builds on.

use vstd::prelude::*;

verus! {

/// The characters of `s`, in order.
pub fn chars_of(s: &str) -> (r: Vec<char>)
    ensures
        r@ == s@,
{
    let mut r: Vec<char> = Vec::new();
    for c in it: s.chars()
        invariant
            it.seq() == s@,
            r@ == s@.take(it.index() as int),
    {
        r.push(c);
        proof {
            assert(r@ =~= s@.take(it.index() + 1));
        }
    }
    proof {
        assert(s@.take(s@.len() as int) =~= s@);
    }
    r
}

/// A copy of the characters `v`.
pub fn copy_chars(v: &Vec<char>) -> (r: Vec<char>)
    ensures
        r@ == v@,
{
    let r = v.clone();
    proof {
        assert(r@ =~= v@);
    }
    r
}

/// `std`'s `String::from_iter` on characters: the string that holds exactly
/// the characters `chars`, in order.
#[verifier::external_body]
pub(crate) fn string_of(chars: &Vec<char>) -> (s: String)
    ensures
        s@ == chars@,
{
    chars.iter().collect()
}

/// Whether `v` holds exactly the characters of `text`.
pub fn same_text(v: &Vec<char>, text: &str) -> (r: bool)
    ensures
        r == (v@ == text@),
{
    let t = chars_of(text);
    if v.len() != t.len() {
        return false;
    }
    let mut i: usize = 0;
    while i < v.len()
        invariant
            i <= v@.len(),
            v@.len() == t@.len(),
            t@ == text@,
            forall|k: int| 0 <= k < i ==> v@[k] == t@[k],
        decreases v@.len() - i,
    {
        if v[i] != t[i] {
            return false;
        }
        i += 1;
    }
    proof {
        assert(v@ =~= text@);
    }
    true
}

/// The views of the strings `v`, in order.
pub open spec fn texts(v: Seq<Vec<char>>) -> Seq<Seq<char>> {
    Seq::new(v.len(), |i: int| v[i]@)
}

/// What `str::split_whitespace` makes of a text: its maximal runs of
/// characters that are not white space, in order.
pub uninterp spec fn whitespace_split(s: Seq<char>) -> Seq<Seq<char>>;

/// `std`'s `str::split_whitespace`, each piece handed out as its
/// characters. The result is named.
#[verifier::external_body]
pub(crate) fn split_whitespace(s: &str) -> (r: Vec<Vec<char>>)
    ensures
        texts(r@) == whitespace_split(s@),
{
    s.split_whitespace().map(|w| w.chars().collect()).collect()
}

/// What `str::to_lowercase` makes of a text.
pub uninterp spec fn lowercased(s: Seq<char>) -> Seq<char>;

/// `std`'s `str::to_lowercase`, on the characters `s`. The result is named.
#[verifier::external_body]
pub(crate) fn to_lowercase(s: &Vec<char>) -> (r: Vec<char>)
    ensures
        r@ == lowercased(s@),
{
    s.iter().collect::<String>().to_lowercase().chars().collect()
}

/// What `str::parse::<i32>` makes of a text: the number it is the decimal
/// writing of, if it is one that fits.
pub uninterp spec fn parsed_i32(s: Seq<char>) -> Option<i32>;

/// `std`'s `str::parse::<i32>`, on the characters `s`; a failure to parse is
/// `None`. The result is named.
#[verifier::external_body]
pub(crate) fn parse_i32(s: &Vec<char>) -> (r: Option<i32>)
    ensures
        r == parsed_i32(s@),
{
    s.iter().collect::<String>().parse::<i32>().ok()
}

/// What `str::parse::<usize>` makes of a text: the number it is the decimal
/// writing of, if it is one that fits.
pub uninterp spec fn parsed_usize(s: Seq<char>) -> Option<usize>;

/// `std`'s `str::parse::<usize>`, on the characters `s`; a failure to parse
/// is `None`. The result is named.
#[verifier::external_body]
pub(crate) fn parse_usize(s: &Vec<char>) -> (r: Option<usize>)
    ensures
        r == parsed_usize(s@),
{
    s.iter().collect::<String>().parse::<usize>().ok()
}

/// Whether `char::is_numeric` holds of a character.
pub uninterp spec fn numeric(c: char) -> bool;

/// `std`'s `char::is_numeric`. The result is named.
#[verifier::external_body]
pub(crate) fn is_numeric(c: char) -> (r: bool)
    ensures
        r == numeric(c),
{
    c.is_numeric()
}

/// Whether `char::is_alphabetic` holds of a character.
pub uninterp spec fn alphabetic(c: char) -> bool;

/// `std`'s `char::is_alphabetic`. The result is named.
#[verifier::external_body]
pub(crate) fn is_alphabetic(c: char) -> (r: bool)
    ensures
        r == alphabetic(c),
{
    c.is_alphabetic()
}

/// What `char::to_lowercase` makes of a character: one character or more.
pub uninterp spec fn lower_of(c: char) -> Seq<char>;

/// `std`'s `char::to_lowercase`, handed out as a vector. The result is
/// named.
#[verifier::external_body]
pub(crate) fn char_to_lowercase(c: char) -> (r: Vec<char>)
    ensures
        r@ == lower_of(c),
{
    c.to_lowercase().collect()
}

/// What `str::lines` makes of a text: its lines, without their endings.
pub uninterp spec fn lines_of(s: Seq<char>) -> Seq<Seq<char>>;

/// `std`'s `str::lines`, each line handed out as its characters. The result
/// is named.
#[verifier::external_body]
pub(crate) fn lines(s: &str) -> (r: Vec<Vec<char>>)
    ensures
        texts(r@) == lines_of(s@),
{
    s.lines().map(|l| l.chars().collect()).collect()
}

/// `needle` stands in `hay` at the offset `at`.
pub open spec fn stands_at(needle: Seq<char>, hay: Seq<char>, at: int) -> bool {
    0 <= at <= hay.len() - needle.len() && hay.subrange(at, at + needle.len()) == needle
}

/// `needle` stands somewhere in `hay`.
pub open spec fn stands_in(needle: Seq<char>, hay: Seq<char>) -> bool {
    exists|at: int| stands_at(needle, hay, at)
}

/// Whether `needle` stands somewhere in `hay`.
pub fn contains_text(hay: &Vec<char>, needle: &Vec<char>) -> (r: bool)
    ensures
        r == stands_in(needle@, hay@),
{
    if needle.len() > hay.len() {
        return false;
    }
    let n = hay.len();
    let last = n - needle.len();
    let mut at: usize = 0;
    loop
        invariant
            n == hay@.len(),
            last == hay@.len() - needle@.len(),
            at <= last,
            forall|a: int| 0 <= a < at ==> !stands_at(needle@, hay@, a),
        decreases last - at,
    {
        let mut j: usize = 0;
        while j < needle.len() && hay[at + j] == needle[j]
            invariant
                n == hay@.len(),
                at + needle@.len() <= n,
                j <= needle@.len(),
                forall|k: int| 0 <= k < j ==> hay@[at + k] == needle@[k],
            decreases needle@.len() - j,
        {
            j += 1;
        }
        if j == needle.len() {
            proof {
                assert(hay@.subrange(at as int, at + needle@.len()) =~= needle@);
                assert(stands_at(needle@, hay@, at as int));
            }
            return true;
        }
        proof {
            assert(hay@.subrange(at as int, at + needle@.len())[j as int] == hay@[at + j]);
        }
        if at == last {
            return false;
        }
        at += 1;
    }
}

/// The character that writes the decimal digit `d`.
pub open spec fn digit_char(d: int) -> char {
    (d + 48) as u8 as char
}

/// `n` written in decimal.
pub open spec fn decimal_of(n: nat) -> Seq<char>
    decreases n,
{
    if n < 10 {
        seq![digit_char(n as int)]
    } else {
        decimal_of(n / 10).push(digit_char((n % 10) as int))
    }
}

/// `n` written in decimal.
pub fn decimal(n: usize) -> (r: Vec<char>)
    ensures
        r@ == decimal_of(n as nat),
{
    let mut reversed: Vec<char> = Vec::new();
    let mut rest = n;
    while rest >= 10
        invariant
            decimal_of(n as nat) == decimal_of(rest as nat) + reversed@.reverse(),
        decreases rest,
    {
        let d = (rest % 10) as u8;
        let ghost before = reversed@;
        reversed.push((d + 48) as char);
        proof {
            assert(reversed@.reverse() =~= seq![digit_char((rest % 10) as int)] + before.reverse());
            assert(decimal_of(rest as nat) == decimal_of((rest / 10) as nat).push(
                digit_char((rest % 10) as int),
            ));
            assert(decimal_of(n as nat) =~= decimal_of((rest / 10) as nat) + reversed@.reverse());
        }
        rest = rest / 10;
    }
    let mut r: Vec<char> = Vec::new();
    r.push((rest as u8 + 48) as char);
    let mut i: usize = reversed.len();
    while i > 0
        invariant
            i <= reversed@.len(),
            r@ == seq![digit_char(rest as int)] + reversed@.reverse().take(reversed@.len() - i),
        decreases i,
    {
        i -= 1;
        r.push(reversed[i]);
        proof {
            let rev = reversed@.reverse();
            assert(rev[reversed@.len() - 1 - i] == reversed@[i as int]);
            assert(r@ =~= seq![digit_char(rest as int)] + rev.take(reversed@.len() - i));
        }
    }
    proof {
        assert(reversed@.reverse().take(reversed@.len() as int) =~= reversed@.reverse());
    }
    r
}

/// Appends the characters `more` to `v`.
pub fn append_chars(v: &mut Vec<char>, more: &Vec<char>)
    ensures
        final(v)@ == old(v)@ + more@,
{
    let mut i: usize = 0;
    while i < more.len()
        invariant
            i <= more@.len(),
            v@ == old(v)@ + more@.take(i as int),
        decreases more@.len() - i,
    {
        v.push(more[i]);
        i += 1;
        proof {
            assert(v@ =~= old(v)@ + more@.take(i as int));
        }
    }
    proof {
        assert(more@.take(i as int) =~= more@);
    }
}

} // verus!
