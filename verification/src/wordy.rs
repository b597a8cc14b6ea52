//! Arithmetic questions in plain words: "What is 5 plus 13?"

use regex::Regex;
use vstd::prelude::*;
use crate::arith::{divide, quotient};
use crate::text::{parse_i32, parsed_i32, same_text, split_whitespace, whitespace_split};

verus! {

/// Whether `v` fits a machine integer.
pub open spec fn fits(v: int) -> bool {
    i32::MIN <= v <= i32::MAX
}

/// An operation between two numbers.
#[derive(Clone, Copy, Debug, PartialEq, Eq, Structural)]
pub enum Op {
    Add,
    Minus,
    Mult,
    Div,
    Pow,
}

/// `x` read as an unsigned number of 32 bits.
pub open spec fn unsigned(x: int) -> int {
    if x >= 0 {
        x
    } else {
        x + 0x1_0000_0000
    }
}

/// `p`, an unsigned number of 32 bits, read as a signed one.
pub open spec fn signed(p: int) -> int {
    if p >= 0x8000_0000 {
        p - 0x1_0000_0000
    } else {
        p
    }
}

/// What `op` makes of `x` and `y`, or `None` where the machine cannot
/// compute it: the result does not fit, the divisor is zero, or, for a power,
/// the exponent is negative or the power of `x` read as unsigned does not
/// fit 32 bits.
pub open spec fn applied(op: Op, x: i32, y: i32) -> Option<i32> {
    match op {
        Op::Add => if fits(x + y) {
            Some((x + y) as i32)
        } else {
            None
        },
        Op::Minus => if fits(x - y) {
            Some((x - y) as i32)
        } else {
            None
        },
        Op::Mult => if fits(x * y) {
            Some((x * y) as i32)
        } else {
            None
        },
        Op::Div => if y == 0 || (x == i32::MIN && y == -1) {
            None
        } else {
            Some(quotient(x as int, y as int) as i32)
        },
        Op::Pow => if y < 0 || vstd::arithmetic::power::pow(unsigned(x as int), y as nat) > u32::MAX {
            None
        } else {
            Some(signed(vstd::arithmetic::power::pow(unsigned(x as int), y as nat)) as i32)
        },
    }
}

fn add(x: i32, y: i32) -> (r: Option<i32>)
    ensures
        r == applied(Op::Add, x, y),
{
    x.checked_add(y)
}

fn minus(x: i32, y: i32) -> (r: Option<i32>)
    ensures
        r == applied(Op::Minus, x, y),
{
    x.checked_sub(y)
}

fn mult(x: i32, y: i32) -> (r: Option<i32>)
    ensures
        r == applied(Op::Mult, x, y),
{
    x.checked_mul(y)
}

fn div(x: i32, y: i32) -> (r: Option<i32>)
    ensures
        r == applied(Op::Div, x, y),
{
    if y == 0 || (x == i32::MIN && y == -1) {
        None
    } else {
        Some(divide(x, y))
    }
}

fn pow(x: i32, y: i32) -> (r: Option<i32>)
    ensures
        r == applied(Op::Pow, x, y),
{
    if y < 0 {
        return None;
    }
    let base: u32 = #[verifier::truncate] (x as u32);
    proof {
        assert(base == unsigned(x as int)) by (bit_vector)
            requires
                base == #[verifier::truncate] (x as u32),
        ;
    }
    let mut p: u32 = 1;
    let mut i: i32 = 0;
    proof {
        vstd::arithmetic::power::lemma_pow0(base as int);
    }
    while i < y
        invariant
            0 <= i <= y,
            base == unsigned(x as int),
            p == vstd::arithmetic::power::pow(base as int, i as nat),
        decreases y - i,
    {
        proof {
            vstd::arithmetic::power::lemma_pow_adds(base as int, i as nat, 1);
            vstd::arithmetic::power::lemma_pow1(base as int);
            assert(vstd::arithmetic::power::pow(base as int, (i + 1) as nat) == p * base);
        }
        match p.checked_mul(base) {
            Some(next) => {
                p = next;
            },
            None => {
                proof {
                    assert(base > 0) by (nonlinear_arith)
                        requires
                            p * base > u32::MAX,
                            base >= 0,
                            p >= 0,
                    ;
                    vstd::arithmetic::power::lemma_pow_increases(
                        base as nat,
                        (i + 1) as nat,
                        y as nat,
                    );
                }
                return None;
            },
        }
        i += 1;
    }
    let r = #[verifier::truncate] (p as i32);
    proof {
        assert(r == signed(p as int)) by (bit_vector)
            requires
                r == #[verifier::truncate] (p as i32),
        ;
    }
    Some(r)
}

/// One word of a question, as the reading takes it.
pub struct Token {
    /// The word as it was written.
    pub text: Vec<char>,
    /// The number that the word writes, if it writes one.
    pub number: Option<i32>,
}

/// A token in the model.
pub struct TokenView {
    pub text: Seq<char>,
    pub number: Option<i32>,
}

impl View for Token {
    type V = TokenView;

    open spec fn view(&self) -> TokenView {
        TokenView { text: self.text@, number: self.number }
    }
}

/// The models of the tokens `tokens`.
pub open spec fn token_views(tokens: Seq<Token>) -> Seq<TokenView> {
    Seq::new(tokens.len(), |i: int| tokens[i]@)
}

/// The tokens that the text `body` is made of.
pub open spec fn tokens_of(body: Seq<char>) -> Seq<TokenView> {
    let pieces = whitespace_split(body);
    Seq::new(
        pieces.len(),
        |i: int| TokenView { text: pieces[i], number: parsed_i32(pieces[i]) },
    )
}

/// What the reading expects next.
#[derive(Clone, Copy, Debug, PartialEq, Eq, Structural)]
pub enum Expect {
    Val,
    Op,
    By,
    Raised,
    To,
    The,
    Power,
}

/// Where the reading stands: the numbers and operations read so far, and
/// what it expects next.
pub struct Reading {
    pub vals: Seq<i32>,
    pub ops: Seq<Op>,
    pub expect: Expect,
}

/// How far a reading got.
pub enum Scan {
    /// All words so far were taken.
    Going(Reading),
    /// A word was not what the reading expected: the question has no answer.
    Rejected,
    /// A word of a power was not what it must be: the question cannot be
    /// read at all.
    Stuck,
}

/// The decimal digit that `c` writes, if it writes one.
pub open spec fn digit_of(c: char) -> Option<i32> {
    if '0' <= c <= '9' {
        Some((c as u32 - '0' as u32) as i32)
    } else {
        None
    }
}

/// What the reading `r` makes of the next word `w`.
pub open spec fn step(r: Reading, w: TokenView) -> Scan {
    match r.expect {
        Expect::Val => match w.number {
            Some(v) => Scan::Going(Reading { vals: r.vals.push(v), ops: r.ops, expect: Expect::Op }),
            None => Scan::Rejected,
        },
        Expect::Op => if w.text == "plus"@ {
            Scan::Going(Reading { vals: r.vals, ops: r.ops.push(Op::Add), expect: Expect::Val })
        } else if w.text == "minus"@ {
            Scan::Going(Reading { vals: r.vals, ops: r.ops.push(Op::Minus), expect: Expect::Val })
        } else if w.text == "multiplied"@ {
            Scan::Going(Reading { vals: r.vals, ops: r.ops.push(Op::Mult), expect: Expect::By })
        } else if w.text == "divided"@ {
            Scan::Going(Reading { vals: r.vals, ops: r.ops.push(Op::Div), expect: Expect::By })
        } else if w.text == "raised"@ {
            Scan::Going(Reading { vals: r.vals, ops: r.ops.push(Op::Pow), expect: Expect::Raised })
        } else {
            Scan::Rejected
        },
        Expect::By => if w.text == "by"@ {
            Scan::Going(Reading { vals: r.vals, ops: r.ops, expect: Expect::Val })
        } else {
            Scan::Rejected
        },
        Expect::Raised => if w.text == "to"@ {
            Scan::Going(Reading { vals: r.vals, ops: r.ops, expect: Expect::To })
        } else {
            Scan::Stuck
        },
        Expect::To => if w.text == "the"@ {
            Scan::Going(Reading { vals: r.vals, ops: r.ops, expect: Expect::The })
        } else {
            Scan::Stuck
        },
        Expect::The => if w.text.len() > 0 && digit_of(w.text[0]) is Some {
            Scan::Going(
                Reading {
                    vals: r.vals.push(digit_of(w.text[0])->0),
                    ops: r.ops,
                    expect: Expect::Power,
                },
            )
        } else {
            Scan::Stuck
        },
        Expect::Power => Scan::Going(r),
    }
}

/// The reading before any word.
pub open spec fn blank() -> Reading {
    Reading { vals: Seq::empty(), ops: Seq::empty(), expect: Expect::Val }
}

/// What the reading makes of `words`, first to last.
pub open spec fn scan(words: Seq<TokenView>) -> Scan
    decreases words.len(),
{
    if words.len() == 0 {
        Scan::Going(blank())
    } else {
        match scan(words.drop_last()) {
            Scan::Going(r) => step(r, words.last()),
            other => other,
        }
    }
}

/// The value of the first number with the first `k` operations applied, one
/// after the other, each to the value so far and the next number; `None`
/// where the machine cannot compute one of them.
pub open spec fn chain(vals: Seq<i32>, ops: Seq<Op>, k: int) -> Option<i32>
    decreases k,
{
    if k <= 0 {
        Some(vals[0])
    } else {
        match chain(vals, ops, k - 1) {
            Some(a) => applied(ops[k - 1], a, vals[k]),
            None => None,
        }
    }
}

/// What a finished reading answers: `None` where it cannot be computed, else
/// the answer, which is `None` where the numbers and operations do not
/// alternate.
pub open spec fn finish(r: Reading) -> Option<Option<i32>> {
    if r.vals.len() == 0 {
        None
    } else if r.ops.len() != r.vals.len() - 1 {
        Some(None)
    } else {
        match chain(r.vals, r.ops, r.ops.len() as int) {
            Some(v) => Some(Some(v)),
            None => None,
        }
    }
}

/// What the words of a question answer.
pub open spec fn solved(words: Seq<TokenView>) -> Option<Option<i32>> {
    match scan(words) {
        Scan::Going(r) => finish(r),
        Scan::Rejected => Some(None),
        Scan::Stuck => None,
    }
}

/// What a question asks about: the text between `What is ` and the final
/// `?`, if the question has this form and the text is free of line feeds.
pub open spec fn asked(command: Seq<char>) -> Option<Seq<char>> {
    let n = command.len() as int;
    if n >= 9 && command.take(8) == "What is "@ && command[n - 1] == '?' && !command.subrange(
        8,
        n - 1,
    ).contains('\n') {
        Some(command.subrange(8, n - 1))
    } else {
        None
    }
}

/// What the question `command` answers: `None` where it cannot be computed,
/// else the answer, which is `None` where the question is not understood.
pub open spec fn answered(command: Seq<char>) -> Option<Option<i32>> {
    match asked(command) {
        Some(body) => solved(tokens_of(body)),
        None => Some(None),
    }
}

/// `regex`'s `Regex::new`, `Regex::captures`, `Captures::get` and
/// `Match::as_str`, with the pattern `^What is (.*)\?$`: the first group of
/// the match, if the text matches. The pattern matches a text that begins
/// with `What is ` and ends with `?`, with no line feed between the two, and
/// the group is what stands between them.
#[verifier::external_body]
fn question_body(command: &str) -> (r: Option<Vec<char>>)
    ensures
        match r {
            Some(body) => asked(command@) == Some(body@),
            None => asked(command@) is None,
        },
{
    let re = Regex::new(r"^What is (.*)\?$").ok()?;
    let caps = re.captures(command)?;
    Some(caps.get(1)?.as_str().chars().collect())
}

/// The tokens of the text `body`.
fn read_tokens(body: &Vec<char>) -> (r: Vec<Token>)
    ensures
        token_views(r@) == tokens_of(body@),
{
    let s = crate::text::string_of(body);
    let pieces = split_whitespace(s.as_str());
    let mut r: Vec<Token> = Vec::new();
    let mut i: usize = 0;
    while i < pieces.len()
        invariant
            i <= pieces@.len(),
            r@.len() == i,
            crate::text::texts(pieces@) == whitespace_split(body@),
            forall|k: int|
                0 <= k < i ==> (#[trigger] r@[k])@ == (TokenView {
                    text: pieces@[k]@,
                    number: parsed_i32(pieces@[k]@),
                }),
        decreases pieces@.len() - i,
    {
        let number = parse_i32(&pieces[i]);
        r.push(Token { text: crate::text::copy_chars(&pieces[i]), number });
        i += 1;
    }
    proof {
        assert(crate::text::texts(pieces@).len() == pieces@.len());
        assert forall|k: int| 0 <= k < r@.len() implies token_views(r@)[k] == tokens_of(
            body@,
        )[k] by {
            assert(crate::text::texts(pieces@)[k] == pieces@[k]@);
        }
        assert(token_views(r@) =~= tokens_of(body@));
    }
    r
}

/// The decimal digit that `c` writes, if it writes one.
fn digit(c: char) -> (r: Option<i32>)
    ensures
        r == digit_of(c),
{
    if '0' <= c && c <= '9' {
        Some((c as u32 - '0' as u32) as i32)
    } else {
        None
    }
}

/// Applies `op` to `x` and `y`.
fn apply(op: Op, x: i32, y: i32) -> (r: Option<i32>)
    ensures
        r == applied(op, x, y),
{
    match op {
        Op::Add => self::add(x, y),
        Op::Minus => minus(x, y),
        Op::Mult => mult(x, y),
        Op::Div => div(x, y),
        Op::Pow => self::pow(x, y),
    }
}

/// What the words `words` of a question answer: `None` where it cannot be
/// computed, else the answer, which is `None` where the question is not
/// understood.
pub fn solve(words: &Vec<Token>) -> (r: Option<Option<i32>>)
    ensures
        r == solved(token_views(words@)),
{
    let ghost all = token_views(words@);
    let mut vals: Vec<i32> = Vec::new();
    let mut ops: Vec<Op> = Vec::new();
    let mut expect = Expect::Val;
    let mut i: usize = 0;
    while i < words.len()
        invariant
            i <= words@.len(),
            all == token_views(words@),
            scan(all.take(i as int)) == Scan::Going(
                Reading { vals: vals@, ops: ops@, expect },
            ),
        decreases words@.len() - i,
    {
        let w = &words[i];
        let ghost before = Reading { vals: vals@, ops: ops@, expect };
        proof {
            assert(all.take(i as int + 1).drop_last() =~= all.take(i as int));
            assert(all.take(i as int + 1).last() == w@);
        }
        let mut going = true;
        let mut stuck = false;
        match expect {
            Expect::Val => match w.number {
                Some(v) => {
                    vals.push(v);
                    expect = Expect::Op;
                },
                None => {
                    going = false;
                },
            },
            Expect::Op => {
                if same_text(&w.text, "plus") {
                    ops.push(Op::Add);
                    expect = Expect::Val;
                } else if same_text(&w.text, "minus") {
                    ops.push(Op::Minus);
                    expect = Expect::Val;
                } else if same_text(&w.text, "multiplied") {
                    ops.push(Op::Mult);
                    expect = Expect::By;
                } else if same_text(&w.text, "divided") {
                    ops.push(Op::Div);
                    expect = Expect::By;
                } else if same_text(&w.text, "raised") {
                    ops.push(Op::Pow);
                    expect = Expect::Raised;
                } else {
                    going = false;
                }
            },
            Expect::By => {
                if same_text(&w.text, "by") {
                    expect = Expect::Val;
                } else {
                    going = false;
                }
            },
            Expect::Raised => {
                if same_text(&w.text, "to") {
                    expect = Expect::To;
                } else {
                    going = false;
                    stuck = true;
                }
            },
            Expect::To => {
                if same_text(&w.text, "the") {
                    expect = Expect::The;
                } else {
                    going = false;
                    stuck = true;
                }
            },
            Expect::The => {
                let d = if w.text.len() > 0 {
                    digit(w.text[0])
                } else {
                    None
                };
                match d {
                    Some(v) => {
                        vals.push(v);
                        expect = Expect::Power;
                    },
                    None => {
                        going = false;
                        stuck = true;
                    },
                }
            },
            Expect::Power => {},
        }
        if !going {
            proof {
                let here = step(before, w@);
                assert(scan(all.take(i as int + 1)) == here);
                assert(here == if stuck {
                    Scan::Stuck
                } else {
                    Scan::Rejected
                });
                lemma_scan_stops(all, i as int + 1);
            }
            return if stuck {
                None
            } else {
                Some(None)
            };
        }
        i += 1;
    }
    proof {
        assert(all.take(i as int) =~= all);
    }
    if vals.len() == 0 {
        return None;
    }
    if ops.len() != vals.len() - 1 {
        return Some(None);
    }
    let mut acc = vals[0];
    let mut k: usize = 0;
    while k < ops.len()
        invariant
            k <= ops@.len(),
            ops@.len() == vals@.len() - 1,
            scan(token_views(words@)) == Scan::Going(Reading { vals: vals@, ops: ops@, expect }),
            chain(vals@, ops@, k as int) == Some(acc),
        decreases ops@.len() - k,
    {
        match apply(ops[k], acc, vals[k + 1]) {
            Some(v) => {
                acc = v;
            },
            None => {
                proof {
                    assert(chain(vals@, ops@, k as int + 1) is None);
                    lemma_chain_stops(vals@, ops@, k as int + 1, ops@.len() as int);
                }
                return None;
            },
        }
        k += 1;
    }
    Some(Some(acc))
}

/// The answer to the question `command`, or `None` where the question is
/// not understood.
pub fn answer(command: &str) -> (r: Option<i32>)
    requires
        answered(command@) is Some,
    ensures
        answered(command@) == Some(r),
{
    match question_body(command) {
        Some(body) => {
            let words = read_tokens(&body);
            match solve(&words) {
                Some(r) => r,
                None => {
                    proof {
                        assert(false);
                    }
                    None
                },
            }
        },
        None => None,
    }
}

/// The answer to the question `command` where it can be computed, `None`
/// where it cannot.
pub fn try_answer(command: &str) -> (r: Option<Option<i32>>)
    ensures
        r == answered(command@),
{
    let computable = match question_body(command) {
        Some(body) => {
            let words = read_tokens(&body);
            solve(&words).is_some()
        },
        None => true,
    };
    if computable {
        Some(answer(command))
    } else {
        None
    }
}

/// Once a reading has stopped, further words change nothing.
pub proof fn lemma_scan_stops(words: Seq<TokenView>, n: int)
    requires
        0 <= n <= words.len(),
        !(scan(words.take(n)) is Going),
    ensures
        scan(words) == scan(words.take(n)),
    decreases words.len(),
{
    if n < words.len() {
        assert(words.drop_last().take(n) =~= words.take(n));
        lemma_scan_stops(words.drop_last(), n);
    } else {
        assert(words.take(n) =~= words);
    }
}

/// Once an operation of a chain cannot be computed, the rest cannot either.
pub proof fn lemma_chain_stops(vals: Seq<i32>, ops: Seq<Op>, k: int, n: int)
    requires
        0 < k <= n,
        chain(vals, ops, k) is None,
    ensures
        chain(vals, ops, n) is None,
    decreases n - k,
{
    if k < n {
        lemma_chain_stops(vals, ops, k, n - 1);
    }
}

} // verus!
