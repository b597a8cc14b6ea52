//! A small stack language: numbers are pushed, words work on the stack.

use vstd::prelude::*;
use crate::arith::{divide, quotient};
use crate::text::{
    chars_of, copy_chars, lowercased, parse_i32, parsed_i32, same_text, split_whitespace, to_lowercase,
    whitespace_split,
};

verus! {

/// What the stack holds.
pub type Value = i32;

/// How an evaluation ends.
pub type ForthResult = Result<(), Error>;

/// Why an evaluation stopped.
#[derive(Debug, PartialEq, Eq, Structural)]
pub enum Error {
    DivisionByZero,
    StackUnderflow,
    UnknownWord,
    InvalidWord,
}

/// One piece of input, as the evaluation reads it.
pub struct Word {
    /// The piece as it was written.
    pub raw: Vec<char>,
    /// The piece in lower case.
    pub text: Vec<char>,
    /// The number that the piece writes, if it writes one.
    pub number: Option<Value>,
}

/// A word in the model.
pub struct WordView {
    pub raw: Seq<char>,
    pub text: Seq<char>,
    pub number: Option<Value>,
}

impl View for Word {
    type V = WordView;

    open spec fn view(&self) -> WordView {
        WordView { raw: self.raw@, text: self.text@, number: self.number }
    }
}

/// The models of the words `words`.
pub open spec fn word_views(words: Seq<Word>) -> Seq<WordView> {
    Seq::new(words.len(), |i: int| words[i]@)
}

/// The words that the text `input` is made of.
pub open spec fn words_of(input: Seq<char>) -> Seq<WordView> {
    let pieces = whitespace_split(input);
    Seq::new(
        pieces.len(),
        |i: int|
            WordView {
                raw: pieces[i],
                text: lowercased(pieces[i]),
                number: parsed_i32(pieces[i]),
            },
    )
}

/// Whether `v` fits a stack value.
pub open spec fn fits(v: int) -> bool {
    i32::MIN <= v <= i32::MAX
}

/// Whether `w` can be applied to `stack` at all: it is a word of the
/// language or writes a number, and the arithmetic it asks for stays within
/// the range of a stack value.
pub open spec fn can_apply(stack: Seq<Value>, w: WordView) -> bool {
    let n = stack.len() as int;
    if w.text == "+"@ {
        n >= 2 ==> fits(stack[n - 2] + stack[n - 1])
    } else if w.text == "-"@ {
        n >= 2 ==> fits(stack[n - 2] - stack[n - 1])
    } else if w.text == "*"@ {
        n >= 2 ==> fits(stack[n - 2] * stack[n - 1])
    } else if w.text == "/"@ {
        n >= 2 ==> !(stack[n - 2] == i32::MIN && stack[n - 1] == -1)
    } else if w.text == "dup"@ || w.text == "drop"@ || w.text == "swap"@ || w.text == "over"@ {
        true
    } else {
        w.number is Some
    }
}

/// What applying `w` to `stack` gives: the new stack, or why the word
/// cannot work on this stack.
pub open spec fn apply(stack: Seq<Value>, w: WordView) -> Result<Seq<Value>, Error> {
    let n = stack.len() as int;
    if w.text == "+"@ {
        if n < 2 {
            Err(Error::StackUnderflow)
        } else {
            Ok(stack.take(n - 2).push((stack[n - 2] + stack[n - 1]) as i32))
        }
    } else if w.text == "-"@ {
        if n < 2 {
            Err(Error::StackUnderflow)
        } else {
            Ok(stack.take(n - 2).push((stack[n - 2] - stack[n - 1]) as i32))
        }
    } else if w.text == "*"@ {
        if n < 2 {
            Err(Error::StackUnderflow)
        } else {
            Ok(stack.take(n - 2).push((stack[n - 2] * stack[n - 1]) as i32))
        }
    } else if w.text == "/"@ {
        if n < 2 {
            Err(Error::StackUnderflow)
        } else if stack[n - 1] == 0 {
            Err(Error::DivisionByZero)
        } else {
            Ok(stack.take(n - 2).push(quotient(stack[n - 2] as int, stack[n - 1] as int) as i32))
        }
    } else if w.text == "dup"@ {
        if n == 0 {
            Err(Error::StackUnderflow)
        } else {
            Ok(stack.push(stack[n - 1]))
        }
    } else if w.text == "drop"@ {
        if n == 0 {
            Err(Error::StackUnderflow)
        } else {
            Ok(stack.take(n - 1))
        }
    } else if w.text == "swap"@ {
        if n < 2 {
            Err(Error::StackUnderflow)
        } else {
            Ok(stack.take(n - 2).push(stack[n - 1]).push(stack[n - 2]))
        }
    } else if w.text == "over"@ {
        if n < 2 {
            Err(Error::StackUnderflow)
        } else {
            Ok(stack.push(stack[n - 2]))
        }
    } else {
        Ok(stack.push(w.number->0))
    }
}

/// Where an evaluation stands: the stack, and the error if it has stopped.
pub struct Outcome {
    pub stack: Seq<Value>,
    pub error: Option<Error>,
}

/// What evaluating `words` from `stack` on gives, first word to last; at the
/// first word that cannot work the evaluation stops with the stack as it
/// then is.
pub open spec fn run(stack: Seq<Value>, words: Seq<WordView>) -> Outcome
    decreases words.len(),
{
    if words.len() == 0 {
        Outcome { stack, error: None }
    } else {
        let before = run(stack, words.drop_last());
        if before.error is Some {
            before
        } else {
            match apply(before.stack, words.last()) {
                Ok(next) => Outcome { stack: next, error: None },
                Err(e) => Outcome { stack: before.stack, error: Some(e) },
            }
        }
    }
}

/// Whether every word that the evaluation of `words` reaches can be applied.
pub open spec fn can_run(stack: Seq<Value>, words: Seq<WordView>) -> bool
    decreases words.len(),
{
    if words.len() == 0 {
        true
    } else {
        let before = run(stack, words.drop_last());
        &&& can_run(stack, words.drop_last())
        &&& before.error is None ==> can_apply(before.stack, words.last())
    }
}

/// The texts `pieces` joined, with one space between neighbours.
pub open spec fn joined(pieces: Seq<Seq<char>>) -> Seq<char>
    decreases pieces.len(),
{
    if pieces.len() == 0 {
        Seq::empty()
    } else if pieces.len() == 1 {
        pieces[0]
    } else {
        joined(pieces.drop_last()) + seq![' '] + pieces.last()
    }
}

/// The definitions `entries` as a map from name to body; a later definition
/// of a name replaces an earlier one.
pub open spec fn definitions(entries: Seq<(Vec<char>, Vec<char>)>) -> Map<Seq<char>, Seq<char>>
    decreases entries.len(),
{
    if entries.len() == 0 {
        Map::empty()
    } else {
        definitions(entries.drop_last()).insert(entries.last().0@, entries.last().1@)
    }
}

/// Whether the text `input` opens a definition.
pub open spec fn opens_definition(input: Seq<char>) -> bool {
    input.len() > 0 && input[0] == ':'
}

/// Whether the text `input` closes a definition.
pub open spec fn closes_definition(input: Seq<char>) -> bool {
    input.len() > 0 && input.last() == ';'
}

/// The raw texts of `words`.
pub open spec fn raws(words: Seq<WordView>) -> Seq<Seq<char>> {
    Seq::new(words.len(), |i: int| words[i].raw)
}

/// An interpreter: its stack and the words defined so far.
pub struct Forth {
    stack: Vec<Value>,
    env: Vec<(Vec<char>, Vec<char>)>,
}

impl Forth {
    /// The stack, bottom first.
    pub closed spec fn stack_view(&self) -> Seq<Value> {
        self.stack@
    }

    /// The definitions made so far, name to body.
    pub closed spec fn defined(&self) -> Map<Seq<char>, Seq<char>> {
        definitions(self.env@)
    }

    /// An interpreter with an empty stack and no definitions.
    pub fn new() -> (f: Forth)
        ensures
            f.stack_view() == Seq::<Value>::empty(),
            f.defined() == Map::<Seq<char>, Seq<char>>::empty(),
    {
        Forth { stack: Vec::new(), env: Vec::new() }
    }

    /// A copy of the stack, bottom first.
    pub fn stack(&self) -> (s: Vec<Value>)
        ensures
            s@ == self.stack_view(),
    {
        self.stack.clone()
    }

    /// Applies one word to the stack, if it can be applied at all.
    fn apply_word(&mut self, w: &Word) -> (r: Option<ForthResult>)
        ensures
            final(self).env == old(self).env,
            match r {
                Some(Ok(())) => can_apply(old(self).stack_view(), w@) && apply(
                    old(self).stack_view(),
                    w@,
                ) == Ok::<Seq<Value>, Error>(final(self).stack_view()),
                Some(Err(e)) => can_apply(old(self).stack_view(), w@) && apply(
                    old(self).stack_view(),
                    w@,
                ) == Err::<Seq<Value>, Error>(e) && final(self).stack_view() == old(self).stack_view(),
                None => {
                    &&& !can_apply(old(self).stack_view(), w@)
                    &&& final(self).stack_view() == old(self).stack_view()
                },
            },
    {
        let n = self.stack.len();
        if same_text(&w.text, "+") {
            if n < 2 {
                return Some(Err(Error::StackUnderflow));
            }
            match self.stack[n - 2].checked_add(self.stack[n - 1]) {
                Some(z) => {
                    self.stack.pop();
                    self.stack.pop();
                    self.stack.push(z);
                    proof {
                        assert(self.stack@ =~= old(self).stack@.take(n - 2).push(z));
                    }
                },
                None => {
                    return None;
                },
            }
        } else if same_text(&w.text, "-") {
            if n < 2 {
                return Some(Err(Error::StackUnderflow));
            }
            match self.stack[n - 2].checked_sub(self.stack[n - 1]) {
                Some(z) => {
                    self.stack.pop();
                    self.stack.pop();
                    self.stack.push(z);
                    proof {
                        assert(self.stack@ =~= old(self).stack@.take(n - 2).push(z));
                    }
                },
                None => {
                    return None;
                },
            }
        } else if same_text(&w.text, "*") {
            if n < 2 {
                return Some(Err(Error::StackUnderflow));
            }
            match self.stack[n - 2].checked_mul(self.stack[n - 1]) {
                Some(z) => {
                    self.stack.pop();
                    self.stack.pop();
                    self.stack.push(z);
                    proof {
                        assert(self.stack@ =~= old(self).stack@.take(n - 2).push(z));
                    }
                },
                None => {
                    return None;
                },
            }
        } else if same_text(&w.text, "/") {
            if n < 2 {
                return Some(Err(Error::StackUnderflow));
            }
            if self.stack[n - 1] == 0 {
                return Some(Err(Error::DivisionByZero));
            }
            if self.stack[n - 2] == i32::MIN && self.stack[n - 1] == -1 {
                return None;
            }
            let z = divide(self.stack[n - 2], self.stack[n - 1]);
            self.stack.pop();
            self.stack.pop();
            self.stack.push(z);
            proof {
                assert(self.stack@ =~= old(self).stack@.take(n - 2).push(z));
            }
        } else if same_text(&w.text, "dup") {
            if n == 0 {
                return Some(Err(Error::StackUnderflow));
            }
            let top = self.stack[n - 1];
            self.stack.push(top);
        } else if same_text(&w.text, "drop") {
            if n == 0 {
                return Some(Err(Error::StackUnderflow));
            }
            self.stack.pop();
            proof {
                assert(self.stack@ =~= old(self).stack@.take(n - 1));
            }
        } else if same_text(&w.text, "swap") {
            if n < 2 {
                return Some(Err(Error::StackUnderflow));
            }
            let b = self.stack.pop().unwrap();
            let a = self.stack.pop().unwrap();
            self.stack.push(b);
            self.stack.push(a);
            proof {
                assert(self.stack@ =~= old(self).stack@.take(n - 2).push(b).push(a));
            }
        } else if same_text(&w.text, "over") {
            if n < 2 {
                return Some(Err(Error::StackUnderflow));
            }
            let under = self.stack[n - 2];
            self.stack.push(under);
        } else {
            match w.number {
                Some(v) => {
                    self.stack.push(v);
                },
                None => {
                    return None;
                },
            }
        }
        Some(Ok(()))
    }

    /// Whether `words` can be evaluated from the present stack on.
    pub fn can_eval_words(&self, words: &Vec<Word>) -> (ok: bool)
        ensures
            ok == can_run(self.stack_view(), word_views(words@)),
    {
        let ghost all = word_views(words@);
        let ghost start = self.stack@;
        let mut scratch = Forth { stack: self.stack.clone(), env: Vec::new() };
        proof {
            assert(scratch.stack@ =~= start);
        }
        let mut i: usize = 0;
        while i < words.len()
            invariant
                i <= words@.len(),
                all == word_views(words@),
                start == self.stack@,
                can_run(start, all.take(i as int)),
                run(start, all.take(i as int)).error is None,
                scratch.stack@ == run(start, all.take(i as int)).stack,
            decreases words@.len() - i,
        {
            proof {
                assert(all.take(i as int + 1).drop_last() =~= all.take(i as int));
                assert(all.take(i as int + 1).last() == words@[i as int]@);
            }
            match scratch.apply_word(&words[i]) {
                Some(Ok(())) => {},
                Some(Err(_)) => {
                    proof {
                        assert(can_run(start, all.take(i as int + 1)));
                        lemma_can_run_after_stop(start, all, i as int + 1);
                    }
                    return true;
                },
                None => {
                    proof {
                        assert(!can_run(start, all.take(i as int + 1)));
                        if can_run(start, all) {
                            lemma_can_run_prefix(start, all, i as int + 1);
                        }
                    }
                    return false;
                },
            }
            i += 1;
        }
        proof {
            assert(all.take(i as int) =~= all);
        }
        true
    }

    /// Evaluates `words`, first to last, and stops at the first word that
    /// cannot work on the stack as it then is.
    pub fn eval_words(&mut self, words: &Vec<Word>) -> (r: ForthResult)
        requires
            can_run(old(self).stack_view(), word_views(words@)),
        ensures
            final(self).defined() == old(self).defined(),
            final(self).stack_view() == run(old(self).stack_view(), word_views(words@)).stack,
            match r {
                Ok(()) => run(old(self).stack_view(), word_views(words@)).error is None,
                Err(e) => run(old(self).stack_view(), word_views(words@)).error == Some(e),
            },
    {
        let ghost all = word_views(words@);
        let ghost start = self.stack@;
        let mut i: usize = 0;
        while i < words.len()
            invariant
                i <= words@.len(),
                all == word_views(words@),
                start == old(self).stack@,
                can_run(start, all),
                self.env == old(self).env,
                run(start, all.take(i as int)).error is None,
                self.stack@ == run(start, all.take(i as int)).stack,
            decreases words@.len() - i,
        {
            proof {
                lemma_can_run_prefix(start, all, i as int + 1);
                assert(all.take(i as int + 1).drop_last() =~= all.take(i as int));
                assert(all.take(i as int + 1).last() == words@[i as int]@);
            }
            match self.apply_word(&words[i]) {
                Some(Ok(())) => {},
                Some(Err(e)) => {
                    proof {
                        assert(run(start, all.take(i as int + 1)).error == Some(e));
                        assert(run(start, all.take(i as int + 1)).stack == self.stack@);
                        lemma_run_stops(start, all, i as int + 1);
                    }
                    return Err(e);
                },
                None => {
                    proof {
                        assert(false);
                    }
                },
            }
            i += 1;
        }
        proof {
            assert(all.take(i as int) =~= all);
        }
        Ok(())
    }

    /// Evaluates the text `input`. A text that begins with `:` is a
    /// definition: it must end with `;`, its second word is the name and the
    /// words between the name and the last word are the body; the body is
    /// evaluated, and if that succeeds it is recorded under the name in lower
    /// case. Any other text is evaluated word by word.
    pub fn eval(&mut self, input: &str) -> (r: ForthResult)
        requires
            can_eval(old(self).stack_view(), input@),
        ensures
            evaluated(
                old(self).stack_view(),
                old(self).defined(),
                input@,
                final(self).stack_view(),
                final(self).defined(),
                r,
            ),
    {
        let chars = chars_of(input);
        let opens = chars.len() > 0 && chars[0] == ':';
        let closes = chars.len() > 0 && chars[chars.len() - 1] == ';';
        if opens && !closes {
            return Err(Error::InvalidWord);
        }
        let words = read_words(input);
        if opens {
            let body = body_of(&words);
            let pieces = raws_of(&body);
            let r = self.eval_words(&body);
            if r.is_ok() {
                let text = join(&pieces);
                let ghost before = self.env@;
                self.env.push((copy_chars(&words[1].text), text));
                proof {
                    assert(self.env@.drop_last() =~= before);
                }
            }
            r
        } else {
            self.eval_words(&words)
        }
    }
}

/// What evaluating the text `input` makes of a stack and of the definitions:
/// the new stack, the new definitions and the result.
pub open spec fn evaluated(
    stack: Seq<Value>,
    defined: Map<Seq<char>, Seq<char>>,
    input: Seq<char>,
    new_stack: Seq<Value>,
    new_defined: Map<Seq<char>, Seq<char>>,
    r: ForthResult,
) -> bool {
    if opens_definition(input) && !closes_definition(input) {
        &&& r == Err::<(), Error>(Error::InvalidWord)
        &&& new_stack == stack
        &&& new_defined == defined
    } else if opens_definition(input) {
        let words = words_of(input);
        let body = words.subrange(2, words.len() - 1);
        let outcome = run(stack, body);
        &&& new_stack == outcome.stack
        &&& match r {
            Ok(()) => outcome.error is None && new_defined == defined.insert(
                words[1].text,
                joined(raws(body)),
            ),
            Err(e) => outcome.error == Some(e) && new_defined == defined,
        }
    } else {
        let outcome = run(stack, words_of(input));
        &&& new_stack == outcome.stack
        &&& new_defined == defined
        &&& match r {
            Ok(()) => outcome.error is None,
            Err(e) => outcome.error == Some(e),
        }
    }
}

/// Whether `stack` and `input` are such that the evaluation of `input` asks
/// for no word that cannot be applied.
pub open spec fn can_eval(stack: Seq<Value>, input: Seq<char>) -> bool {
    &&& opens_definition(input) && closes_definition(input) ==> words_of(input).len() >= 3
        && can_run(stack, words_of(input).subrange(2, words_of(input).len() - 1))
    &&& !opens_definition(input) ==> can_run(stack, words_of(input))
}

impl Forth {
    /// Evaluates the text `input` if every word that the evaluation reaches
    /// can be applied; if not, nothing changes and the answer is `None`.
    pub fn try_eval(&mut self, input: &str) -> (r: Option<ForthResult>)
        ensures
            r is None <==> !can_eval(old(self).stack_view(), input@),
            r is None ==> {
                &&& final(self).stack_view() == old(self).stack_view()
                &&& final(self).defined() == old(self).defined()
            },
            r is Some ==> evaluated(
                old(self).stack_view(),
                old(self).defined(),
                input@,
                final(self).stack_view(),
                final(self).defined(),
                r->0,
            ),
    {
        let chars = chars_of(input);
        let opens = chars.len() > 0 && chars[0] == ':';
        let closes = chars.len() > 0 && chars[chars.len() - 1] == ';';
        if opens && !closes {
            return Some(self.eval(input));
        }
        let words = read_words(input);
        let ok = if opens {
            if words.len() < 3 {
                false
            } else {
                let body = body_of(&words);
                self.can_eval_words(&body)
            }
        } else {
            self.can_eval_words(&words)
        };
        if ok {
            Some(self.eval(input))
        } else {
            None
        }
    }
}

/// The words of a definition between its name and its last word.
fn body_of(words: &Vec<Word>) -> (body: Vec<Word>)
    requires
        words@.len() >= 3,
    ensures
        word_views(body@) == word_views(words@).subrange(2, words@.len() - 1),
{
    let n = words.len();
    let mut body: Vec<Word> = Vec::new();
    let mut i: usize = 2;
    while i < n - 1
        invariant
            n == words@.len(),
            n >= 3,
            2 <= i <= n - 1,
            body@.len() == i - 2,
            word_views(body@) == word_views(words@).subrange(2, i as int),
        decreases n - i,
    {
        let w = &words[i];
        body.push(Word { raw: copy_chars(&w.raw), text: copy_chars(&w.text), number: w.number });
        i += 1;
        proof {
            let sub = word_views(words@).subrange(2, i as int);
            assert(sub.last() == words@[i - 1]@);
            assert(word_views(body@) =~= sub);
        }
    }
    body
}

/// The raw texts of `words`.
fn raws_of(words: &Vec<Word>) -> (pieces: Vec<Vec<char>>)
    ensures
        crate::text::texts(pieces@) == raws(word_views(words@)),
{
    let mut pieces: Vec<Vec<char>> = Vec::new();
    let mut i: usize = 0;
    while i < words.len()
        invariant
            i <= words@.len(),
            pieces@.len() == i,
            forall|k: int| 0 <= k < i ==> (#[trigger] pieces@[k])@ == words@[k].raw@,
        decreases words@.len() - i,
    {
        pieces.push(copy_chars(&words[i].raw));
        i += 1;
    }
    proof {
        assert(crate::text::texts(pieces@) =~= raws(word_views(words@)));
    }
    pieces
}

/// The words of the text `input`.
fn read_words(input: &str) -> (r: Vec<Word>)
    ensures
        word_views(r@) == words_of(input@),
{
    let pieces = split_whitespace(input);
    let mut r: Vec<Word> = Vec::new();
    let mut i: usize = 0;
    while i < pieces.len()
        invariant
            i <= pieces@.len(),
            r@.len() == i,
            crate::text::texts(pieces@) == whitespace_split(input@),
            word_views(r@) == words_of(input@).take(i as int),
        decreases pieces@.len() - i,
    {
        let raw = copy_chars(&pieces[i]);
        let text = to_lowercase(&pieces[i]);
        let number = parse_i32(&pieces[i]);
        proof {
            assert(crate::text::texts(pieces@)[i as int] == pieces@[i as int]@);
        }
        let ghost before = r@;
        r.push(Word { raw, text, number });
        i += 1;
        proof {
            let target = words_of(input@).take(i as int);
            assert(crate::text::texts(pieces@).len() == pieces@.len());
            assert(words_of(input@).len() == pieces@.len());
            assert(target.len() == i);
            assert forall|k: int| 0 <= k < r@.len() implies word_views(r@)[k] == target[k] by {
                if k < r@.len() - 1 {
                    assert(word_views(before)[k] == words_of(input@).take(i - 1)[k]);
                }
            }
            assert(word_views(r@) =~= target);
        }
    }
    proof {
        assert(crate::text::texts(pieces@).len() == pieces@.len());
        assert(words_of(input@).take(i as int) =~= words_of(input@));
    }
    r
}

/// The texts `pieces` joined, with one space between neighbours.
fn join(pieces: &Vec<Vec<char>>) -> (r: Vec<char>)
    ensures
        r@ == joined(crate::text::texts(pieces@)),
{
    let ghost all = crate::text::texts(pieces@);
    let mut r: Vec<char> = Vec::new();
    let mut i: usize = 0;
    while i < pieces.len()
        invariant
            i <= pieces@.len(),
            all == crate::text::texts(pieces@),
            r@ == joined(all.take(i as int)),
        decreases pieces@.len() - i,
    {
        if i > 0 {
            r.push(' ');
        }
        let piece = &pieces[i];
        let ghost before = r@;
        let mut k: usize = 0;
        while k < piece.len()
            invariant
                k <= piece@.len(),
                r@ == before + piece@.take(k as int),
            decreases piece@.len() - k,
        {
            r.push(piece[k]);
            k += 1;
            proof {
                assert(r@ =~= before + piece@.take(k as int));
            }
        }
        proof {
            assert(piece@.take(k as int) =~= piece@);
            let longer = all.take(i as int + 1);
            assert(longer.drop_last() =~= all.take(i as int));
            assert(longer.last() == piece@);
            if i == 0 {
                assert(r@ =~= piece@);
            } else {
                assert(r@ =~= joined(all.take(i as int)) + seq![' '] + piece@);
            }
        }
        i += 1;
    }
    proof {
        assert(all.take(i as int) =~= all);
    }
    r
}

/// Words that can be evaluated can be evaluated up to any point.
pub proof fn lemma_can_run_prefix(stack: Seq<Value>, words: Seq<WordView>, n: int)
    requires
        can_run(stack, words),
        0 <= n <= words.len(),
    ensures
        can_run(stack, words.take(n)),
    decreases words.len(),
{
    if n < words.len() {
        lemma_can_run_prefix(stack, words.drop_last(), n);
        assert(words.drop_last().take(n) =~= words.take(n));
    } else {
        assert(words.take(n) =~= words);
    }
}

/// Words that can be evaluated up to a point where the evaluation stops can
/// be evaluated altogether: no further word is reached.
pub proof fn lemma_can_run_after_stop(stack: Seq<Value>, words: Seq<WordView>, n: int)
    requires
        0 <= n <= words.len(),
        can_run(stack, words.take(n)),
        run(stack, words.take(n)).error is Some,
    ensures
        can_run(stack, words),
    decreases words.len(),
{
    if n < words.len() {
        assert(words.drop_last().take(n) =~= words.take(n));
        lemma_can_run_after_stop(stack, words.drop_last(), n);
        lemma_run_stops(stack, words.drop_last(), n);
    } else {
        assert(words.take(n) =~= words);
    }
}

/// Once an evaluation has stopped, further words change nothing.
pub proof fn lemma_run_stops(stack: Seq<Value>, words: Seq<WordView>, n: int)
    requires
        0 <= n <= words.len(),
        run(stack, words.take(n)).error is Some,
    ensures
        run(stack, words) == run(stack, words.take(n)),
    decreases words.len(),
{
    if n < words.len() {
        assert(words.drop_last().take(n) =~= words.take(n));
        lemma_run_stops(stack, words.drop_last(), n);
    } else {
        assert(words.take(n) =~= words);
    }
}

} // verus!
