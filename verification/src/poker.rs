//! Ranking poker hands and picking the winners.

use itertools::Itertools;
use regex::Regex;
use std::collections::HashMap;
use vstd::prelude::*;
use vstd::std_specs::hash::*;
use crate::text::{same_text, split_whitespace, whitespace_split};

verus! {

broadcast use vstd::std_specs::hash::group_hash_axioms;

/// What a hand is worth, from the least kind of hand to the best; within a
/// kind the ranks decide, first to last.
#[derive(Debug, Clone, Copy, PartialEq, Eq, Structural)]
pub enum Poker {
    HighSeven(u8, u8, u8, u8, u8),
    Pair(u8),
    TwoPairs(u8, u8, u8),
    ThreeOfAKind(u8, u8, u8),
    Straight(u8),
    Flush(u8),
    FullHouse(u8, u8),
    FourOfAKind(u8, u8),
    StraightFlush(u8),
}

/// The suit of a card.
#[derive(Debug, PartialEq, Eq, Structural, Clone, Copy)]
pub enum Suit {
    Heart,
    Diamond,
    Club,
    Spade,
}

/// A card.
#[derive(Debug, Clone, Copy)]
pub struct Card {
    pub rank: u8,
    pub suit: Suit,
}

/// How often `x` occurs in `s`.
pub open spec fn count(s: Seq<u8>, x: u8) -> nat
    decreases s.len(),
{
    if s.len() == 0 {
        0
    } else {
        count(s.drop_last(), x) + if s.last() == x {
            1nat
        } else {
            0nat
        }
    }
}

/// The ranks `s` fall from first to last.
pub open spec fn descending(s: Seq<u8>) -> bool {
    forall|i: int, j: int| 0 <= i < j < s.len() ==> s[i] >= s[j]
}

/// The suits `s` are all the same.
pub open spec fn flush(s: Seq<Suit>) -> bool {
    forall|i: int, j: int| 0 <= i < s.len() && 0 <= j < s.len() ==> s[i] == s[j]
}

/// The top rank of the straight that the falling ranks `r` form, if they form
/// one; the straight from five down to the ace counts as topped by 1.
pub open spec fn straight_high(r: Seq<u8>) -> Option<u8> {
    if r.len() == 5 && 6 <= r[0] <= 14 && r[1] == r[0] - 1 && r[2] == r[0] - 2 && r[3] == r[0] - 3
        && r[4] == r[0] - 4 {
        Some(r[0])
    } else if r == seq![14u8, 5u8, 4u8, 3u8, 2u8] {
        Some(1u8)
    } else {
        None
    }
}

/// Position `i` of `r` is where its rank stands first.
pub open spec fn first_here(r: Seq<u8>, i: int) -> bool {
    i == 0 || r[i - 1] != r[i]
}

/// The ranks that occur exactly `t` times in `r`, each once, in the order in
/// which they stand first among the first `n` positions of `r`.
pub open spec fn with_upto(r: Seq<u8>, t: nat, n: int) -> Seq<u8>
    decreases n,
{
    if n <= 0 {
        Seq::empty()
    } else {
        let before = with_upto(r, t, n - 1);
        if first_here(r, n - 1) && count(r, r[n - 1]) == t {
            before.push(r[n - 1])
        } else {
            before
        }
    }
}

/// The ranks that occur exactly `t` times in `r`, each once, in the order of
/// `r`.
pub open spec fn with(r: Seq<u8>, t: nat) -> Seq<u8> {
    with_upto(r, t, r.len() as int)
}

/// `r` has `n1` ranks that occur `t1` times and `n2` that occur `t2` times.
pub open spec fn has_shape(r: Seq<u8>, t1: nat, n1: nat, t2: nat, n2: nat) -> bool {
    with(r, t1).len() == n1 && with(r, t2).len() == n2
}

/// What a hand with the falling ranks `r` and the suits `suits` is worth;
/// `None` for a hand that has no worth: one of more than 255 cards, a flush
/// of no card, or one of fewer than five cards that is of no kind.
pub open spec fn score_of(r: Seq<u8>, suits: Seq<Suit>) -> Option<Poker> {
    if r.len() > 255 {
        None
    } else if flush(suits) && straight_high(r) is Some {
        Some(Poker::StraightFlush(straight_high(r)->0))
    } else if has_shape(r, 4, 1, 1, 1) {
        Some(Poker::FourOfAKind(with(r, 4)[0], with(r, 1)[0]))
    } else if has_shape(r, 3, 1, 2, 1) {
        Some(Poker::FullHouse(with(r, 3)[0], with(r, 2)[0]))
    } else if flush(suits) {
        if r.len() > 0 {
            Some(Poker::Flush(r[0]))
        } else {
            None
        }
    } else if straight_high(r) is Some {
        Some(Poker::Straight(straight_high(r)->0))
    } else if has_shape(r, 3, 1, 1, 2) {
        Some(Poker::ThreeOfAKind(with(r, 3)[0], with(r, 1)[0], with(r, 1)[1]))
    } else if has_shape(r, 2, 2, 1, 1) {
        Some(Poker::TwoPairs(with(r, 2)[0], with(r, 2)[1], with(r, 1)[0]))
    } else if has_shape(r, 2, 1, 1, 3) {
        Some(Poker::Pair(with(r, 2)[0]))
    } else if r.len() >= 5 {
        Some(Poker::HighSeven(r[0], r[1], r[2], r[3], r[4]))
    } else {
        None
    }
}

/// The kind of a score and its ranks, as six numbers that compare like the
/// scores do.
pub open spec fn key_of(p: Poker) -> (u8, u8, u8, u8, u8, u8) {
    match p {
        Poker::HighSeven(a, b, c, d, e) => (0, a, b, c, d, e),
        Poker::Pair(a) => (1, a, 0, 0, 0, 0),
        Poker::TwoPairs(a, b, c) => (2, a, b, c, 0, 0),
        Poker::ThreeOfAKind(a, b, c) => (3, a, b, c, 0, 0),
        Poker::Straight(a) => (4, a, 0, 0, 0, 0),
        Poker::Flush(a) => (5, a, 0, 0, 0, 0),
        Poker::FullHouse(a, b) => (6, a, b, 0, 0, 0),
        Poker::FourOfAKind(a, b) => (7, a, b, 0, 0, 0),
        Poker::StraightFlush(a) => (8, a, 0, 0, 0, 0),
    }
}

/// `a` comes before `b`, number by number.
pub open spec fn key_less(a: (u8, u8, u8, u8, u8, u8), b: (u8, u8, u8, u8, u8, u8)) -> bool {
    a.0 < b.0 || (a.0 == b.0 && (a.1 < b.1 || (a.1 == b.1 && (a.2 < b.2 || (a.2 == b.2 && (a.3
        < b.3 || (a.3 == b.3 && (a.4 < b.4 || (a.4 == b.4 && a.5 < b.5)))))))))
}

/// The score `a` is worth less than the score `b`.
pub open spec fn worth_less(a: Poker, b: Poker) -> bool {
    key_less(key_of(a), key_of(b))
}

fn key(p: &Poker) -> (k: (u8, u8, u8, u8, u8, u8))
    ensures
        k == key_of(*p),
{
    match *p {
        Poker::HighSeven(a, b, c, d, e) => (0, a, b, c, d, e),
        Poker::Pair(a) => (1, a, 0, 0, 0, 0),
        Poker::TwoPairs(a, b, c) => (2, a, b, c, 0, 0),
        Poker::ThreeOfAKind(a, b, c) => (3, a, b, c, 0, 0),
        Poker::Straight(a) => (4, a, 0, 0, 0, 0),
        Poker::Flush(a) => (5, a, 0, 0, 0, 0),
        Poker::FullHouse(a, b) => (6, a, b, 0, 0, 0),
        Poker::FourOfAKind(a, b) => (7, a, b, 0, 0, 0),
        Poker::StraightFlush(a) => (8, a, 0, 0, 0, 0),
    }
}

/// Whether the score `a` is worth less than the score `b`.
pub fn less(a: &Poker, b: &Poker) -> (r: bool)
    ensures
        r == worth_less(*a, *b),
{
    let x = key(a);
    let y = key(b);
    x.0 < y.0 || (x.0 == y.0 && (x.1 < y.1 || (x.1 == y.1 && (x.2 < y.2 || (x.2 == y.2 && (x.3
        < y.3 || (x.3 == y.3 && (x.4 < y.4 || (x.4 == y.4 && x.5 < y.5)))))))))
}

/// How often each value occurs in `vs`.
fn frequencies(vs: &[u8]) -> (r: HashMap<u8, u8>)
    requires
        vs@.len() <= 255,
    ensures
        forall|k: u8| #[trigger] r@.contains_key(k) <==> count(vs@, k) > 0,
        forall|k: u8| r@.contains_key(k) ==> #[trigger] r@[k] == count(vs@, k),
{
    let mut acc: HashMap<u8, u8> = HashMap::new();
    let mut i: usize = 0;
    while i < vs.len()
        invariant
            i <= vs@.len(),
            vs@.len() <= 255,
            forall|k: u8| #[trigger] acc@.contains_key(k) <==> count(vs@.take(i as int), k) > 0,
            forall|k: u8| acc@.contains_key(k) ==> #[trigger] acc@[k] == count(vs@.take(i as int), k),
        decreases vs@.len() - i,
    {
        let value = vs[i];
        proof {
            assert(vs@.take(i as int + 1).drop_last() =~= vs@.take(i as int));
            assert(vs@.take(i as int + 1).last() == value);
            lemma_count_bounded(vs@.take(i as int), value);
        }
        let seen = match acc.get(&value) {
            Some(c) => *c,
            None => 0,
        };
        acc.insert(value, seen + 1);
        i += 1;
    }
    proof {
        assert(vs@.take(i as int) =~= vs@);
    }
    acc
}

/// No value occurs more often than there are values.
pub proof fn lemma_count_bounded(s: Seq<u8>, x: u8)
    ensures
        count(s, x) <= s.len(),
    decreases s.len(),
{
    if s.len() > 0 {
        lemma_count_bounded(s.drop_last(), x);
    }
}

/// `std`'s `slice::sort_by_key` with the key `Reverse`: `v` afterwards holds
/// what it held, in falling order.
#[verifier::external_body]
fn sort_descending(v: &mut Vec<u8>)
    ensures
        descending(final(v)@),
        final(v)@.to_multiset() == old(v)@.to_multiset(),
{
    v.sort_by_key(|&x| std::cmp::Reverse(x));
}

/// `itertools`' `Itertools::all_equal`: whether all of `suits` are equal; of
/// no suits at all that is true.
#[verifier::external_body]
fn all_equal(suits: &Vec<Suit>) -> (r: bool)
    ensures
        r == flush(suits@),
{
    suits.iter().all_equal()
}

fn is_straight(ranks: &[u8]) -> (r: Option<u8>)
    ensures
        r == straight_high(ranks@),
{
    if ranks.len() == 5 {
        let top = ranks[0];
        if 6 <= top && top <= 14 && ranks[1] == top - 1 && ranks[2] == top - 2 && ranks[3] == top
            - 3 && ranks[4] == top - 4 {
            return Some(top);
        }
        if top == 14 && ranks[1] == 5 && ranks[2] == 4 && ranks[3] == 3 && ranks[4] == 2 {
            proof {
                assert(ranks@ =~= seq![14u8, 5u8, 4u8, 3u8, 2u8]);
            }
            return Some(1);
        }
    }
    proof {
        if ranks@ == seq![14u8, 5u8, 4u8, 3u8, 2u8] {
            assert(ranks@.len() == 5);
            assert(ranks@[0] == 14u8 && ranks@[1] == 5u8 && ranks@[2] == 4u8 && ranks@[3] == 3u8
                && ranks@[4] == 2u8);
        }
    }
    None
}

fn is_flush(suits: &Vec<Suit>) -> (r: bool)
    ensures
        r == flush(suits@),
{
    all_equal(suits)
}

fn is_straight_flush(ranks: &[u8], suits: &Vec<Suit>) -> (r: Option<u8>)
    ensures
        r == if flush(suits@) {
            straight_high(ranks@)
        } else {
            None
        },
{
    if is_flush(suits) {
        is_straight(ranks)
    } else {
        None
    }
}

/// The ranks that occur exactly `t` times in `ranks`, each once, in the
/// order of `ranks`.
fn ranks_with(ranks: &Vec<u8>, freqs: &HashMap<u8, u8>, t: u8) -> (r: Vec<u8>)
    requires
        ranks@.len() <= 255,
        t > 0,
        forall|k: u8| #[trigger] freqs@.contains_key(k) <==> count(ranks@, k) > 0,
        forall|k: u8| freqs@.contains_key(k) ==> #[trigger] freqs@[k] == count(ranks@, k),
    ensures
        r@ == with(ranks@, t as nat),
{
    let mut r: Vec<u8> = Vec::new();
    let mut i: usize = 0;
    while i < ranks.len()
        invariant
            i <= ranks@.len(),
            t > 0,
            forall|k: u8| #[trigger] freqs@.contains_key(k) <==> count(ranks@, k) > 0,
            forall|k: u8| freqs@.contains_key(k) ==> #[trigger] freqs@[k] == count(ranks@, k),
            r@ == with_upto(ranks@, t as nat, i as int),
        decreases ranks@.len() - i,
    {
        let rank = ranks[i];
        if i == 0 || ranks[i - 1] != rank {
            let c = match freqs.get(&rank) {
                Some(c) => *c,
                None => 0,
            };
            if c == t {
                r.push(rank);
            }
        }
        i += 1;
    }
    r
}

impl Poker {
    /// What the hand of `cards` is worth, if it has a worth.
    pub fn new(cards: &[Card]) -> (p: Option<Poker>)
        ensures
            p == score_of(sorted_desc(ranks_of(cards@)), suits_of(cards@)),
    {
        if cards.len() > 255 {
            proof {
                lemma_sorted_desc(ranks_of(cards@));
                ranks_of(cards@).to_multiset_ensures();
                sorted_desc(ranks_of(cards@)).to_multiset_ensures();
            }
            return None;
        }
        let mut ranks: Vec<u8> = Vec::new();
        let mut suits: Vec<Suit> = Vec::new();
        let mut i: usize = 0;
        while i < cards.len()
            invariant
                i <= cards@.len(),
                ranks@ == ranks_of(cards@).take(i as int),
                suits@ == suits_of(cards@).take(i as int),
            decreases cards@.len() - i,
        {
            ranks.push(cards[i].rank);
            suits.push(cards[i].suit);
            i += 1;
            proof {
                assert(ranks@ =~= ranks_of(cards@).take(i as int));
                assert(suits@ =~= suits_of(cards@).take(i as int));
            }
        }
        proof {
            assert(ranks_of(cards@).take(i as int) =~= ranks_of(cards@));
            assert(suits_of(cards@).take(i as int) =~= suits_of(cards@));
        }
        let ghost unsorted = ranks@;
        sort_descending(&mut ranks);
        proof {
            lemma_sorted_is_sorted_desc(ranks@, unsorted);
            unsorted.to_multiset_ensures();
            ranks@.to_multiset_ensures();
        }
        let freqs = frequencies(ranks.as_slice());
        let fours = ranks_with(&ranks, &freqs, 4);
        let threes = ranks_with(&ranks, &freqs, 3);
        let twos = ranks_with(&ranks, &freqs, 2);
        let ones = ranks_with(&ranks, &freqs, 1);
        if let Some(high) = is_straight_flush(ranks.as_slice(), &suits) {
            Some(Poker::StraightFlush(high))
        } else if fours.len() == 1 && ones.len() == 1 {
            Some(Poker::FourOfAKind(fours[0], ones[0]))
        } else if threes.len() == 1 && twos.len() == 1 {
            Some(Poker::FullHouse(threes[0], twos[0]))
        } else if is_flush(&suits) {
            if ranks.len() > 0 {
                Some(Poker::Flush(ranks[0]))
            } else {
                None
            }
        } else if let Some(high) = is_straight(ranks.as_slice()) {
            Some(Poker::Straight(high))
        } else if threes.len() == 1 && ones.len() == 2 {
            Some(Poker::ThreeOfAKind(threes[0], ones[0], ones[1]))
        } else if twos.len() == 2 && ones.len() == 1 {
            Some(Poker::TwoPairs(twos[0], twos[1], ones[0]))
        } else if twos.len() == 1 && ones.len() == 3 {
            Some(Poker::Pair(twos[0]))
        } else if ranks.len() >= 5 {
            Some(Poker::HighSeven(ranks[0], ranks[1], ranks[2], ranks[3], ranks[4]))
        } else {
            None
        }
    }
}

/// The ranks of `cards`, in order.
pub open spec fn ranks_of(cards: Seq<Card>) -> Seq<u8> {
    Seq::new(cards.len(), |i: int| cards[i].rank)
}

/// The suits of `cards`, in order.
pub open spec fn suits_of(cards: Seq<Card>) -> Seq<Suit> {
    Seq::new(cards.len(), |i: int| cards[i].suit)
}

/// `sorted` holds what `s` holds, in falling order.
pub open spec fn is_sorted_desc_of(sorted: Seq<u8>, s: Seq<u8>) -> bool {
    descending(sorted) && sorted.to_multiset() == s.to_multiset()
}

/// The ranks `s` in falling order.
pub open spec fn sorted_desc(s: Seq<u8>) -> Seq<u8> {
    choose|sorted: Seq<u8>| is_sorted_desc_of(sorted, s)
}

/// There is one way to put ranks in falling order.
pub proof fn lemma_sorted_is_sorted_desc(sorted: Seq<u8>, s: Seq<u8>)
    requires
        is_sorted_desc_of(sorted, s),
    ensures
        sorted == sorted_desc(s),
{
    let other = sorted_desc(s);
    let geq = |a: u8, b: u8| a >= b;
    assert(vstd::relations::total_ordering(geq));
    assert(vstd::relations::sorted_by(sorted, geq));
    assert(vstd::relations::sorted_by(other, geq));
    vstd::seq_lib::lemma_sorted_unique(sorted, other, geq);
}

/// Every collection of ranks can be put in falling order.
pub proof fn lemma_sorted_desc(s: Seq<u8>)
    ensures
        is_sorted_desc_of(sorted_desc(s), s),
{
    let geq = |a: u8, b: u8| a >= b;
    assert(vstd::relations::total_ordering(geq));
    s.lemma_sort_by_ensures(geq);
    let sorted = s.sort_by(geq);
    assert(vstd::relations::sorted_by(sorted, geq));
    assert(descending(sorted)) by {
        assert forall|i: int, j: int| 0 <= i < j < sorted.len() implies sorted[i] >= sorted[j] by {
            assert(geq(sorted[i], sorted[j]));
        }
    }
    assert(is_sorted_desc_of(sorted, s));
}

/// What `regex` finds in a text with the pattern `([\dJQKA]{1,2})([HSCD])`:
/// the two groups of the first match, if there is a match.
pub uninterp spec fn card_match(card: Seq<char>) -> Option<(Seq<char>, Seq<char>)>;

/// `regex`'s `Regex::new`, `Regex::captures`, `Captures::get` and
/// `Match::as_str`, with the pattern `([\dJQKA]{1,2})([HSCD])`: the two
/// groups of the first match, if there is a match. The result is named.
#[verifier::external_body]
fn match_card(card: &str) -> (r: Option<(Vec<char>, Vec<char>)>)
    ensures
        match r {
            Some(parts) => card_match(card@) == Some((parts.0@, parts.1@)),
            None => card_match(card@) is None,
        },
{
    let re = Regex::new(r"([\dJQKA]{1,2})([HSCD])").ok()?;
    let caps = re.captures(card)?;
    Some((caps.get(1)?.as_str().chars().collect(), caps.get(2)?.as_str().chars().collect()))
}

/// The number that the decimal digits `text` write, if `text` is made of
/// decimal digits and the number is at most 255.
pub open spec fn number_of(text: Seq<char>) -> Option<u8>
    decreases text.len(),
{
    if text.len() == 0 {
        None
    } else if !('0' <= text.last() <= '9') {
        None
    } else if text.len() == 1 {
        Some((text.last() as u32 - '0' as u32) as u8)
    } else {
        match number_of(text.drop_last()) {
            Some(n) => if n * 10 + (text.last() as u32 - '0' as u32) <= 255 {
                Some((n * 10 + (text.last() as u32 - '0' as u32)) as u8)
            } else {
                None
            },
            None => None,
        }
    }
}

/// The rank that `text` names: 11 to 14 for `J`, `Q`, `K` and `A`, else the
/// number that it writes.
pub open spec fn rank_of(text: Seq<char>) -> Option<u8> {
    if text == "J"@ {
        Some(11u8)
    } else if text == "Q"@ {
        Some(12u8)
    } else if text == "K"@ {
        Some(13u8)
    } else if text == "A"@ {
        Some(14u8)
    } else {
        number_of(text)
    }
}

/// The suit that `text` names.
pub open spec fn suit_of(text: Seq<char>) -> Option<Suit> {
    if text == "H"@ {
        Some(Suit::Heart)
    } else if text == "D"@ {
        Some(Suit::Diamond)
    } else if text == "C"@ {
        Some(Suit::Club)
    } else if text == "S"@ {
        Some(Suit::Spade)
    } else {
        None
    }
}

/// The card that the texts `rank` and `suit` name, if they name one.
pub open spec fn card_from(rank: Seq<char>, suit: Seq<char>) -> Option<Card> {
    match (rank_of(rank), suit_of(suit)) {
        (Some(r), Some(s)) => Some(Card { rank: r, suit: s }),
        _ => None,
    }
}

/// The card that the text `card` names, if it names one.
pub open spec fn card_of(card: Seq<char>) -> Option<Card> {
    match card_match(card) {
        Some(parts) => card_from(parts.0, parts.1),
        None => None,
    }
}

fn number(text: &Vec<char>) -> (r: Option<u8>)
    ensures
        r == number_of(text@),
{
    if text.len() == 0 {
        return None;
    }
    let mut acc: u8 = 0;
    let mut i: usize = 0;
    while i < text.len()
        invariant
            i <= text@.len(),
            i > 0 ==> number_of(text@.take(i as int)) == Some(acc),
        decreases text@.len() - i,
    {
        let c = text[i];
        proof {
            assert(text@.take(i as int + 1).drop_last() =~= text@.take(i as int));
            assert(text@.take(i as int + 1).last() == c);
        }
        if !('0' <= c && c <= '9') {
            proof {
                lemma_number_stops(text@, i as int + 1);
            }
            return None;
        }
        let d = (c as u32 - '0' as u32) as u8;
        if i == 0 {
            acc = d;
        } else {
            if acc > 25 || (acc == 25 && d > 5) {
                proof {
                    lemma_number_stops(text@, i as int + 1);
                }
                return None;
            }
            acc = acc * 10 + d;
        }
        i += 1;
    }
    proof {
        assert(text@.take(i as int) =~= text@);
    }
    Some(acc)
}

/// Digits that write no number up to a point write none altogether.
pub proof fn lemma_number_stops(text: Seq<char>, n: int)
    requires
        0 < n <= text.len(),
        number_of(text.take(n)) is None,
    ensures
        number_of(text) is None,
    decreases text.len(),
{
    if n < text.len() {
        assert(text.drop_last().take(n) =~= text.take(n));
        lemma_number_stops(text.drop_last(), n);
    } else {
        assert(text.take(n) =~= text);
    }
}

impl Card {
    /// The card that the texts `rank` and `suit` name, if they name one.
    pub fn from_parts(rank: &Vec<char>, suit: &Vec<char>) -> (c: Option<Card>)
        ensures
            c == card_from(rank@, suit@),
    {
        let r = if same_text(rank, "J") {
            Some(11u8)
        } else if same_text(rank, "Q") {
            Some(12u8)
        } else if same_text(rank, "K") {
            Some(13u8)
        } else if same_text(rank, "A") {
            Some(14u8)
        } else {
            number(rank)
        };
        let s = if same_text(suit, "H") {
            Some(Suit::Heart)
        } else if same_text(suit, "D") {
            Some(Suit::Diamond)
        } else if same_text(suit, "C") {
            Some(Suit::Club)
        } else if same_text(suit, "S") {
            Some(Suit::Spade)
        } else {
            None
        };
        match (r, s) {
            (Some(rank), Some(suit)) => Some(Card { rank, suit }),
            _ => None,
        }
    }

    /// The card that the text `card` names, if it names one.
    fn new(card: &str) -> (c: Option<Card>)
        ensures
            c == card_of(card@),
    {
        match match_card(card) {
            Some(parts) => Card::from_parts(&parts.0, &parts.1),
            None => None,
        }
    }
}

/// The cards that the texts `pieces` name, if each names one.
pub open spec fn cards_of(pieces: Seq<Seq<char>>) -> Option<Seq<Card>>
    decreases pieces.len(),
{
    if pieces.len() == 0 {
        Some(Seq::empty())
    } else {
        match (cards_of(pieces.drop_last()), card_of(pieces.last())) {
            (Some(before), Some(c)) => Some(before.push(c)),
            _ => None,
        }
    }
}

/// What the hand that the text `hand` writes is worth, if it writes a hand
/// that has a worth.
pub open spec fn hand_score(hand: Seq<char>) -> Option<Poker> {
    match cards_of(whitespace_split(hand)) {
        Some(cards) => score_of(sorted_desc(ranks_of(cards)), suits_of(cards)),
        None => None,
    }
}

/// A hand as it was written, with what it is worth.
pub struct Hand<'a> {
    pub score: Poker,
    pub str: &'a str,
}

impl<'a> Hand<'a> {
    /// The hand that the text `str` writes, if it writes one that has a
    /// worth.
    fn new(str: &'a str) -> (h: Option<Hand<'a>>)
        ensures
            match h {
                Some(hand) => hand.str == str && hand_score(str@) == Some(hand.score),
                None => hand_score(str@) is None,
            },
    {
        let pieces = split_whitespace(str);
        let ghost model = crate::text::texts(pieces@);
        let mut cards: Vec<Card> = Vec::new();
        let mut i: usize = 0;
        while i < pieces.len()
            invariant
                i <= pieces@.len(),
                model == crate::text::texts(pieces@),
                model == whitespace_split(str@),
                cards_of(model.take(i as int)) == Some(cards@),
            decreases pieces@.len() - i,
        {
            let s = crate::text::string_of(&pieces[i]);
            proof {
                assert(model.take(i as int + 1).drop_last() =~= model.take(i as int));
                assert(model.take(i as int + 1).last() == pieces@[i as int]@);
            }
            match Card::new(s.as_str()) {
                Some(c) => {
                    cards.push(c);
                },
                None => {
                    proof {
                        lemma_cards_stop(model, i as int + 1);
                    }
                    return None;
                },
            }
            i += 1;
        }
        proof {
            assert(model.len() == pieces@.len());
            assert(model.take(i as int) =~= model);
        }
        match Poker::new(cards.as_slice()) {
            Some(score) => Some(Hand { score, str }),
            None => None,
        }
    }
}

/// Texts that name no cards up to a point name none altogether.
pub proof fn lemma_cards_stop(pieces: Seq<Seq<char>>, n: int)
    requires
        0 <= n <= pieces.len(),
        cards_of(pieces.take(n)) is None,
    ensures
        cards_of(pieces) is None,
    decreases pieces.len(),
{
    if n < pieces.len() {
        assert(pieces.drop_last().take(n) =~= pieces.take(n));
        lemma_cards_stop(pieces.drop_last(), n);
    } else {
        assert(pieces.take(n) =~= pieces);
    }
}

/// The scores of `hands`, in order.
pub open spec fn scores_of(hands: Seq<Hand>) -> Seq<Poker> {
    Seq::new(hands.len(), |i: int| hands[i].score)
}

/// No score among `scores` is worth more than `p`.
pub open spec fn is_best(scores: Seq<Poker>, p: Poker) -> bool {
    forall|j: int| 0 <= j < scores.len() ==> !worth_less(p, #[trigger] scores[j])
}

/// The positions among the first `n` of `scores` of the scores that none
/// among `scores` is worth more than, in rising order.
pub open spec fn best_upto(scores: Seq<Poker>, n: int) -> Seq<int>
    decreases n,
{
    if n <= 0 {
        Seq::empty()
    } else if is_best(scores, scores[n - 1]) {
        best_upto(scores, n - 1).push(n - 1)
    } else {
        best_upto(scores, n - 1)
    }
}

/// The positions in `scores` of the best scores, in rising order.
pub fn best(scores: &Vec<Poker>) -> (r: Vec<usize>)
    ensures
        r@.len() == best_upto(scores@, scores@.len() as int).len(),
        forall|k: int| 0 <= k < r@.len() ==> (#[trigger] r@[k]) as int == best_upto(
            scores@,
            scores@.len() as int,
        )[k],
        forall|k: int| 0 <= k < r@.len() ==> (#[trigger] r@[k]) < scores@.len(),
{
    let mut r: Vec<usize> = Vec::new();
    if scores.len() == 0 {
        return r;
    }
    let mut top: usize = 0;
    let mut i: usize = 1;
    while i < scores.len()
        invariant
            1 <= i <= scores@.len(),
            top < i,
            forall|j: int| 0 <= j < i ==> !worth_less(scores@[top as int], #[trigger] scores@[j]),
        decreases scores@.len() - i,
    {
        if less(&scores[top], &scores[i]) {
            top = i;
        }
        i += 1;
    }
    let mut k: usize = 0;
    while k < scores.len()
        invariant
            k <= scores@.len(),
            top < scores@.len(),
            is_best(scores@, scores@[top as int]),
            r@.len() == best_upto(scores@, k as int).len(),
            forall|a: int| 0 <= a < r@.len() ==> (#[trigger] r@[a]) as int == best_upto(
                scores@,
                k as int,
            )[a],
            forall|a: int| 0 <= a < r@.len() ==> (#[trigger] r@[a]) < scores@.len(),
        decreases scores@.len() - k,
    {
        let here_is_best = !less(&scores[k], &scores[top]);
        proof {
            if here_is_best {
                assert forall|j: int| 0 <= j < scores@.len() implies !worth_less(
                    scores@[k as int],
                    #[trigger] scores@[j],
                ) by {
                    assert(!worth_less(scores@[top as int], scores@[j]));
                }
            } else {
                assert(worth_less(scores@[k as int], scores@[top as int]));
            }
        }
        if here_is_best {
            r.push(k);
        }
        k += 1;
    }
    r
}

/// Whether every one of `hands` writes a hand that has a worth, and there is
/// one at least.
pub open spec fn all_scored(hands: Seq<&str>) -> bool {
    hands.len() > 0 && forall|i: int| 0 <= i < hands.len() ==> hand_score(
        (#[trigger] hands[i])@,
    ) is Some
}

/// The scores of the hands that `hands` write.
pub open spec fn written_scores(hands: Seq<&str>) -> Seq<Poker> {
    Seq::new(hands.len(), |i: int| hand_score(hands[i]@)->0)
}

/// The hands among `hands` that none is worth more than, in the order in
/// which they stand in `hands`.
pub fn winning_hands<'a>(hands: &[&'a str]) -> (r: Option<Vec<&'a str>>)
    requires
        all_scored(hands@),
    ensures
        r is Some,
        r->0@.len() == best_upto(written_scores(hands@), hands@.len() as int).len(),
        forall|k: int|
            0 <= k < r->0@.len() ==> (#[trigger] r->0@[k]) == hands@[best_upto(
                written_scores(hands@),
                hands@.len() as int,
            )[k]],
{
    let mut scores: Vec<Poker> = Vec::new();
    let mut i: usize = 0;
    while i < hands.len()
        invariant
            i <= hands@.len(),
            all_scored(hands@),
            scores@ == written_scores(hands@).take(i as int),
        decreases hands@.len() - i,
    {
        match Hand::new(hands[i]) {
            Some(hand) => {
                scores.push(hand.score);
            },
            None => {
                proof {
                    assert(hand_score(hands@[i as int]@) is Some);
                }
            },
        }
        i += 1;
        proof {
            assert(scores@ =~= written_scores(hands@).take(i as int));
        }
    }
    proof {
        assert(written_scores(hands@).take(i as int) =~= written_scores(hands@));
    }
    let winners = best(&scores);
    let mut r: Vec<&'a str> = Vec::new();
    let mut k: usize = 0;
    while k < winners.len()
        invariant
            k <= winners@.len(),
            scores@.len() == hands@.len(),
            forall|a: int| 0 <= a < winners@.len() ==> (#[trigger] winners@[a]) < scores@.len(),
            r@.len() == k,
            forall|a: int| 0 <= a < k ==> (#[trigger] r@[a]) == hands@[winners@[a] as int],
        decreases winners@.len() - k,
    {
        r.push(hands[winners[k]]);
        k += 1;
    }
    Some(r)
}

/// The hands among `hands` that none is worth more than, if every one of
/// `hands` writes a hand that has a worth and there is one at least; else
/// `None`.
pub fn try_winning_hands<'a>(hands: &[&'a str]) -> (r: Option<Vec<&'a str>>)
    ensures
        r is Some <==> all_scored(hands@),
        r is Some ==> {
            &&& r->0@.len() == best_upto(written_scores(hands@), hands@.len() as int).len()
            &&& forall|k: int|
                0 <= k < r->0@.len() ==> (#[trigger] r->0@[k]) == hands@[best_upto(
                    written_scores(hands@),
                    hands@.len() as int,
                )[k]]
        },
{
    if hands.len() == 0 {
        return None;
    }
    let mut i: usize = 0;
    while i < hands.len()
        invariant
            i <= hands@.len(),
            forall|j: int| 0 <= j < i ==> hand_score((#[trigger] hands@[j])@) is Some,
        decreases hands@.len() - i,
    {
        if Hand::new(hands[i]).is_none() {
            return None;
        }
        i += 1;
    }
    winning_hands(hands)
}

/// A score is never worth less than itself, and of two different scores of
/// which the first is worth less than the second, the second is not worth
/// less than the first.
pub proof fn lemma_worth_orders(a: Poker, b: Poker)
    ensures
        !worth_less(a, a),
        worth_less(a, b) ==> !worth_less(b, a),
        !worth_less(a, b) && !worth_less(b, a) ==> key_of(a) == key_of(b),
{
}

} // verus!
