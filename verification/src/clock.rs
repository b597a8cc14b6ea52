//! A clock without a date: minutes counted from midnight, shown as hours and
//! minutes.

use vstd::arithmetic::div_mod::{
    lemma_fundamental_div_mod, lemma_mod_add_multiples_vanish, lemma_mod_multiples_vanish,
    lemma_mod_twice,
};
use vstd::prelude::*;
use vstd::std_specs::cmp::PartialEqSpecImpl;

verus! {

/// A clock, held as a count of minutes.
#[derive(Debug, Eq)]
pub struct Clock(i32);

/// `x` modulo `m`, never negative.
pub open spec fn modulo_of(x: int, m: int) -> int {
    x % m
}

/// The hours that a clock shows whose count of minutes is `t`. For a count
/// that is not negative this is the hour of the day; see
/// [`lemma_shows_time_of_day`] for the negative counts of which the same
/// holds.
pub open spec fn hours_shown(t: int) -> int {
    if t >= 0 {
        (t / 60) % 24
    } else if t >= -59 {
        23
    } else if t % 60 == 0 {
        24 - (t / 60) % 24
    } else {
        (t / 60 + 1) % 24 - 1
    }
}

/// The minutes that a clock shows whose count of minutes is `t`.
pub open spec fn minutes_shown(t: int) -> int {
    t % 60
}

/// The decimal digit `d` as a character.
pub open spec fn digit(d: int) -> char {
    (d + 48) as u8 as char
}

/// What formatting `n` in decimal gives, padded with zeros to two places.
pub uninterp spec fn zero_padded(n: i32) -> Seq<char>;

/// `std`'s `format!` with the pattern `{:02}` on one integer. The result is
/// named; of a number from 0 to 99 it is the two decimal digits.
#[verifier::external_body]
fn two_places(n: i32) -> (s: String)
    ensures
        s@ == zero_padded(n),
        0 <= n <= 99 ==> s@ == seq![digit(n as int / 10), digit(n as int % 10)],
{
    format!("{:02}", n)
}

fn modulo(x: i32, m: i32) -> (r: i32)
    requires
        0 < m <= 0x3fff_ffff,
    ensures
        r == modulo_of(x as int, m as int),
        0 <= r < m,
{
    let rem = x % m;
    let r = (rem + m) % m;
    proof {
        lemma_remainders(x as int, m as int);
    }
    r
}

/// The truncated remainder, made positive, is the remainder.
proof fn lemma_remainders(x: int, m: int)
    requires
        0 < m,
    ensures
        x >= 0 ==> (x % m + m) % m == x % m,
        x < 0 ==> ((-((-x) % m)) + m) % m == x % m,
        0 <= x % m < m,
{
    lemma_mod_add_multiples_vanish(x % m, m);
    lemma_mod_twice(x, m);
    let r = (-x) % m;
    let q = (-x) / m;
    lemma_fundamental_div_mod(-x, m);
    lemma_mod_add_multiples_vanish(-r, m);
    assert(x == m * (-q) + (-r)) by (nonlinear_arith)
        requires
            -x == m * q + r,
    ;
    lemma_mod_multiples_vanish(-q, -r, m);
}

impl View for Clock {
    type V = int;

    /// The count of minutes.
    closed spec fn view(&self) -> int {
        self.0 as int
    }
}

impl Clock {
    /// The clock at `hours`:`minutes`; either may lie outside a day's or an
    /// hour's range.
    pub fn new(hours: i32, minutes: i32) -> (c: Self)
        requires
            modulo_of(hours as int, 24) * 60 + minutes <= i32::MAX,
        ensures
            c@ == modulo_of(hours as int, 24) * 60 + minutes,
    {
        Clock(modulo(hours, 24) * 60 + minutes)
    }

    /// The count of minutes.
    pub fn minutes(&self) -> (m: i32)
        ensures
            m == self@,
    {
        self.0
    }

    /// The clock `minutes` later, or earlier if `minutes` is negative.
    pub fn add_minutes(&self, minutes: i32) -> (c: Self)
        requires
            i32::MIN <= self@ + minutes <= i32::MAX,
        ensures
            c@ == self@ + minutes,
    {
        Clock(self.0 + minutes)
    }

    fn compute(&self) -> (hm: (i32, i32))
        ensures
            hm.0 == hours_shown(self@),
            hm.1 == minutes_shown(self@),
            0 <= hm.1 < 60,
            -1 <= hm.0 <= 24,
    {
        let t = self.0;
        let q = t / 60;
        if t >= 0 {
            (modulo(q, 24), modulo(t, 60))
        } else if t >= -59 {
            (23, modulo(t, 60))
        } else if modulo(t, 60) == 0 {
            (24 - modulo(q, 24), 0)
        } else {
            (modulo(q, 24) - 1, modulo(t, 60))
        }
    }

    /// The clock's reading as `hh:mm`.
    pub fn to_string(&self) -> (s: String)
        ensures
            s@ == zero_padded(hours_shown(self@) as i32) + seq![':'] + zero_padded(
                minutes_shown(self@) as i32,
            ),
    {
        let (hours, minutes) = self.compute();
        let mut s = two_places(hours);
        s.append(":");
        let m = two_places(minutes);
        s.append(m.as_str());
        proof {
            reveal_strlit(":");
            assert(":"@ =~= seq![':']);
        }
        s
    }
}

impl PartialEq for Clock {
    /// Two clocks are equal if they show the same reading.
    fn eq(&self, b: &Clock) -> (r: bool) {
        let x = self.compute();
        let y = b.compute();
        x.0 == y.0 && x.1 == y.1
    }
}

impl PartialEqSpecImpl for Clock {
    open spec fn obeys_eq_spec() -> bool {
        true
    }

    open spec fn eq_spec(&self, b: &Clock) -> bool {
        hours_shown(self@) == hours_shown(b@) && minutes_shown(self@) == minutes_shown(b@)
    }
}

/// A clock whose count of minutes is not negative shows the time of day, and
/// so does one whose count is negative, but for the counts that are a whole
/// number of hours below zero and for those in the last hour before a
/// midnight more than an hour back.
pub proof fn lemma_shows_time_of_day(t: int)
    requires
        t >= -59 || (t % 60 != 0 && (t / 60 + 1) % 24 != 0),
    ensures
        hours_shown(t) == (t % 1440) / 60,
        minutes_shown(t) == (t % 1440) % 60,
        0 <= hours_shown(t) < 24,
{
}

} // verus!
