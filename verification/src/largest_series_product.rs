//! The largest product of a run of neighbouring digits.

use vstd::prelude::*;
use crate::text::chars_of;

verus! {

/// Why no product could be computed.
#[derive(Debug, PartialEq, Eq, Structural)]
pub enum Error {
    SpanTooLong,
    InvalidDigit(char),
}

/// Whether `c` is a decimal digit.
pub open spec fn is_digit(c: char) -> bool {
    '0' <= c <= '9'
}

/// The value of the decimal digit `c`.
pub open spec fn digit_value(c: char) -> int {
    c as u32 - '0' as u32
}

/// The product of the `span` digits of `d` from position `start` on.
pub open spec fn product(d: Seq<char>, start: int, span: int) -> int
    decreases span,
{
    if span <= 0 {
        1
    } else {
        product(d, start, span - 1) * digit_value(d[start + span - 1])
    }
}

/// Position `i` holds the first character of `d` that is no digit.
pub open spec fn first_bad(d: Seq<char>, i: int) -> bool {
    &&& 0 <= i < d.len()
    &&& !is_digit(d[i])
    &&& forall|k: int| 0 <= k < i ==> is_digit(#[trigger] d[k])
}

/// Every character of `d` is a digit.
pub open spec fn all_digits(d: Seq<char>) -> bool {
    forall|k: int| 0 <= k < d.len() ==> is_digit(#[trigger] d[k])
}

/// `v` is the largest product of `span` neighbouring digits of `d`.
pub open spec fn is_largest(d: Seq<char>, span: int, v: int) -> bool {
    &&& exists|start: int| 0 <= start <= d.len() - span && #[trigger] product(d, start, span) == v
    &&& forall|start: int| 0 <= start <= d.len() - span ==> #[trigger] product(d, start, span) <= v
}

/// Every product of up to `span` neighbouring digits of `d` fits the result.
pub open spec fn products_fit(d: Seq<char>, span: int) -> bool {
    forall|start: int, k: int|
        0 <= start <= d.len() - span && 0 <= k <= span ==> #[trigger] product(d, start, k)
            <= u64::MAX
}

/// A product of digits is not negative.
pub proof fn lemma_product_nonnegative(d: Seq<char>, start: int, span: int)
    requires
        all_digits(d),
        0 <= start,
        start + span <= d.len(),
    ensures
        product(d, start, span) >= 0,
    decreases span,
{
    if span > 0 {
        lemma_product_nonnegative(d, start, span - 1);
        let a = product(d, start, span - 1);
        let b = digit_value(d[start + span - 1]);
        assert(is_digit(d[start + span - 1]));
        assert(a * b >= 0) by (nonlinear_arith)
            requires
                a >= 0,
                b >= 0,
        ;
    }
}

/// The largest product of `span` neighbouring digits of `string_digits`. A
/// span of zero has the product 1, whatever the text holds.
pub fn lsp(string_digits: &str, span: usize) -> (r: Result<u64, Error>)
    requires
        span > 0 && all_digits(string_digits@) ==> products_fit(string_digits@, span as int),
    ensures
        span == 0 ==> r == Ok::<u64, Error>(1),
        span > 0 ==> match r {
            Ok(v) => all_digits(string_digits@) && span <= string_digits@.len() && is_largest(
                string_digits@,
                span as int,
                v as int,
            ),
            Err(Error::InvalidDigit(c)) => exists|i: int|
                first_bad(string_digits@, i) && string_digits@[i] == c,
            Err(Error::SpanTooLong) => all_digits(string_digits@) && span > string_digits@.len(),
        },
{
    if span == 0 {
        return Ok(1);
    }
    let d = chars_of(string_digits);
    let mut i: usize = 0;
    while i < d.len()
        invariant
            i <= d@.len(),
            span > 0,
            d@ == string_digits@,
            forall|k: int| 0 <= k < i ==> is_digit(#[trigger] d@[k]),
        decreases d@.len() - i,
    {
        let c = d[i];
        if !('0' <= c && c <= '9') {
            proof {
                assert(first_bad(d@, i as int));
            }
            return Err(Error::InvalidDigit(c));
        }
        i += 1;
    }
    if span > d.len() {
        return Err(Error::SpanTooLong);
    }
    let n = d.len();
    let last = n - span;
    let mut best: u64 = 0;
    let mut start: usize = 0;
    let ghost mut witness: int = 0;
    loop
        invariant
            d@ == string_digits@,
            n == d@.len(),
            all_digits(d@),
            products_fit(d@, span as int),
            0 < span <= d@.len(),
            last == d@.len() - span,
            start <= last,
            start > 0 ==> 0 <= witness < start && product(d@, witness, span as int) == best,
            forall|s: int| 0 <= s < start ==> #[trigger] product(d@, s, span as int) <= best,
        decreases last - start,
    {
        let mut p: u64 = 1;
        let mut k: usize = 0;
        while k < span
            invariant
                all_digits(d@),
                products_fit(d@, span as int),
                n == d@.len(),
                span <= n,
                start <= last,
                last == d@.len() - span,
                k <= span,
                p == product(d@, start as int, k as int),
            decreases span - k,
        {
            let v = (d[start + k] as u32 - '0' as u32) as u64;
            proof {
                assert(is_digit(d@[start + k]));
                assert(product(d@, start as int, k as int + 1) <= u64::MAX);
                lemma_product_nonnegative(d@, start as int, k as int + 1);
            }
            p = p * v;
            k += 1;
        }
        if start == 0 || p > best {
            best = p;
            proof {
                witness = start as int;
            }
        }
        if start == last {
            proof {
                assert(product(d@, witness, span as int) == best);
            }
            return Ok(best);
        }
        start += 1;
    }
}

} // verus!
