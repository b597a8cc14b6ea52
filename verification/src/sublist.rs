//! How two lists relate: equal, one contained in the other as a contiguous
//! run, or neither.

use vstd::laws_eq::obeys_concrete_eq;
use vstd::prelude::*;

verus! {

/// How a first list relates to a second one.
#[derive(Debug, PartialEq, Eq, Structural)]
pub enum Comparison {
    Equal,
    Sublist,
    Superlist,
    Unequal,
}

/// `short` occurs in `long` as a contiguous run that starts at `at`.
pub open spec fn occurs_at<T>(short: Seq<T>, long: Seq<T>, at: int) -> bool {
    0 <= at <= long.len() - short.len() && long.subrange(at, at + short.len()) == short
}

/// `short` occurs somewhere in `long` as a contiguous run.
pub open spec fn occurs_in<T>(short: Seq<T>, long: Seq<T>) -> bool {
    exists|at: int| occurs_at(short, long, at)
}

/// How `first` relates to `second`.
pub open spec fn compare<T>(first: Seq<T>, second: Seq<T>) -> Comparison {
    if first == second {
        Comparison::Equal
    } else if first.len() < second.len() && occurs_in(first, second) {
        Comparison::Sublist
    } else if first.len() > second.len() && occurs_in(second, first) {
        Comparison::Superlist
    } else {
        Comparison::Unequal
    }
}

/// Whether `a` and `b` are different values.
fn differ<T: PartialEq>(a: &T, b: &T) -> (r: bool)
    requires
        obeys_concrete_eq::<T>(),
    ensures
        r == (*a != *b),
{
    proof {
        reveal(obeys_concrete_eq);
    }
    *a != *b
}

/// Whether `short` stands in `long` at the offset `at`.
fn matches_at<T: PartialEq>(short: &[T], long: &[T], at: usize) -> (r: bool)
    requires
        obeys_concrete_eq::<T>(),
        at + short@.len() <= long@.len(),
    ensures
        r == occurs_at(short@, long@, at as int),
{
    let n = long.len();
    let mut j: usize = 0;
    while j < short.len()
        invariant
            obeys_concrete_eq::<T>(),
            j <= short@.len(),
            n == long@.len(),
            at + short@.len() <= n,
            forall|k: int| 0 <= k < j ==> short@[k] == long@[at + k],
        decreases short@.len() - j,
    {
        if differ(&short[j], &long[j + at]) {
            proof {
                assert(long@.subrange(at as int, at + short@.len())[j as int] == long@[at + j]);
            }
            return false;
        }
        j += 1;
    }
    proof {
        assert(long@.subrange(at as int, at + short@.len()) =~= short@);
    }
    true
}

/// Whether `first_list` occurs in the longer `second_list` as a contiguous
/// run.
fn is_sub<T: PartialEq>(first_list: &[T], second_list: &[T]) -> (r: bool)
    requires
        obeys_concrete_eq::<T>(),
        first_list@.len() < second_list@.len(),
    ensures
        r == occurs_in(first_list@, second_list@),
{
    let last = second_list.len() - first_list.len();
    let mut i: usize = 0;
    loop
        invariant
            obeys_concrete_eq::<T>(),
            last == second_list@.len() - first_list@.len(),
            i <= last,
            forall|at: int| 0 <= at < i ==> !occurs_at(first_list@, second_list@, at),
        decreases last - i,
    {
        if matches_at(first_list, second_list, i) {
            return true;
        }
        if i == last {
            return false;
        }
        i += 1;
    }
}

/// Whether `first_list` holds the shorter `second_list` as a contiguous run.
fn is_super<T: PartialEq>(first_list: &[T], second_list: &[T]) -> (r: bool)
    requires
        obeys_concrete_eq::<T>(),
        second_list@.len() < first_list@.len(),
    ensures
        r == occurs_in(second_list@, first_list@),
{
    is_sub(second_list, first_list)
}

/// Whether the two lists hold the same values in the same order.
fn same<T: PartialEq>(a: &[T], b: &[T]) -> (r: bool)
    requires
        obeys_concrete_eq::<T>(),
    ensures
        r == (a@ == b@),
{
    if a.len() != b.len() {
        return false;
    }
    let r = matches_at(a, b, 0);
    proof {
        assert(b@.subrange(0, b@.len() as int) =~= b@);
    }
    r
}

/// How `first_list` relates to `second_list`.
pub fn sublist<T: PartialEq>(first_list: &[T], second_list: &[T]) -> (r: Comparison)
    requires
        obeys_concrete_eq::<T>(),
    ensures
        r == compare(first_list@, second_list@),
{
    if same(first_list, second_list) {
        Comparison::Equal
    } else if first_list.len() < second_list.len() && is_sub(first_list, second_list) {
        Comparison::Sublist
    } else if first_list.len() > second_list.len() && is_super(first_list, second_list) {
        Comparison::Superlist
    } else {
        Comparison::Unequal
    }
}

/// How `a` relates to `b`, decided by the lengths first.
pub fn sublist2<T: PartialEq>(a: &[T], b: &[T]) -> (r: Comparison)
    requires
        obeys_concrete_eq::<T>(),
    ensures
        r == compare(a@, b@),
{
    let m = a.len();
    let n = b.len();
    if m == 0 && n == 0 {
        proof {
            assert(a@ =~= b@);
        }
        Comparison::Equal
    } else if m == 0 {
        proof {
            assert(occurs_at(a@, b@, 0)) by {
                assert(b@.subrange(0, 0) =~= a@);
            }
        }
        Comparison::Sublist
    } else if n == 0 {
        proof {
            assert(occurs_at(b@, a@, 0)) by {
                assert(a@.subrange(0, 0) =~= b@);
            }
        }
        Comparison::Superlist
    } else if m > n {
        if is_sub(b, a) {
            Comparison::Superlist
        } else {
            Comparison::Unequal
        }
    } else if m < n {
        if is_sub(a, b) {
            Comparison::Sublist
        } else {
            Comparison::Unequal
        }
    } else if same(a, b) {
        Comparison::Equal
    } else {
        Comparison::Unequal
    }
}

/// Turning the arguments round turns the answer round.
pub proof fn lemma_compare_flips<T>(first: Seq<T>, second: Seq<T>)
    ensures
        compare(second, first) == match compare(first, second) {
            Comparison::Equal => Comparison::Equal,
            Comparison::Sublist => Comparison::Superlist,
            Comparison::Superlist => Comparison::Sublist,
            Comparison::Unequal => Comparison::Unequal,
        },
{
}

} // verus!
