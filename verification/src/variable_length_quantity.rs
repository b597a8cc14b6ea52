//! Numbers written as one byte where they are small and as two where they
//! are not.

use vstd::prelude::*;

verus! {

/// Why bytes could not be read as numbers.
#[derive(Debug, PartialEq, Eq, Structural)]
pub enum Error {
    IncompleteNumber,
    Overflow,
}

/// The bytes that write `n`: `n` itself if it is below 128, else a byte
/// that holds the low seven bits with the top bit set, and a byte that holds
/// the next eight bits.
pub open spec fn written(n: u32) -> Seq<u8> {
    if n >= 128 {
        seq![(128 + n % 128) as u8, ((n / 128) % 256) as u8]
    } else {
        seq![n as u8]
    }
}

/// The bytes that write the first `k` of `values`, one number after the
/// other.
pub open spec fn written_all(values: Seq<u32>, k: int) -> Seq<u8>
    decreases k,
{
    if k <= 0 {
        Seq::empty()
    } else {
        written_all(values, k - 1) + written(values[k - 1])
    }
}

/// The bytes that write `values`, one number after the other.
pub fn to_bytes(values: &[u32]) -> (r: Vec<u8>)
    ensures
        r@ == written_all(values@, values@.len() as int),
{
    let mut r: Vec<u8> = Vec::new();
    let mut i: usize = 0;
    while i < values.len()
        invariant
            i <= values@.len(),
            r@ == written_all(values@, i as int),
        decreases values@.len() - i,
    {
        let n = values[i];
        let ghost before = r@;
        if n >= 128 {
            let first: u8 = #[verifier::truncate] (((n & 0x7f) | 0x80) as u8);
            let second: u8 = #[verifier::truncate] ((n >> 7) as u8);
            proof {
                assert(first == (128 + n % 128) as u8) by (bit_vector)
                    requires
                        first == #[verifier::truncate] (((n & 0x7f) | 0x80) as u8),
                ;
                assert(second == ((n / 128) % 256) as u8) by (bit_vector)
                    requires
                        second == #[verifier::truncate] ((n >> 7) as u8),
                ;
            }
            r.push(first);
            r.push(second);
            proof {
                assert(r@ =~= before + written(n));
            }
        } else {
            r.push(n as u8);
            proof {
                assert(r@ =~= before + written(n));
            }
        }
        i += 1;
    }
    r
}

/// What reading `bytes` from position `at` on gives, number by number: a
/// byte below 128 is a number by itself; any other byte holds the low seven
/// bits of a number whose next eight bits the following byte holds. `None`
/// where the last byte asks for a following one.
pub open spec fn read_from(bytes: Seq<u8>, at: int) -> Option<Seq<u32>>
    decreases bytes.len() - at,
{
    if at < 0 || at >= bytes.len() {
        Some(Seq::empty())
    } else if bytes[at] < 128 {
        match read_from(bytes, at + 1) {
            Some(rest) => Some(seq![bytes[at] as u32] + rest),
            None => None,
        }
    } else if at + 1 >= bytes.len() {
        None
    } else {
        match read_from(bytes, at + 2) {
            Some(rest) => Some(seq![(bytes[at] - 128 + bytes[at + 1] * 128) as u32] + rest),
            None => None,
        }
    }
}

/// The numbers that `bytes` write, or `IncompleteNumber` where the last
/// byte asks for a following one.
pub fn from_bytes(bytes: &[u8]) -> (r: Result<Vec<u32>, Error>)
    ensures
        match r {
            Ok(values) => read_from(bytes@, 0) == Some(values@),
            Err(e) => e == Error::IncompleteNumber && read_from(bytes@, 0) is None,
        },
{
    let mut values: Vec<u32> = Vec::new();
    let n = bytes.len();
    let mut at: usize = 0;
    while at < n
        invariant
            at <= n,
            n == bytes@.len(),
            read_from(bytes@, 0) == match read_from(bytes@, at as int) {
                Some(rest) => Some(values@ + rest),
                None => None,
            },
        decreases n - at,
    {
        let b = bytes[at];
        let ghost before = values@;
        if b < 128 {
            values.push(b as u32);
            at += 1;
            proof {
                match read_from(bytes@, at as int) {
                    Some(rest) => {
                        assert(before + (seq![b as u32] + rest) =~= values@ + rest);
                    },
                    None => {},
                }
            }
        } else {
            if n - at < 2 {
                return Err(Error::IncompleteNumber);
            }
            let next = bytes[at + 1];
            let v = (b - 128) as u32 + (next as u32) * 128;
            values.push(v);
            at += 2;
            proof {
                match read_from(bytes@, at as int) {
                    Some(rest) => {
                        assert(before + (seq![v] + rest) =~= values@ + rest);
                    },
                    None => {},
                }
            }
        }
    }
    proof {
        assert(values@ + Seq::<u32>::empty() =~= values@);
    }
    Ok(values)
}

/// Reading what was written gives the numbers back, as long as each of them
/// is below 32768, which is as far as two bytes reach.
pub proof fn lemma_read_written(values: Seq<u32>, k: int)
    requires
        0 <= k <= values.len(),
        forall|i: int| 0 <= i < values.len() ==> (#[trigger] values[i]) < 32768,
    ensures
        read_from(written_all(values, k), 0) == Some(values.take(k)),
    decreases k,
{
    if k == 0 {
        assert(values.take(0) =~= Seq::<u32>::empty());
    } else {
        lemma_read_written(values, k - 1);
        let head = written_all(values, k - 1);
        let tail = written(values[k - 1]);
        lemma_read_appended(head, tail, values.take(k - 1), values[k - 1], 0);
        assert(values.take(k - 1).push(values[k - 1]) =~= values.take(k));
    }
}

/// Reading bytes that read as `got`, with the bytes that write `n` after
/// them, gives `got` and then `n`.
proof fn lemma_read_appended(head: Seq<u8>, tail: Seq<u8>, got: Seq<u32>, n: u32, at: int)
    requires
        0 <= at <= head.len(),
        n < 32768,
        tail == written(n),
        read_from(head, at) == Some(got),
    ensures
        read_from(head + tail, at) == Some(got.push(n)),
    decreases head.len() - at,
{
    let all = head + tail;
    if at == head.len() {
        assert(got =~= Seq::<u32>::empty());
        if n >= 128 {
            assert(all[at] == (128 + n % 128) as u8);
            assert(all[at + 1] == ((n / 128) % 256) as u8);
            assert(read_from(all, at + 2) == Some(Seq::<u32>::empty()));
            assert((all[at] - 128 + all[at + 1] * 128) as u32 == n);
            assert(seq![n] + Seq::<u32>::empty() =~= got.push(n));
        } else {
            assert(all[at] == n as u8);
            assert(read_from(all, at + 1) == Some(Seq::<u32>::empty()));
            assert(seq![n] + Seq::<u32>::empty() =~= got.push(n));
        }
    } else if head[at] < 128 {
        assert(all[at] == head[at]);
        let rest = read_from(head, at + 1)->0;
        assert(read_from(head, at + 1) is Some);
        lemma_read_appended(head, tail, rest, n, at + 1);
        assert((seq![head[at] as u32] + rest).push(n) =~= seq![head[at] as u32] + rest.push(n));
    } else {
        assert(at + 1 < head.len());
        assert(all[at] == head[at]);
        assert(all[at + 1] == head[at + 1]);
        let rest = read_from(head, at + 2)->0;
        assert(read_from(head, at + 2) is Some);
        lemma_read_appended(head, tail, rest, n, at + 2);
        let v = (head[at] - 128 + head[at + 1] * 128) as u32;
        assert((seq![v] + rest).push(n) =~= seq![v] + rest.push(n));
    }
}

} // verus!
