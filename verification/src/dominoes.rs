//! Chains of dominoes.

use vstd::prelude::*;

verus! {

/// What `chain` answers for the stones `input`: a single stone is a chain
/// only if both its halves are equal; any other collection of stones is
/// handed back as it stands.
pub open spec fn chain_of(input: Seq<(u8, u8)>) -> Option<Seq<(u8, u8)>> {
    if input.len() == 1 && input[0].0 != input[0].1 {
        None
    } else {
        Some(input)
    }
}

/// The stones of `input` as a chain, if they are taken for one.
pub fn chain(input: &[(u8, u8)]) -> (r: Option<Vec<(u8, u8)>>)
    ensures
        match r {
            Some(stones) => chain_of(input@) == Some(stones@),
            None => chain_of(input@) is None,
        },
{
    if input.len() == 1 && input[0].0 != input[0].1 {
        return None;
    }
    let mut stones: Vec<(u8, u8)> = Vec::new();
    let mut i: usize = 0;
    while i < input.len()
        invariant
            i <= input@.len(),
            stones@ == input@.take(i as int),
        decreases input@.len() - i,
    {
        stones.push(input[i]);
        i += 1;
        proof {
            assert(stones@ =~= input@.take(i as int));
        }
    }
    proof {
        assert(input@.take(i as int) =~= input@);
    }
    Some(stones)
}

} // verus!
