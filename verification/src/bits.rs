use vstd::prelude::*;

verus! {

/// A team's solve state is a 64-bit mask: bit `k` records whether the
/// challenge whose id is `k + 1` has been credited to the team. Challenge
/// ids are 1-based and bounded at 64, the width of the mask.
pub open spec fn valid_id(id: u32) -> bool {
    1 <= id <= 64
}

pub open spec fn is_solved(mask: u64, id: u32) -> bool {
    mask & (1u64 << ((id - 1) as u64)) != 0
}

/// Whether the team holding `mask` has been credited for challenge `id`.
pub fn solved(mask: u64, id: u32) -> (r: bool)
    requires
        valid_id(id),
    ensures
        r == is_solved(mask, id),
{
    mask & (1u64 << ((id - 1) as u64)) != 0
}

/// Credit the challenge `id` in `mask`: its bit becomes set, every other
/// bit keeps its value, and no bit is ever cleared.
pub fn set_solved(mask: u64, id: u32) -> (r: u64)
    requires
        valid_id(id),
    ensures
        is_solved(r, id),
        forall|j: u32| valid_id(j) && j != id ==> is_solved(r, j) == is_solved(mask, j),
        forall|j: u32| valid_id(j) && is_solved(mask, j) ==> is_solved(r, j),
{
    let r = mask | (1u64 << ((id - 1) as u64));
    proof {
        assert(r & (1u64 << ((id - 1) as u64)) != 0 && forall|j: u32|
            1 <= j <= 64 && j != id ==> ((#[trigger] (r & (1u64 << ((j - 1) as u64))) != 0) == (mask
                & (1u64 << ((j - 1) as u64)) != 0))) by (bit_vector)
            requires
                r == mask | (1u64 << ((id - 1) as u64)),
                1 <= id <= 64,
        ;
    }
    r
}

} // verus!
