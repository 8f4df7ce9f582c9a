use vstd::prelude::*;

verus! {

pub open spec fn pow2(k: nat) -> nat
    decreases k,
{
    if k == 0 {
        1
    } else {
        2 * pow2((k - 1) as nat)
    }
}

/// Index levels that a list of `len` entries needs: the smallest `k` with
/// `2^k >= len`, 0 for an empty list.
pub fn max_level(len: usize) -> (r: usize)
    ensures
        len == 0 ==> r == 0,
        len > 0 ==> len <= pow2(r as nat) && (r == 0 || pow2((r - 1) as nat) < len),
{
    if len == 0 {
        return 0;
    }
    let mut k: usize = 0;
    let mut p: usize = 1;
    while p < len
        invariant
            p == pow2(k as nat),
            p >= 1,
            k <= p,
            k == 0 || pow2((k - 1) as nat) < len,
            len > 0,
        decreases len - k,
    {
        if p > usize::MAX / 2 {
            proof {
                assert(len <= 2 * p);
            }
            return k + 1;
        }
        p = p * 2;
        k = k + 1;
        proof {
            assert(pow2(k as nat) == 2 * pow2((k - 1) as nat));
        }
    }
    k
}

} // verus!
