//! Powers of two, as the atlas and the vertex buffers grow by them.

use vstd::prelude::*;

verus! {

/// The smallest power of two that is at least `n`, searched upwards from `p`.
pub open spec fn pow2_at_least(n: int, p: int) -> int
    decreases (if n > p { n - p } else { 0 }),
{
    if p <= 0 {
        1
    } else if p >= n {
        p
    } else {
        pow2_at_least(n, 2 * p)
    }
}

/// The smallest power of two that is at least `n` (1 for `n <= 1`).
pub open spec fn next_pow2(n: int) -> int {
    pow2_at_least(n, 1)
}

/// `p` is a power of two.
pub open spec fn is_pow2(p: int) -> bool
    decreases p,
{
    if p <= 0 {
        false
    } else if p == 1 {
        true
    } else {
        p % 2 == 0 && is_pow2(p / 2)
    }
}

proof fn lemma_pow2_at_least(n: int, p: int)
    requires
        p >= 1,
        is_pow2(p),
    ensures
        pow2_at_least(n, p) >= n,
        pow2_at_least(n, p) >= p,
        is_pow2(pow2_at_least(n, p)),
        pow2_at_least(n, p) == p || pow2_at_least(n, p) < 2 * n,
    decreases (if n > p { n - p } else { 0 }),
{
    if p < n {
        assert(is_pow2(2 * p)) by {
            assert((2 * p) / 2 == p);
        }
        lemma_pow2_at_least(n, 2 * p);
    }
}

/// What `next_pow2` is: a power of two, at least `n`, and less than `2 * n`
/// unless it is 1.
pub proof fn lemma_next_pow2(n: int)
    ensures
        next_pow2(n) >= n,
        next_pow2(n) >= 1,
        is_pow2(next_pow2(n)),
        next_pow2(n) == 1 || next_pow2(n) < 2 * n,
{
    lemma_pow2_at_least(n, 1);
}

/// The smallest power of two that is at least `n`, as
/// `u32::checked_next_power_of_two` gives it; `None` where that exceeds
/// `u32::MAX`.
pub(crate) fn checked_next_pow2(n: u32) -> (r: Option<u32>)
    ensures
        r == (if next_pow2(n as int) <= u32::MAX { Some(next_pow2(n as int) as u32) } else { None::<u32> }),
{
    let mut p: u32 = 1;
    while p < n
        invariant
            p >= 1,
            is_pow2(p as int),
            pow2_at_least(n as int, p as int) == next_pow2(n as int),
        decreases u32::MAX - p,
    {
        if p > u32::MAX / 2 {
            proof {
                assert(is_pow2(2 * p)) by {
                    assert((2 * p) / 2 == p);
                }
                lemma_pow2_at_least(n as int, 2 * p);
            }
            return None;
        }
        proof {
            assert(is_pow2(2 * p)) by {
                assert((2 * p) / 2 == p);
            }
        }
        p = p * 2;
    }
    Some(p)
}

} // verus!
