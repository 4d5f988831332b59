use vstd::arithmetic::power2::{lemma2_to64, lemma_pow2_strictly_increases, lemma_pow2_unfold, pow2};
use vstd::prelude::*;

verus! {

/// The largest capacity a table is ever sized to.
pub const MAXIMUM_CAPACITY: usize = 0x8000_0000;

/// `p` is a power of two.
pub open spec fn is_power_of_two(p: nat) -> bool {
    exists|k: nat| pow2(k) == p
}

/// Rounds a requested capacity up to the smallest power of two that holds it,
/// never above `MAXIMUM_CAPACITY`; zero rounds up to one.
pub fn next_power_of_two(num: usize) -> (r: usize)
    ensures
        is_power_of_two(r as nat),
        1 <= r <= MAXIMUM_CAPACITY,
        num <= MAXIMUM_CAPACITY ==> r >= num && (r == 1 || r / 2 < num),
        num > MAXIMUM_CAPACITY ==> r == MAXIMUM_CAPACITY,
{
    proof {
        lemma2_to64();
    }
    if num > MAXIMUM_CAPACITY {
        assert(pow2(31) == MAXIMUM_CAPACITY);
        return MAXIMUM_CAPACITY;
    }
    let mut value: usize = 1;
    let ghost mut k: nat = 0;
    while value < num
        invariant
            1 <= value <= MAXIMUM_CAPACITY,
            value == pow2(k),
            k <= 31,
            num <= MAXIMUM_CAPACITY,
            value == 1 || value / 2 < num,
            pow2(31) == MAXIMUM_CAPACITY,
        decreases 31 - k,
    {
        proof {
            if k >= 31 {
                if k > 31 {
                    lemma_pow2_strictly_increases(31, k);
                }
                assert(false);
            }
            lemma_pow2_unfold(k + 1);
            if k + 1 < 31 {
                lemma_pow2_strictly_increases(k + 1, 31);
            }
        }
        value = value * 2;
        proof {
            k = k + 1;
        }
    }
    value
}

} // verus!
