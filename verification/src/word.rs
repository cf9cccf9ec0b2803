//! Arithmetic in 16-bit words, which wraps around.
use vstd::prelude::*;

verus! {

/// The low 16 bits of a number.
#[verifier::opaque]
pub open spec fn low16(x: int) -> u16 {
    (x % 65536) as u16
}

/// A number below 65536 is its low 16 bits.
pub proof fn lemma_low16_small(x: u16)
    ensures
        low16(x as int) == x,
{
    reveal(low16);
}

/// Adds the low 16 bits of two numbers.
pub(crate) fn add_low16(a: u16, b: u16, Ghost(x): Ghost<int>, Ghost(y): Ghost<int>) -> (r: u16)
    requires
        a == low16(x),
        b == low16(y),
    ensures
        r == low16(x + y),
{
    let r: u16 = a.wrapping_add(b);
    proof {
        reveal(low16);
        assert(x == 65536 * (x / 65536) + a);
        assert(y == 65536 * (y / 65536) + b);
        let q = x / 65536 + y / 65536 + if a + b < 65536 {
            0int
        } else {
            1int
        };
        assert(x + y == q * 65536 + r);
        vstd::arithmetic::div_mod::lemma_fundamental_div_mod_converse(x + y, 65536, q, r as int);
    }
    r
}


/// The low 16 bits are the remainder that 65536 leaves.
pub proof fn law_low16_is_remainder(x: int)
    ensures
        low16(x) == x % 65536,
        0 <= x <= 65535 ==> low16(x) == x,
{
    reveal(low16);
}
} // verus!
