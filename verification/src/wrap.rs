//! Wrapping 16-bit arithmetic for signal bookkeeping.
//!
//! Signal quantities live in `u16` and the accumulators wrap modulo 2^16: an
//! emitting tile pays its whole rolling sum out of its pending deposit even
//! when the deposit is smaller, so the subtraction must wrap rather than
//! fail. All contracts over signal updates are therefore stated with
//! [`wrap16`].

use vstd::arithmetic::div_mod::{
    lemma_mod_add_multiples_vanish, lemma_mod_sub_multiples_vanish, lemma_small_mod,
};
use vstd::prelude::*;

verus! {

/// The canonical representative of `x` modulo 2^16, always in `[0, 2^16)`.
pub open spec fn wrap16(x: int) -> int {
    x % 0x10000
}

/// Adds two signal values, wrapping modulo 2^16.
pub fn wrapping_add16(a: u16, b: u16) -> (r: u16)
    ensures
        r as int == wrap16(a as int + b as int),
{
    let s: u32 = a as u32 + b as u32;
    if s >= 0x10000 {
        proof {
            lemma_mod_sub_multiples_vanish(a as int + b as int, 0x10000);
            lemma_small_mod((a as int + b as int - 0x10000) as nat, 0x10000nat);
        }
        (s - 0x10000) as u16
    } else {
        proof {
            lemma_small_mod((a as int + b as int) as nat, 0x10000nat);
        }
        s as u16
    }
}

/// Subtracts one signal value from another, wrapping modulo 2^16.
pub fn wrapping_sub16(a: u16, b: u16) -> (r: u16)
    ensures
        r as int == wrap16(a as int - b as int),
{
    if a >= b {
        proof {
            lemma_small_mod((a - b) as nat, 0x10000nat);
        }
        a - b
    } else {
        proof {
            lemma_mod_add_multiples_vanish(a as int - b as int, 0x10000);
            lemma_small_mod((0x10000 + a as int - b as int) as nat, 0x10000nat);
        }
        (0x10000u32 + a as u32 - b as u32) as u16
    }
}

} // verus!
