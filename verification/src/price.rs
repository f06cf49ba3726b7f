//! The staking pool's published price ratio.

use vstd::prelude::*;

verus! {

/// One billion: the fixed scale of the published price.
pub const PRICE_SCALE: u64 = 1_000_000_000;

/// The price of one staked share in pool tokens, as the pair of the ratio
/// scaled by one billion and the whole-number ratio, both rounded down.
///
/// An empty share supply prices at zero rather than failing, and a scaled
/// ratio beyond `u64` saturates at `u64::MAX`.
pub fn calc_price(total_tokens: u64, total_x_tokens: u64) -> (r: (u64, u64))
    ensures
        total_x_tokens == 0 ==> r == (0u64, 0u64),
        total_x_tokens != 0 ==> {
            let scaled = (total_tokens * PRICE_SCALE) / (total_x_tokens as int);
            r.0 == (if scaled <= u64::MAX {
                scaled
            } else {
                u64::MAX as int
            }) && r.1 == total_tokens / total_x_tokens
        },
{
    if total_x_tokens == 0 {
        return (0, 0);
    }
    proof {
        assert((total_tokens as int) * (PRICE_SCALE as int) <= 0xffffffffffffffff
            * 1_000_000_000int) by (nonlinear_arith)
            requires
                total_tokens <= 0xffffffffffffffff,
                PRICE_SCALE == 1_000_000_000,
        ;
    }
    let scaled: u128 = (total_tokens as u128) * (PRICE_SCALE as u128) / (total_x_tokens as u128);
    let scaled_narrow: u64 = if scaled <= 18_446_744_073_709_551_615u128 {
        scaled as u64
    } else {
        18_446_744_073_709_551_615u64
    };
    (scaled_narrow, total_tokens / total_x_tokens)
}

} // verus!
