//! Pool fee computation with an explicit "no fee" policy.

use vstd::prelude::*;

verus! {

/// Fee owed on `token_amount` given a fee ratio of
/// `fee_numerator / fee_denominator`.
///
/// A zero numerator or zero denominator is a legal "no fee" configuration and
/// yields a fee of zero rather than an error. Otherwise the fee is
/// `floor(token_amount * fee_numerator / fee_denominator)`; `None` is
/// returned exactly when the intermediate product exceeds the `u128` range
/// or the fee itself does not fit `u64` — the fee is never silently
/// truncated.
pub fn calculate_fee(
    token_amount: u128,
    fee_numerator: u128,
    fee_denominator: u128,
) -> (r: Option<u64>)
    ensures
        (fee_numerator == 0 || fee_denominator == 0) ==> r == Some(0u64),
        fee_numerator != 0 && fee_denominator != 0 ==> r == (
        if token_amount * fee_numerator <= u128::MAX && (token_amount * fee_numerator) / (
        fee_denominator as int) <= u64::MAX {
            Some((((token_amount * fee_numerator) / (fee_denominator as int)) as u64))
        } else {
            None::<u64>
        }),
{
    if fee_numerator == 0 || fee_denominator == 0 {
        return Some(0);
    }

    let fee = match token_amount.checked_mul(fee_numerator) {
        Some(product) => product / fee_denominator,
        None => {
            return None;
        },
    };

    if fee <= 18_446_744_073_709_551_615u128 {
        Some(fee as u64)
    } else {
        None
    }
}

} // verus!
