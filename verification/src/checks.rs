//! The pure decisions of the swap instruction: mint validation, swap
//! direction, slippage enforcement, and post-transfer reconciliation.
//!
//! The surrounding handler moves tokens and re-reads balances; everything it
//! decides is computed here from plain values.

use vstd::prelude::*;

verus! {

/// Failures that reject a swap instruction.
#[derive(Clone, Copy, Debug, PartialEq, Eq, Structural)]
pub enum PoolError {
    /// A token account's mint does not belong to the pool.
    InvalidMintAddress,
    /// A transfer amount fell outside the caller's declared bounds.
    SlippageExceeded,
    /// A custodial balance does not equal the engine's projection.
    InvalidVaultToSwapResultAmounts,
}

/// A token mint address: thirty-two bytes held as two halves.
#[derive(Clone, Copy, Debug, PartialEq, Eq, Structural)]
pub struct MintId {
    /// The first sixteen bytes of the address.
    pub hi: u128,
    /// The last sixteen bytes of the address.
    pub lo: u128,
}

/// Which way a trade crosses the pool.
#[derive(Clone, Copy, Debug, PartialEq, Eq, Structural)]
pub enum SwapDirection {
    /// The trader pays the source token and receives the destination token.
    XToY,
    /// The trader pays the destination token and receives the source token.
    YToX,
}

/// Both token accounts involved must carry one of the pool's two mints:
/// `Ok` exactly when the receiving account's mint and the paying account's
/// mint each match one of them.
pub fn check_mint_addresses(
    user_to_mint: &MintId,
    user_from_mint: &MintId,
    token_x_mint: &MintId,
    token_y_mint: &MintId,
) -> (r: Result<(), PoolError>)
    ensures
        r == (if (user_to_mint == token_x_mint || user_to_mint == token_y_mint) && (user_from_mint
            == token_x_mint || user_from_mint == token_y_mint) {
            Ok::<(), PoolError>(())
        } else {
            Err::<(), PoolError>(PoolError::InvalidMintAddress)
        }),
{
    let to_valid = mint_eq(user_to_mint, token_x_mint) || mint_eq(user_to_mint, token_y_mint);
    let from_valid = mint_eq(user_from_mint, token_x_mint) || mint_eq(
        user_from_mint,
        token_y_mint,
    );
    if to_valid && from_valid {
        Ok(())
    } else {
        Err(PoolError::InvalidMintAddress)
    }
}

/// Whether two mint addresses are the same.
pub fn mint_eq(a: &MintId, b: &MintId) -> (r: bool)
    ensures
        r == (a == b),
{
    a.hi == b.hi && a.lo == b.lo
}

/// The direction of a trade, read off the paying account's mint: the
/// receiving account must then carry the opposite mint, and a mint foreign
/// to the pool rejects the trade.
pub fn swap_direction(
    user_from_mint: &MintId,
    user_to_mint: &MintId,
    token_x_mint: &MintId,
    token_y_mint: &MintId,
) -> (r: Result<SwapDirection, PoolError>)
    ensures
        user_from_mint == token_x_mint ==> r == (if user_to_mint == token_y_mint {
            Ok::<SwapDirection, PoolError>(SwapDirection::XToY)
        } else {
            Err::<SwapDirection, PoolError>(PoolError::InvalidMintAddress)
        }),
        user_from_mint != token_x_mint && user_from_mint == token_y_mint ==> r == (
        if user_to_mint == token_x_mint {
            Ok::<SwapDirection, PoolError>(SwapDirection::YToX)
        } else {
            Err::<SwapDirection, PoolError>(PoolError::InvalidMintAddress)
        }),
        user_from_mint != token_x_mint && user_from_mint != token_y_mint ==> r == Err::<
            SwapDirection,
            PoolError,
        >(PoolError::InvalidMintAddress),
{
    if mint_eq(user_from_mint, token_x_mint) {
        if mint_eq(user_to_mint, token_y_mint) {
            Ok(SwapDirection::XToY)
        } else {
            Err(PoolError::InvalidMintAddress)
        }
    } else if mint_eq(user_from_mint, token_y_mint) {
        if mint_eq(user_to_mint, token_x_mint) {
            Ok(SwapDirection::YToX)
        } else {
            Err(PoolError::InvalidMintAddress)
        }
    } else {
        Err(PoolError::InvalidMintAddress)
    }
}

/// Check amounts are within slippage or return an error: the amount paid
/// out must reach the caller's declared minimum, and the amount paid in
/// must not exceed the caller's declared input.
pub fn check_slippage(
    amount_in: &u64,
    minimum_amount_out: &u64,
    transfer_in_amount: &u64,
    transfer_out_amount: &u64,
) -> (r: Result<(), PoolError>)
    ensures
        r == (if *transfer_out_amount >= *minimum_amount_out && *transfer_in_amount
            <= *amount_in {
            Ok::<(), PoolError>(())
        } else {
            Err::<(), PoolError>(PoolError::SlippageExceeded)
        }),
{
    if transfer_out_amount < minimum_amount_out {
        return Err(PoolError::SlippageExceeded);
    }
    if transfer_in_amount > amount_in {
        return Err(PoolError::SlippageExceeded);
    }
    Ok(())
}

/// After the transfers, each vault balance must equal the engine's
/// ceiling-rounded projection of the corresponding new reserve exactly; any
/// mismatch signals an upstream consistency failure.
pub fn post_transfer_checks(
    x_new_up: u64,
    y_new_up: u64,
    x_vault_amount: u64,
    y_vault_amount: u64,
) -> (r: Result<(), PoolError>)
    ensures
        r == (if x_new_up == x_vault_amount && y_new_up == y_vault_amount {
            Ok::<(), PoolError>(())
        } else {
            Err::<(), PoolError>(PoolError::InvalidVaultToSwapResultAmounts)
        }),
{
    if x_new_up != x_vault_amount {
        return Err(PoolError::InvalidVaultToSwapResultAmounts);
    }
    if y_new_up != y_vault_amount {
        return Err(PoolError::InvalidVaultToSwapResultAmounts);
    }
    Ok(())
}

} // verus!
