//! The outcome of one swap computation.

use vstd::arithmetic::div_mod::lemma_div_is_ordered;
use vstd::prelude::*;

use crate::error::MathError;
use crate::fixed::{FixedPoint, HALF, ONE};

verus! {

/// Encodes all results of swapping from a source token to a destination
/// token. Each reserve and trade amount is exposed both rounded down (the
/// amount actually paid out) and rounded up (the balance the custodian must
/// show), so the caller can reconcile real balances against the
/// computation.
#[derive(Clone, Copy, Debug, PartialEq, Eq, Structural)]
pub struct SwapResult {
    /// Invariant expressed as k.
    pub k: FixedPoint,
    /// New source amount expressed as x_new.
    pub x_new: FixedPoint,
    /// New destination amount expressed as y_new.
    pub y_new: FixedPoint,
    /// Amount of source token swapped expressed as delta_x.
    pub delta_x: FixedPoint,
    /// Amount of destination token swapped expressed as delta_y.
    pub delta_y: FixedPoint,
}

impl SwapResult {
    /// The destination amount as a plain integer, biased up by half a unit
    /// before truncating; `None` exactly when that integer does not fit
    /// `u64`.
    pub fn delta_y(&self) -> (r: Option<u64>)
        ensures
            r == (if (self.delta_y.val() + HALF) / (ONE as int) <= u64::MAX {
                Some((((self.delta_y.val() + HALF) / (ONE as int)) as u64))
            } else {
                None::<u64>
            }),
    {
        narrow_imprecise_u64(&self.delta_y)
    }

    /// The source amount as a plain integer, biased up by half a unit
    /// before truncating; `None` exactly when that integer does not fit
    /// `u64`.
    pub fn delta_x(&self) -> (r: Option<u64>)
        ensures
            r == (if (self.delta_x.val() + HALF) / (ONE as int) <= u64::MAX {
                Some((((self.delta_x.val() + HALF) / (ONE as int)) as u64))
            } else {
                None::<u64>
            }),
    {
        narrow_imprecise_u64(&self.delta_x)
    }

    /// The source amount rounded down, the direction paid to a trader.
    pub fn delta_x_down(&self) -> (r: Result<u64, MathError>)
        ensures
            r == floor_u64_spec(self.delta_x.val()),
    {
        self.delta_x.floor_u64()
    }

    /// The destination amount rounded down, the direction paid to a trader.
    pub fn delta_y_down(&self) -> (r: Result<u64, MathError>)
        ensures
            r == floor_u64_spec(self.delta_y.val()),
    {
        self.delta_y.floor_u64()
    }

    /// The source amount rounded up.
    pub fn delta_x_up(&self) -> (r: Result<u64, MathError>)
        ensures
            r == ceil_u64_spec(self.delta_x.val()),
    {
        self.delta_x.ceil_u64()
    }

    /// The destination amount rounded up.
    pub fn delta_y_up(&self) -> (r: Result<u64, MathError>)
        ensures
            r == ceil_u64_spec(self.delta_y.val()),
    {
        self.delta_y.ceil_u64()
    }

    /// The new source reserve rounded down.
    pub fn x_new_down(&self) -> (r: Result<u64, MathError>)
        ensures
            r == floor_u64_spec(self.x_new.val()),
    {
        self.x_new.floor_u64()
    }

    /// The new destination reserve rounded down.
    pub fn y_new_down(&self) -> (r: Result<u64, MathError>)
        ensures
            r == floor_u64_spec(self.y_new.val()),
    {
        self.y_new.floor_u64()
    }

    /// The new source reserve rounded up, the balance the source vault must
    /// show after the trade.
    pub fn x_new_up(&self) -> (r: Result<u64, MathError>)
        ensures
            r == ceil_u64_spec(self.x_new.val()),
    {
        self.x_new.ceil_u64()
    }

    /// The new destination reserve rounded up, the balance the destination
    /// vault must show after the trade.
    pub fn y_new_up(&self) -> (r: Result<u64, MathError>)
        ensures
            r == ceil_u64_spec(self.y_new.val()),
    {
        self.y_new.ceil_u64()
    }

    /// The invariant value rounded down.
    pub fn k_down(&self) -> (r: Result<u64, MathError>)
        ensures
            r == floor_u64_spec(self.k.val()),
    {
        self.k.floor_u64()
    }

    /// The invariant value rounded up.
    pub fn k_up(&self) -> (r: Result<u64, MathError>)
        ensures
            r == ceil_u64_spec(self.k.val()),
    {
        self.k.ceil_u64()
    }
}

/// What a floor projection returns for a magnitude `v`.
pub open spec fn floor_u64_spec(v: int) -> Result<u64, MathError> {
    if v / (ONE as int) <= u64::MAX {
        Ok((v / (ONE as int)) as u64)
    } else {
        Err(MathError::Unrepresentable)
    }
}

/// What a ceiling projection returns for a magnitude `v`.
pub open spec fn ceil_u64_spec(v: int) -> Result<u64, MathError> {
    if (v + ONE - 1) / (ONE as int) <= u64::MAX {
        Ok(((v + ONE - 1) / (ONE as int)) as u64)
    } else {
        Err(MathError::Unrepresentable)
    }
}

/// The floor projection of a value never exceeds its ceiling projection:
/// the amount paid to a trader never exceeds the amount the pool is
/// reconciled against.
pub proof fn lemma_floor_le_ceil(v: int)
    requires
        v >= 0,
    ensures
        v / (ONE as int) <= (v + ONE - 1) / (ONE as int),
{
    lemma_div_is_ordered(v, v + ONE - 1, ONE as int);
}

/// Narrows to whole units with the half-unit upward bias, into `u64`.
fn narrow_imprecise_u64(a: &FixedPoint) -> (r: Option<u64>)
    ensures
        r == (if (a.val() + HALF) / (ONE as int) <= u64::MAX {
            Some((((a.val() + HALF) / (ONE as int)) as u64))
        } else {
            None::<u64>
        }),
{
    match a.to_imprecise() {
        Ok(whole) => {
            if whole <= 18_446_744_073_709_551_615u128 {
                Some(whole as u64)
            } else {
                None
            }
        },
        Err(_) => None,
    }
}

} // verus!
