//! Volume proxies for price observations.
//!
//! When a trade accompanies an update, the event-exact normalized trade
//! amount is the volume. When only a reserve change is visible, a documented
//! heuristic stands in: one tenth of a percent of the combined normalized
//! reserves is assumed to have turned over per update.

use vstd::prelude::*;
use crate::digits::BigNat;
use crate::digits::pow10;
use crate::rat::Rat;
use crate::rat::RatV;

verus! {

/// The exact reserve-heuristic volume value:
/// `(reserve0 * 10^d1 + reserve1 * 10^d0) * 10^-(d0 + d1 + 3)`.
pub open spec fn reserves_volume_v(reserve0: nat, reserve1: nat, d0: nat, d1: nat) -> RatV {
    RatV { n: reserve0 * pow10(d1) + reserve1 * pow10(d0), d: 1, e: -(d0 + d1 + 3) }
}

/// The exact swap volume value: the normalized input amount.
pub open spec fn swap_volume_v(amount_in: nat, decimals_in: nat) -> RatV {
    RatV { n: amount_in, d: 1, e: -(decimals_in as int) }
}

/// Heuristic volume proxy from reserve magnitudes:
/// `(reserve0 / 10^decimals0 + reserve1 / 10^decimals1) * 0.001` exactly,
/// computed as `(reserve0 * 10^decimals1 + reserve1 * 10^decimals0)
/// * 10^-(decimals0 + decimals1 + 3)`. An approximation by design; used
/// only when no trade data accompanies the update.
pub fn estimate_from_reserves(reserve0: u128, reserve1: u128, decimals0: u8, decimals1: u8) -> (r:
    Rat)
    ensures
        r.wf(),
        r.den == 1,
        r@ == reserves_volume_v(
            reserve0 as nat,
            reserve1 as nat,
            decimals0 as nat,
            decimals1 as nat,
        ),
{
    let left = BigNat::from_u128(reserve0).shl10(decimals1 as usize);
    let right = BigNat::from_u128(reserve1).shl10(decimals0 as usize);
    let total = left.add(&right);
    Rat::decimal(total, -(decimals0 as i32 + decimals1 as i32 + 3))
}

/// Event-exact volume proxy from an actual trade: the normalized amount on
/// the input side, `amount_in / 10^decimals_in`. Preferred over the reserve
/// heuristic whenever a trade event is available for the update.
pub fn estimate_from_swap(amount_in: u128, amount_out: u128, decimals_in: u8, decimals_out: u8)
    -> (r: Rat)
    ensures
        r.wf(),
        r.den == 1,
        r@ == swap_volume_v(amount_in as nat, decimals_in as nat),
{
    let _ = amount_out;
    let _ = decimals_out;
    Rat::decimal(BigNat::from_u128(amount_in), -(decimals_in as i32))
}

} // verus!
