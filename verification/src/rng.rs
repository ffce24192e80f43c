use vstd::prelude::*;
use crate::fx::{Fx, FX_ONE};

verus! {

/// Relies on rand::random: a value of the requested type drawn from the
/// thread's generator. Nothing is assumed about which value comes back.
pub assume_specification<T>[ rand::random::<T> ]() -> (r: T)
    where
        rand::distributions::Standard: rand::distributions::Distribution<T>,
;

/// A fixed-point sample in [0, 1): sixteen random bits become the
/// fractional bits.
pub fn random_unit_interval() -> (r: Fx)
    ensures
        0 <= r.bits < FX_ONE as int,
{
    let raw: u16 = rand::random::<u16>();
    Fx { bits: raw as i64 }
}

/// A fixed-point sample in [-1, 1): `2 * random - 1`.
pub fn random_symmetric() -> (r: Fx)
    ensures
        -(FX_ONE as int) <= r.bits < FX_ONE as int,
{
    let raw: u16 = rand::random::<u16>();
    Fx { bits: (raw as i64) * 2 - FX_ONE }
}

} // verus!
