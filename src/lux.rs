//! Fixed-point conversion from raw channel counts to illuminance.
use vstd::prelude::*;
use crate::chip;
use crate::settings::{is_gain_multiplier, is_integration_millis, AlsData};

verus! {

/// Illuminance as `integer + fractional / 1_000_000` lux.
#[derive(Clone, Copy, Debug, PartialEq, Eq, Structural)]
pub struct Lux {
    /// Integer component of lux.
    pub integer: i32,
    /// Fractional component of lux, in millionths.
    pub fractional: i32,
}

/// Quotient of `a / b` rounded toward zero, as machine division gives it.
pub open spec fn div_toward_zero(a: int, b: int) -> int {
    if a >= 0 {
        a / b
    } else {
        -((-a) / b)
    }
}

/// Remainder that goes with `div_toward_zero`; it takes the sign of `a`.
pub open spec fn rem_toward_zero(a: int, b: int) -> int {
    if a >= 0 {
        a % b
    } else {
        -((-a) % b)
    }
}

/// Counts per lux, scaled by one million.
pub open spec fn counts_per_lux(gain_multiplier: u16, integration_ms: u16) -> int {
    integration_ms * gain_multiplier * 1_000_000
}

/// Scaled signal strength of a reading.
pub open spec fn strength(visible: u16, infrared: u16) -> int {
    if visible == 0 {
        0
    } else {
        (visible - infrared) * (1_000_000 - (infrared * 1_000_000) / (visible as int))
            * chip::LUX_DF
    }
}

/// The illuminance of a reading under the given gain and integration time.
pub open spec fn lux_of(als: AlsData, gain_multiplier: u16, integration_ms: u16) -> Lux {
    let s = strength(als.visible, als.infrared);
    let cpl = counts_per_lux(gain_multiplier, integration_ms);
    Lux {
        integer: div_toward_zero(s, cpl) as i32,
        fractional: div_toward_zero(rem_toward_zero(s, cpl) * 1_000_000, cpl) as i32,
    }
}

/// Converts a raw reading to lux with integer arithmetic alone.
pub fn compute_lux(als: AlsData, gain_multiplier: u16, integration_ms: u16) -> (r: Lux)
    requires
        is_gain_multiplier(gain_multiplier),
        is_integration_millis(integration_ms),
    ensures
        r == lux_of(als, gain_multiplier, integration_ms),
        als.visible == 0 ==> r.integer == 0 && r.fractional == 0,
{
    assert(1 <= integration_ms * gain_multiplier <= 600 * 9200) by (nonlinear_arith)
        requires 1 <= integration_ms <= 600, 1 <= gain_multiplier <= 9200;
    let cpl: i64 = (integration_ms as i64 * gain_multiplier as i64) * 1_000_000;
    let strength: i64 = if als.visible > 0 {
        let v = als.visible as i64;
        let ir = als.infrared as i64;
        assert(0 <= ir * 1_000_000 <= 65535 * 1_000_000) by (nonlinear_arith)
            requires 0 <= ir <= 65535;
        let ratio: i64 = (ir * 1_000_000) / v;
        assert(0 <= ratio <= ir * 1_000_000) by (nonlinear_arith)
            requires v >= 1, ir >= 0, ratio as int == (ir * 1_000_000) as int / (v as int);
        let diff: i64 = v - ir;
        let scale: i64 = 1_000_000 - ratio;
        assert(-65535 * 65535 * 1_000_000 * 408 <= diff * scale * 408 <= 65535 * 65535 * 1_000_000 * 408) by (nonlinear_arith)
            requires -65535 <= diff <= 65535, -65535 * 1_000_000 <= scale <= 1_000_000;
        diff * scale * chip::LUX_DF as i64
    } else {
        0
    };
    let integer: i64 = strength / cpl;
    let rem: i64 = strength % cpl;
    assert(-cpl < rem < cpl);
    assert(-cpl * 1_000_000 < rem * 1_000_000 < cpl * 1_000_000) by (nonlinear_arith)
        requires -cpl < rem < cpl;
    let fractional: i64 = (rem * 1_000_000) / cpl;
    Lux { integer: #[verifier::truncate] (integer as i32), fractional: #[verifier::truncate] (fractional as i32) }
}

} // verus!
