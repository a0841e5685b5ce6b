//! Per-circuit curve parameters, fixed at construction time.

use vstd::prelude::*;
use crate::field::{check_prime, is_prime};

verus! {

/// Largest admissible overflow bound of a single limb.  Keeping every limb
/// strictly below it lets two integers be added limb-wise in `u128` without
/// wrapping, and keeps residue evaluation exact.
pub const MAX_LIMB_BOUND: u128 = 85070591730234615865843651857942052864;

/// Parameters of one circuit instance: the short-Weierstrass curve
/// `y^2 = x^3 + curve_a * x + curve_b` over the base field of prime order
/// `base_modulus`, the limb shape used to represent base-field elements, and
/// the bit length of scalars.
#[derive(Clone, Copy, Debug)]
pub struct CurveConfig {
    pub base_modulus: u64,
    pub curve_a: u64,
    pub curve_b: u64,
    pub limb_count: usize,
    pub limb_bit_width: u32,
    pub scalar_bits: u32,
}

impl CurveConfig {
    /// The parameter ranges every operation relies on.
    pub open spec fn wf(&self) -> bool {
        &&& is_prime(self.base_modulus as nat)
        &&& 3 <= self.base_modulus
        &&& self.base_modulus < 0x4000000000000000u64
        &&& self.curve_a < self.base_modulus
        &&& self.curve_b < self.base_modulus
        &&& 1 <= self.limb_count <= 8
        &&& 1 <= self.limb_bit_width <= 120
        &&& (self.limb_count as int) * (self.limb_bit_width as int) >= 62
        &&& 1 <= self.scalar_bits <= 40
    }

    /// Validates and fixes a parameter set.  `None` exactly when some
    /// parameter is out of range or the claimed modulus is not prime.
    pub fn new(
        base_modulus: u64,
        curve_a: u64,
        curve_b: u64,
        limb_count: usize,
        limb_bit_width: u32,
        scalar_bits: u32,
    ) -> (r: Option<CurveConfig>)
        ensures
            match r {
                Some(cfg) => cfg.wf() && cfg == (CurveConfig {
                    base_modulus,
                    curve_a,
                    curve_b,
                    limb_count,
                    limb_bit_width,
                    scalar_bits,
                }),
                None => !(CurveConfig {
                    base_modulus,
                    curve_a,
                    curve_b,
                    limb_count,
                    limb_bit_width,
                    scalar_bits,
                }).wf(),
            },
    {
        let cfg = CurveConfig { base_modulus, curve_a, curve_b, limb_count, limb_bit_width, scalar_bits };
        if base_modulus < 3 || base_modulus >= 0x4000000000000000u64 {
            return None;
        }
        if curve_a >= base_modulus || curve_b >= base_modulus {
            return None;
        }
        if limb_count < 1 || limb_count > 8 {
            return None;
        }
        if limb_bit_width < 1 || limb_bit_width > 120 {
            return None;
        }
        proof {
            assert((limb_count as int) * (limb_bit_width as int) <= 960) by (nonlinear_arith)
                requires 1 <= limb_count <= 8, 1 <= limb_bit_width <= 120;
        }
        if (limb_count as u64) * (limb_bit_width as u64) < 62 {
            return None;
        }
        if scalar_bits < 1 || scalar_bits > 40 {
            return None;
        }
        if !check_prime(base_modulus) {
            return None;
        }
        Some(cfg)
    }
}

} // verus!
