//! Out-of-circuit curve points and the affine group law on plain values.
//!
//! Witness generation needs the curve operations on ordinary field values:
//! reference results for the circuit, and the scaled auxiliary correction
//! points.  Unlike the in-circuit formulas, these may branch freely, so the
//! exceptional cases (identity, doubling, opposite points) are handled and
//! the operation is total.

use vstd::prelude::*;
use vstd::arithmetic::div_mod::*;
use crate::config::CurveConfig;
use crate::field::{
    inv_mod, lemma_inv_mod_unique, lemma_mod_add_any, lemma_mod_eq_iff_sub_zero,
    lemma_mod_sub_any, mod_add, mod_inverse, mod_mul, mod_sub,
};

verus! {

/// An affine point, or the identity of the curve group.
#[derive(Clone, Copy, Debug, PartialEq, Eq, Structural)]
pub enum CurvePoint {
    Infinity,
    Affine { x: u64, y: u64 },
}

/// The chord step of the affine group law: the slope through two points with
/// distinct abscissae, then the third intersection reflected.  Coordinates
/// are reduced residues.
pub open spec fn chord(cfg: &CurveConfig, x1: int, y1: int, x2: int, y2: int) -> (int, int) {
    let p = cfg.base_modulus as int;
    let lam = (inv_mod((x2 - x1) % p, p) * ((y2 - y1) % p)) % p;
    let x3 = (lam * lam - x1 - x2) % p;
    let y3 = (lam * (x1 - x3) - y1) % p;
    (x3, y3)
}

/// The tangent step of the affine group law: doubling a point whose ordinate
/// is not zero.
pub open spec fn tangent(cfg: &CurveConfig, x: int, y: int) -> (int, int) {
    let p = cfg.base_modulus as int;
    let lam = (inv_mod((2 * y) % p, p) * ((3 * (x * x) + cfg.curve_a) % p)) % p;
    let x3 = (lam * lam - 2 * x) % p;
    let y3 = (lam * (x - x3) - y) % p;
    (x3, y3)
}

impl CurvePoint {
    /// Coordinates are reduced field elements.
    pub open spec fn wf(&self, cfg: &CurveConfig) -> bool {
        match *self {
            CurvePoint::Infinity => true,
            CurvePoint::Affine { x, y } => x < cfg.base_modulus && y < cfg.base_modulus,
        }
    }

    pub open spec fn is_affine(&self) -> bool {
        match *self {
            CurvePoint::Infinity => false,
            CurvePoint::Affine { .. } => true,
        }
    }

    /// The curve equation `y^2 = x^3 + a*x + b`, modulo the base modulus.
    pub open spec fn on_curve(&self, cfg: &CurveConfig) -> bool {
        let p = cfg.base_modulus as int;
        match *self {
            CurvePoint::Infinity => true,
            CurvePoint::Affine { x, y } => (y * y) % p == (x * (x * x) + cfg.curve_a * x
                + cfg.curve_b) % p,
        }
    }
}

/// The complete affine group law, total on well-formed points.
pub open spec fn spec_add(cfg: &CurveConfig, p1: CurvePoint, p2: CurvePoint) -> CurvePoint {
    let p = cfg.base_modulus as int;
    match (p1, p2) {
        (CurvePoint::Infinity, _) => p2,
        (_, CurvePoint::Infinity) => p1,
        (CurvePoint::Affine { x: x1, y: y1 }, CurvePoint::Affine { x: x2, y: y2 }) => {
            if x1 == x2 {
                if (y1 + y2) % p == 0 || y1 == 0 {
                    // Opposite ordinates: the chord is vertical.  A zero
                    // ordinate with a non-opposite partner only arises off
                    // the curve and is mapped to the identity as well.
                    CurvePoint::Infinity
                } else {
                    let c = tangent(cfg, x1 as int, y1 as int);
                    CurvePoint::Affine { x: c.0 as u64, y: c.1 as u64 }
                }
            } else {
                let c = chord(cfg, x1 as int, y1 as int, x2 as int, y2 as int);
                CurvePoint::Affine { x: c.0 as u64, y: c.1 as u64 }
            }
        },
    }
}

/// The negation of a point: same abscissa, negated ordinate.
pub open spec fn spec_neg(cfg: &CurveConfig, pt: CurvePoint) -> CurvePoint {
    let p = cfg.base_modulus as int;
    match pt {
        CurvePoint::Infinity => CurvePoint::Infinity,
        CurvePoint::Affine { x, y } => CurvePoint::Affine { x, y: ((0 - y) % p) as u64 },
    }
}

/// Scalar multiplication by binary double-and-add.
pub open spec fn spec_mul(cfg: &CurveConfig, s: nat, pt: CurvePoint) -> CurvePoint
    decreases s,
{
    if s == 0 {
        CurvePoint::Infinity
    } else {
        let r = spec_mul(cfg, s / 2, spec_add(cfg, pt, pt));
        if s % 2 == 1 {
            spec_add(cfg, r, pt)
        } else {
            r
        }
    }
}

/// Multiplying by one gives the point back.
pub proof fn lemma_spec_mul_one(cfg: &CurveConfig, pt: CurvePoint)
    ensures
        spec_mul(cfg, 1, pt) == pt,
{
    assert(spec_mul(cfg, 0nat, spec_add(cfg, pt, pt)) == CurvePoint::Infinity);
}

/// The modulus is odd, so a doubled nonzero ordinate stays nonzero.
pub proof fn lemma_odd_modulus(cfg: &CurveConfig)
    requires
        cfg.wf(),
    ensures
        (cfg.base_modulus as int) % 2 != 0,
{
    if cfg.base_modulus > 3 {
        assert((cfg.base_modulus as nat) % 2 != 0);
    }
}

/// Group-law addition on plain values, total on well-formed points.
pub fn value_add(cfg: &CurveConfig, a: &CurvePoint, b: &CurvePoint) -> (r: CurvePoint)
    requires
        cfg.wf(),
        a.wf(cfg),
        b.wf(cfg),
    ensures
        r == spec_add(cfg, *a, *b),
        r.wf(cfg),
{
    let p = cfg.base_modulus;
    let ghost pi = p as int;
    match (*a, *b) {
        (CurvePoint::Infinity, _) => *b,
        (_, CurvePoint::Infinity) => *a,
        (CurvePoint::Affine { x: x1, y: y1 }, CurvePoint::Affine { x: x2, y: y2 }) => {
            if x1 == x2 {
                let ys = mod_add(y1, y2, p);
                if ys == 0 || y1 == 0 {
                    CurvePoint::Infinity
                } else {
                    // Tangent step; the doubled nonzero ordinate stays
                    // nonzero because the modulus is odd.
                    let xx = mod_mul(x1, x1, p);
                    let txx = mod_add(mod_add(xx, xx, p), xx, p);
                    let num = mod_add(txx, cfg.curve_a, p);
                    let den = mod_add(y1, y1, p);
                    proof {
                        assert(den == (2 * y1) % pi) by {
                            assert(y1 + y1 == 2 * y1);
                        }
                        assert(den != 0) by {
                            lemma_odd_modulus(cfg);
                            if y1 + y1 < p {
                                lemma_small_mod((y1 + y1) as nat, p as nat);
                            } else {
                                lemma_mod_add_multiples_vanish((y1 + y1 - pi) as int, pi);
                                lemma_small_mod((y1 + y1 - p) as nat, p as nat);
                                if y1 + y1 == p {
                                    assert(pi % 2 == 0) by {
                                        lemma_mod_multiples_basic(y1 as int, 2);
                                        assert(y1 * 2 == y1 + y1);
                                    }
                                }
                            }
                        }
                        // num is (3 x^2 + a) reduced.
                        assert(num == (3 * ((x1 as int) * (x1 as int)) + cfg.curve_a) % pi) by {
                            lemma_mul_mod_noop_general(x1 as int, x1 as int, pi);
                            lemma_mod_add_any((x1 as int) * (x1 as int), (x1 as int) * (x1 as int), pi);
                            lemma_mod_add_any(
                                2 * ((x1 as int) * (x1 as int)),
                                (x1 as int) * (x1 as int),
                                pi,
                            );
                            lemma_mod_add_any(3 * ((x1 as int) * (x1 as int)), cfg.curve_a as int, pi);
                            lemma_small_mod(cfg.curve_a as nat, p as nat);
                        }
                    }
                    let inv = mod_inverse(den, p);
                    let lam = mod_mul(inv, num, p);
                    let x3 = mod_sub(mod_sub(mod_mul(lam, lam, p), x1, p), x1, p);
                    let y3 = mod_sub(mod_mul(lam, mod_sub(x1, x3, p), p), y1, p);
                    proof {
                        lemma_inv_mod_unique(den as int, pi, inv as int);
                        let lam_s = (inv_mod((2 * y1) % pi, pi) * ((3 * ((x1 as int) * (x1 as int))
                            + cfg.curve_a) % pi)) % pi;
                        assert(lam == lam_s);
                        let t = tangent(cfg, x1 as int, y1 as int);
                        assert(x3 == t.0) by {
                            lemma_mod_sub_any((lam as int) * (lam as int), x1 as int, pi);
                            lemma_mod_sub_any((lam as int) * (lam as int) - x1, x1 as int, pi);
                            assert((lam as int) * (lam as int) - x1 - x1 == (lam as int) * (lam as int)
                                - 2 * (x1 as int));
                        }
                        assert(y3 == t.1) by {
                            lemma_mod_sub_any(x1 as int, x3 as int, pi);
                            lemma_mul_mod_noop_general(lam as int, (x1 - x3) as int, pi);
                            lemma_mod_sub_any((lam as int) * ((x1 - x3) as int), y1 as int, pi);
                        }
                    }
                    CurvePoint::Affine { x: x3, y: y3 }
                }
            } else {
                let den = mod_sub(x2, x1, p);
                let num = mod_sub(y2, y1, p);
                proof {
                    lemma_mod_eq_iff_sub_zero(x2 as int, x1 as int, pi);
                    lemma_small_mod(x1 as nat, p as nat);
                    lemma_small_mod(x2 as nat, p as nat);
                }
                let inv = mod_inverse(den, p);
                let lam = mod_mul(inv, num, p);
                let x3 = mod_sub(mod_sub(mod_mul(lam, lam, p), x1, p), x2, p);
                let y3 = mod_sub(mod_mul(lam, mod_sub(x1, x3, p), p), y1, p);
                proof {
                    lemma_inv_mod_unique(den as int, pi, inv as int);
                    let c = chord(cfg, x1 as int, y1 as int, x2 as int, y2 as int);
                    assert(x3 == c.0) by {
                        lemma_mod_sub_any((lam as int) * (lam as int), x1 as int, pi);
                        lemma_mod_sub_any((lam as int) * (lam as int) - x1, x2 as int, pi);
                    }
                    assert(y3 == c.1) by {
                        lemma_mod_sub_any(x1 as int, x3 as int, pi);
                        lemma_mul_mod_noop_general(lam as int, (x1 - x3) as int, pi);
                        lemma_mod_sub_any((lam as int) * ((x1 - x3) as int), y1 as int, pi);
                    }
                }
                CurvePoint::Affine { x: x3, y: y3 }
            }
        },
    }
}

/// Negation on plain values.
pub fn value_neg(cfg: &CurveConfig, a: &CurvePoint) -> (r: CurvePoint)
    requires
        cfg.wf(),
        a.wf(cfg),
    ensures
        r == spec_neg(cfg, *a),
        r.wf(cfg),
{
    let p = cfg.base_modulus;
    match *a {
        CurvePoint::Infinity => CurvePoint::Infinity,
        CurvePoint::Affine { x, y } => {
            let ny = mod_sub(0, y, p);
            CurvePoint::Affine { x, y: ny }
        },
    }
}

/// Scalar multiplication on plain values, by binary double-and-add.
pub fn value_mul(cfg: &CurveConfig, s: u64, a: &CurvePoint) -> (r: CurvePoint)
    requires
        cfg.wf(),
        a.wf(cfg),
    ensures
        r == spec_mul(cfg, s as nat, *a),
        r.wf(cfg),
    decreases s,
{
    if s == 0 {
        CurvePoint::Infinity
    } else {
        let d = value_add(cfg, a, a);
        let r = value_mul(cfg, s / 2, &d);
        if s % 2 == 1 {
            value_add(cfg, &r, a)
        } else {
            r
        }
    }
}

} // verus!
