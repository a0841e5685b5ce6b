//! In-circuit affine points over foreign-field coordinates.
//!
//! An assigned point is a pair of foreign-field integers.  The circuit
//! cannot branch on witness values, so addition and doubling use the bare
//! chord and tangent formulas and are undefined on coincident or opposite
//! operands: there the witnessed inversion fails and the construction
//! aborts.  Scalar multiplication keeps its intermediates away from those
//! cases with an auxiliary offset; see the chip module.

use vstd::prelude::*;
use vstd::arithmetic::div_mod::*;
use vstd::arithmetic::power2::pow2;
use crate::config::CurveConfig;
use crate::curve::{chord, spec_add, tangent, CurvePoint};
use crate::field::{
    inv_mod, lemma_inv_mod_unique, lemma_mod_add_any, lemma_mod_eq_iff_sub_zero, lemma_mod_sub_any,
};
use crate::integer::Fint;
use crate::EccError;

verus! {

/// The abscissa of an affine point, as a plain value.
pub open spec fn pt_x(pt: CurvePoint) -> int {
    match pt {
        CurvePoint::Infinity => 0,
        CurvePoint::Affine { x, y } => x as int,
    }
}

/// The ordinate of an affine point, as a plain value.
pub open spec fn pt_y(pt: CurvePoint) -> int {
    match pt {
        CurvePoint::Infinity => 0,
        CurvePoint::Affine { x, y } => y as int,
    }
}

/// A witnessed curve point: two foreign-field coordinates.  Assigning does
/// not check the curve equation; a caller assigning an untrusted point must
/// assert it separately.
#[derive(Debug, PartialEq, Eq)]
pub struct AssignedPoint {
    pub x: Fint,
    pub y: Fint,
}

impl AssignedPoint {
    pub open spec fn wf(&self, cfg: &CurveConfig) -> bool {
        &&& self.x.wf(cfg)
        &&& self.y.wf(cfg)
    }

    /// The reduced abscissa this point denotes.
    pub open spec fn xr(&self, cfg: &CurveConfig) -> int {
        self.x.residue(cfg)
    }

    /// The reduced ordinate this point denotes.
    pub open spec fn yr(&self, cfg: &CurveConfig) -> int {
        self.y.residue(cfg)
    }

    /// The plain-value point this assignment denotes.
    pub open spec fn as_value(&self, cfg: &CurveConfig) -> CurvePoint {
        CurvePoint::Affine { x: self.xr(cfg) as u64, y: self.yr(cfg) as u64 }
    }

    /// An explicit copy denoting the same point.
    pub fn duplicate(&self) -> (r: AssignedPoint)
        ensures
            r.x.limbs@ == self.x.limbs@,
            r.x.limb_bound == self.x.limb_bound,
            r.y.limbs@ == self.y.limbs@,
            r.y.limb_bound == self.y.limb_bound,
    {
        AssignedPoint { x: self.x.duplicate(), y: self.y.duplicate() }
    }

    /// Witnesses the two coordinates of an affine point.  The identity has
    /// no affine coordinates and cannot be assigned; out-of-range
    /// coordinates fail their range check.
    pub fn assign_point(cfg: &CurveConfig, pt: &CurvePoint) -> (r: Result<AssignedPoint, EccError>)
        requires
            cfg.wf(),
        ensures
            match r {
                Ok(ap) => pt.is_affine() && pt.wf(cfg) && ap.wf(cfg) && ap.x.canonical(cfg)
                    && ap.y.canonical(cfg) && ap.as_value(cfg) == *pt,
                Err(e) => (!pt.is_affine() && e == EccError::UnsatisfiableConstraint) || (
                pt.is_affine() && !pt.wf(cfg) && e == EccError::RangeCheckFailure),
            },
    {
        match *pt {
            CurvePoint::Infinity => Err(EccError::UnsatisfiableConstraint),
            CurvePoint::Affine { x, y } => {
                let fx = match Fint::assign(cfg, x) {
                    Ok(f) => f,
                    Err(e) => {
                        return Err(e);
                    },
                };
                let fy = match Fint::assign(cfg, y) {
                    Ok(f) => f,
                    Err(e) => {
                        return Err(e);
                    },
                };
                proof {
                    lemma_small_mod(x as nat, cfg.base_modulus as nat);
                    lemma_small_mod(y as nat, cfg.base_modulus as nat);
                }
                Ok(AssignedPoint { x: fx, y: fy })
            },
        }
    }

    /// Chord addition: defined exactly when the reduced abscissae differ;
    /// coincident abscissae make the witnessed inversion unsatisfiable.
    pub fn add(&self, cfg: &CurveConfig, other: &AssignedPoint) -> (r: Result<
        AssignedPoint,
        EccError,
    >)
        requires
            cfg.wf(),
            self.wf(cfg),
            other.wf(cfg),
        ensures
            match r {
                Ok(rp) => self.xr(cfg) != other.xr(cfg) && rp.wf(cfg) && rp.x.canonical(cfg)
                    && rp.y.canonical(cfg) && (rp.xr(cfg), rp.yr(cfg)) == chord(
                    cfg,
                    self.xr(cfg),
                    self.yr(cfg),
                    other.xr(cfg),
                    other.yr(cfg),
                ),
                Err(e) => self.xr(cfg) == other.xr(cfg) && e == EccError::UnsatisfiableConstraint,
            },
    {
        let ghost pi = cfg.base_modulus as int;
        let ghost x1 = self.x.as_int(cfg);
        let ghost y1 = self.y.as_int(cfg);
        let ghost x2 = other.x.as_int(cfg);
        let ghost y2 = other.y.as_int(cfg);
        let dx = other.x.sub_mod(cfg, &self.x);
        proof {
            lemma_mod_eq_iff_sub_zero(x2, x1, pi);
            lemma_small_mod(dx.as_int(cfg) as nat, cfg.base_modulus as nat);
        }
        let inv = match dx.invert(cfg) {
            Ok(f) => f,
            Err(_) => {
                return Err(EccError::UnsatisfiableConstraint);
            },
        };
        let num = other.y.sub_mod(cfg, &self.y);
        let lam = inv.mul_mod(cfg, &num);
        let ll = lam.mul_mod(cfg, &lam);
        let t0 = ll.sub_mod(cfg, &self.x);
        let x3 = t0.sub_mod(cfg, &other.x);
        let t1 = self.x.sub_mod(cfg, &x3);
        let t2 = lam.mul_mod(cfg, &t1);
        let y3 = t2.sub_mod(cfg, &self.y);
        proof {
            let p = cfg.base_modulus as nat;
            let x1r = x1 % pi;
            let y1r = y1 % pi;
            let x2r = x2 % pi;
            let y2r = y2 % pi;
            lemma_small_mod(inv.as_int(cfg) as nat, p);
            lemma_small_mod(lam.as_int(cfg) as nat, p);
            lemma_small_mod(ll.as_int(cfg) as nat, p);
            lemma_small_mod(num.as_int(cfg) as nat, p);
            lemma_small_mod(t0.as_int(cfg) as nat, p);
            lemma_small_mod(x3.as_int(cfg) as nat, p);
            lemma_small_mod(t1.as_int(cfg) as nat, p);
            lemma_small_mod(t2.as_int(cfg) as nat, p);
            lemma_small_mod(y3.as_int(cfg) as nat, p);
            // The inverse witness pins down the slope denominator.
            lemma_mod_sub_any(x2, x1, pi);
            assert(dx.residue(cfg) == (x2r - x1r) % pi);
            lemma_inv_mod_unique((x2r - x1r) % pi, pi, inv.as_int(cfg));
            // The slope numerator.
            lemma_mod_sub_any(y2, y1, pi);
            assert(num.as_int(cfg) == (y2r - y1r) % pi);
            let lam_s = (inv_mod((x2r - x1r) % pi, pi) * ((y2r - y1r) % pi)) % pi;
            assert(lam.as_int(cfg) == lam_s);
            let c = chord(cfg, x1r, y1r, x2r, y2r);
            // Abscissa of the result.
            assert(t0.as_int(cfg) == (lam_s * lam_s - x1) % pi) by {
                lemma_mod_sub_any(lam_s * lam_s, x1, pi);
            }
            assert(x3.as_int(cfg) == (lam_s * lam_s - x1 - x2) % pi) by {
                lemma_mod_sub_any(lam_s * lam_s - x1, x2, pi);
            }
            assert(x3.as_int(cfg) == c.0) by {
                lemma_mod_sub_any(lam_s * lam_s - x1, x2, pi);
                lemma_mod_sub_any(lam_s * lam_s - x2r, x1, pi);
                assert(lam_s * lam_s - x1 - x2r == lam_s * lam_s - x2r - x1);
                assert(lam_s * lam_s - x2r - x1r == lam_s * lam_s - x1r - x2r);
            }
            // Ordinate of the result.
            assert(t1.as_int(cfg) == (x1r - c.0) % pi) by {
                lemma_mod_sub_any(x1, x3.as_int(cfg), pi);
            }
            assert(t2.as_int(cfg) == (lam_s * (x1r - c.0)) % pi) by {
                lemma_mul_mod_noop_right(lam_s, (x1r - c.0) as int, pi);
            }
            assert(y3.as_int(cfg) == c.1) by {
                lemma_mod_sub_any(lam_s * (x1r - c.0), y1, pi);
                lemma_mod_sub_any(lam_s * (x1r - c.0), y1r, pi);
            }
        }
        Ok(AssignedPoint { x: x3, y: y3 })
    }

    /// Tangent doubling: defined exactly when the reduced ordinate is
    /// nonzero; a zero ordinate makes the witnessed inversion unsatisfiable.
    pub fn double(&self, cfg: &CurveConfig) -> (r: Result<AssignedPoint, EccError>)
        requires
            cfg.wf(),
            self.wf(cfg),
        ensures
            match r {
                Ok(rp) => self.yr(cfg) != 0 && rp.wf(cfg) && rp.x.canonical(cfg) && rp.y.canonical(
                    cfg,
                ) && (rp.xr(cfg), rp.yr(cfg)) == tangent(cfg, self.xr(cfg), self.yr(cfg)),
                Err(e) => self.yr(cfg) == 0 && e == EccError::UnsatisfiableConstraint,
            },
    {
        let ghost pi = cfg.base_modulus as int;
        let ghost x1 = self.x.as_int(cfg);
        let ghost y1 = self.y.as_int(cfg);
        let ghost x1r = x1 % pi;
        let ghost y1r = y1 % pi;
        let ry = self.y.reduce(cfg);
        proof {
            assert(pow2(cfg.limb_bit_width as nat) <= pow2(120)) by {
                if (cfg.limb_bit_width as nat) < 120 {
                    vstd::arithmetic::power2::lemma_pow2_strictly_increases(
                        cfg.limb_bit_width as nat,
                        120,
                    );
                }
            }
            assert(pow2(120) == 1329227995784915872903807060280344576) by {
                vstd::arithmetic::power2::lemma_pow2_adds(60, 60);
                vstd::arithmetic::power2::lemma2_to64();
                vstd::arithmetic::power2::lemma2_to64_rest();
            }
        }
        let den = ry.add_lazy(cfg, &ry);
        proof {
            // den denotes 2 * y reduced; it vanishes only on a zero ordinate
            // because the modulus is odd.
            lemma_mod_add_any(y1r, y1r, pi);
            assert(y1r + y1r == 2 * y1r);
            lemma_mod_twice(y1, pi);
            assert(den.residue(cfg) == (2 * y1r) % pi);
            crate::curve::lemma_odd_modulus(cfg);
            lemma_mod_bound(y1, pi);
            if y1r == 0 {
                assert((2 * y1r) % pi == 0) by {
                    lemma_small_mod(0, cfg.base_modulus as nat);
                }
            } else {
                assert((2 * y1r) % pi != 0) by {
                    if y1r + y1r < pi {
                        lemma_small_mod((y1r + y1r) as nat, cfg.base_modulus as nat);
                    } else {
                        lemma_mod_add_multiples_vanish((y1r + y1r - pi) as int, pi);
                        lemma_small_mod((y1r + y1r - pi) as nat, cfg.base_modulus as nat);
                        if y1r + y1r == pi {
                            lemma_mod_multiples_basic(y1r, 2);
                            assert(y1r * 2 == y1r + y1r);
                        }
                    }
                }
            }
        }
        let inv = match den.invert(cfg) {
            Ok(f) => f,
            Err(_) => {
                return Err(EccError::UnsatisfiableConstraint);
            },
        };
        let xx = self.x.mul_mod(cfg, &self.x);
        let t3 = xx.add_lazy(cfg, &xx).add_lazy(cfg, &xx);
        let af = Fint::decompose(cfg, cfg.curve_a);
        let numf = t3.add_lazy(cfg, &af);
        let lam = inv.mul_mod(cfg, &numf);
        let ll = lam.mul_mod(cfg, &lam);
        let t0 = ll.sub_mod(cfg, &self.x);
        let x3 = t0.sub_mod(cfg, &self.x);
        let t1 = self.x.sub_mod(cfg, &x3);
        let t2 = lam.mul_mod(cfg, &t1);
        let y3 = t2.sub_mod(cfg, &self.y);
        proof {
            let p = cfg.base_modulus as nat;
            lemma_small_mod(inv.as_int(cfg) as nat, p);
            lemma_small_mod(lam.as_int(cfg) as nat, p);
            lemma_small_mod(xx.as_int(cfg) as nat, p);
            lemma_small_mod(x3.as_int(cfg) as nat, p);
            lemma_small_mod(y3.as_int(cfg) as nat, p);
            lemma_inv_mod_unique((2 * y1r) % pi, pi, inv.as_int(cfg));
            // The slope numerator 3 x^2 + a, reduced lazily.
            lemma_mul_mod_noop_general(x1, x1, pi);
            assert(xx.as_int(cfg) == (x1r * x1r) % pi);
            assert(numf.as_int(cfg) == 3 * ((x1r * x1r) % pi) + cfg.curve_a);
            assert(numf.residue(cfg) == (3 * (x1r * x1r) + cfg.curve_a) % pi) by {
                lemma_mul_mod_noop_right(3, x1r * x1r, pi);
                lemma_mod_add_any(3 * ((x1r * x1r) % pi), cfg.curve_a as int, pi);
                lemma_mod_add_any(3 * (x1r * x1r), cfg.curve_a as int, pi);
            }
            let lam_s = (inv_mod((2 * y1r) % pi, pi) * ((3 * (x1r * x1r) + cfg.curve_a) % pi)) % pi;
            assert(lam.as_int(cfg) == lam_s) by {
                lemma_mul_mod_noop_right(inv.as_int(cfg), numf.as_int(cfg), pi);
            }
            let c = tangent(cfg, x1r, y1r);
            assert(x3.as_int(cfg) == c.0) by {
                lemma_mod_sub_any(lam_s * lam_s, x1, pi);
                lemma_mod_sub_any(lam_s * lam_s - x1, x1, pi);
                lemma_mod_sub_any(lam_s * lam_s - x1, x1r, pi);
                lemma_mod_sub_any(lam_s * lam_s - x1r, x1, pi);
                assert(lam_s * lam_s - x1r - x1r == lam_s * lam_s - 2 * x1r);
            }
            assert(y3.as_int(cfg) == c.1) by {
                lemma_mod_sub_any(x1, x3.as_int(cfg), pi);
                lemma_mul_mod_noop_right(lam_s, (x1r - c.0) as int, pi);
                lemma_mod_sub_any(lam_s * (x1r - c.0), y1, pi);
                lemma_mod_sub_any(lam_s * (x1r - c.0), y1r, pi);
            }
        }
        Ok(AssignedPoint { x: x3, y: y3 })
    }

    /// Asserts coordinate-wise equality of the denoted field elements,
    /// through residues, never limb comparison: distinct limb decompositions
    /// of one point must pass.
    pub fn assert_equal(&self, cfg: &CurveConfig, other: &AssignedPoint) -> (r: Result<
        (),
        EccError,
    >)
        requires
            cfg.wf(),
            self.wf(cfg),
            other.wf(cfg),
        ensures
            match r {
                Ok(()) => self.xr(cfg) == other.xr(cfg) && self.yr(cfg) == other.yr(cfg),
                Err(e) => (self.xr(cfg) != other.xr(cfg) || self.yr(cfg) != other.yr(cfg)) && e
                    == EccError::UnsatisfiableConstraint,
            },
    {
        match self.x.assert_equal(cfg, &other.x) {
            Ok(()) => self.y.assert_equal(cfg, &other.y),
            Err(e) => Err(e),
        }
    }
}

/// For all affine points `A`, `B` with distinct reduced abscissae, the
/// value-level group law takes the chord step, so in-circuit addition of the
/// assigned points yields exactly the coordinates of `A + B`: adding and
/// then asserting equality against an assignment of `A + B` succeeds.
pub proof fn lemma_add_matches_group_law(cfg: &CurveConfig, a: CurvePoint, b: CurvePoint)
    requires
        cfg.wf(),
        a.wf(cfg),
        b.wf(cfg),
        a.is_affine(),
        b.is_affine(),
        pt_x(a) != pt_x(b),
    ensures
        spec_add(cfg, a, b) == (CurvePoint::Affine {
            x: chord(cfg, pt_x(a), pt_y(a), pt_x(b), pt_y(b)).0 as u64,
            y: chord(cfg, pt_x(a), pt_y(a), pt_x(b), pt_y(b)).1 as u64,
        }),
{
}

/// For all affine points `A` with nonzero ordinate, the value-level group
/// law takes the tangent step on `A + A`, so in-circuit doubling of the
/// assigned point yields exactly the coordinates of `A + A`: doubling and
/// then asserting equality against an assignment of `A + A` succeeds.
pub proof fn lemma_double_matches_group_law(cfg: &CurveConfig, a: CurvePoint)
    requires
        cfg.wf(),
        a.wf(cfg),
        a.is_affine(),
        pt_y(a) != 0,
    ensures
        spec_add(cfg, a, a) == (CurvePoint::Affine {
            x: tangent(cfg, pt_x(a), pt_y(a)).0 as u64,
            y: tangent(cfg, pt_x(a), pt_y(a)).1 as u64,
        }),
{
    let p = cfg.base_modulus;
    let pi = p as int;
    let y = pt_y(a);
    crate::curve::lemma_odd_modulus(cfg);
    assert((y + y) % pi != 0) by {
        if y + y < pi {
            lemma_small_mod((y + y) as nat, p as nat);
        } else {
            lemma_mod_add_multiples_vanish((y + y - pi) as int, pi);
            lemma_small_mod((y + y - p) as nat, p as nat);
            if y + y == pi {
                lemma_mod_multiples_basic(y, 2);
                assert(y * 2 == y + y);
            }
        }
    }
}

} // verus!
