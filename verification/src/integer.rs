//! Foreign-field integers: limb vectors with deferred reduction.
//!
//! A base-field element is carried as `limb_count` limbs of
//! `limb_bit_width` bits each, low limb first; the element it denotes is the
//! weighted limb sum taken modulo the base modulus.  Addition is limb-wise
//! and leaves reduction pending, growing the tracked overflow bound;
//! multiplication, subtraction and inversion go through a
//! quotient-remainder witness and return a canonical (fully reduced) result.

use vstd::prelude::*;
use vstd::arithmetic::div_mod::*;
use vstd::arithmetic::mul::*;
use vstd::arithmetic::power2::*;
use crate::config::{CurveConfig, MAX_LIMB_BOUND};
use crate::field::{lemma_mod_eq_iff_sub_zero, mod_inverse, mod_sub, pow2_mod};
use crate::EccError;

verus! {

/// The integer denoted by a limb sequence, low limb first:
/// `limbs[0] + 2^width * (limbs[1] + 2^width * ...)`.
pub open spec fn limbs_as_int(limbs: Seq<u128>, width: nat) -> int
    decreases limbs.len(),
{
    if limbs.len() == 0 {
        0
    } else {
        limbs[0] + pow2(width) * limbs_as_int(limbs.subrange(1, limbs.len() as int), width)
    }
}

pub proof fn lemma_limbs_as_int_nonneg(limbs: Seq<u128>, width: nat)
    ensures
        limbs_as_int(limbs, width) >= 0,
    decreases limbs.len(),
{
    if limbs.len() > 0 {
        lemma_limbs_as_int_nonneg(limbs.subrange(1, limbs.len() as int), width);
        lemma_pow2_pos(width);
        lemma_mul_nonnegative(pow2(width) as int, limbs_as_int(limbs.subrange(1, limbs.len() as int), width));
    }
}

/// Appending a limb adds its value at the weight of its position.
pub proof fn lemma_limbs_as_int_push(limbs: Seq<u128>, width: nat, x: u128)
    ensures
        limbs_as_int(limbs.push(x), width) == limbs_as_int(limbs, width) + x * pow2(
            width * limbs.len(),
        ),
    decreases limbs.len(),
{
    if limbs.len() == 0 {
        assert(limbs.push(x).subrange(1, 1) =~= Seq::<u128>::empty());
        assert(limbs.push(x)[0] == x);
        assert(limbs_as_int(Seq::<u128>::empty(), width) == 0);
        assert(limbs_as_int(limbs.push(x), width) == x + pow2(width) * 0);
        assert(pow2(0) == 1) by {
            lemma2_to64();
        }
        assert(x * 1 == x) by (nonlinear_arith);
    } else {
        let rest = limbs.subrange(1, limbs.len() as int);
        assert(limbs.push(x).subrange(1, limbs.len() as int + 1) =~= rest.push(x));
        lemma_limbs_as_int_push(rest, width, x);
        lemma_pow2_adds(width, width * rest.len());
        assert(width * limbs.len() == width + width * rest.len()) by (nonlinear_arith)
            requires limbs.len() == rest.len() + 1;
        assert(pow2(width) * (limbs_as_int(rest, width) + x * pow2(width * rest.len()))
            == pow2(width) * limbs_as_int(rest, width) + x * (pow2(width) * pow2(
            width * rest.len(),
        ))) by (nonlinear_arith);
    }
}

/// Changing one entry of a limb sequence moves the limb sum by the change
/// times the weight of that position.
pub proof fn lemma_limbs_as_int_update(s: Seq<u128>, t: Seq<u128>, width: nat, i: int)
    requires
        s.len() == t.len(),
        0 <= i < s.len(),
        forall|q: int| 0 <= q < s.len() && q != i ==> s[q] == t[q],
    ensures
        limbs_as_int(t, width) == limbs_as_int(s, width) + (t[i] - s[i]) * pow2(width * (i as nat)),
    decreases i,
{
    let srest = s.subrange(1, s.len() as int);
    let trest = t.subrange(1, t.len() as int);
    if i == 0 {
        assert(srest =~= trest);
        assert(pow2(width * 0) == 1) by {
            assert(width * 0 == 0) by (nonlinear_arith);
            lemma2_to64();
        }
        assert((t[0] - s[0]) * 1 == t[0] - s[0]) by (nonlinear_arith);
    } else {
        lemma_limbs_as_int_update(srest, trest, width, i - 1);
        assert(s[0] == t[0]);
        assert(srest[i - 1] == s[i] && trest[i - 1] == t[i]);
        lemma_pow2_adds(width, width * ((i - 1) as nat));
        assert(width * (i as nat) == width + width * ((i - 1) as nat)) by (nonlinear_arith)
            requires i >= 1;
        assert(pow2(width) * (limbs_as_int(srest, width) + (t[i] - s[i]) * pow2(
            width * ((i - 1) as nat),
        )) == pow2(width) * limbs_as_int(srest, width) + (t[i] - s[i]) * (pow2(width) * pow2(
            width * ((i - 1) as nat),
        ))) by (nonlinear_arith);
    }
}

/// Mutating one limb of an integer outside the defined operations changes
/// the element it denotes, so an equality assertion against the untampered
/// value fails; the one exception is a change that is itself a multiple of
/// the modulus at that limb's weight.
pub proof fn lemma_limb_tamper_breaks_equality(
    cfg: &CurveConfig,
    pristine: &Fint,
    tampered: &Fint,
    i: int,
)
    requires
        cfg.wf(),
        pristine.limbs@.len() == tampered.limbs@.len(),
        0 <= i < pristine.limbs@.len(),
        forall|q: int|
            0 <= q < pristine.limbs@.len() && q != i ==> pristine.limbs@[q] == tampered.limbs@[q],
        ((tampered.limbs@[i] - pristine.limbs@[i]) * pow2(
            (cfg.limb_bit_width as nat) * (i as nat),
        )) % (cfg.base_modulus as int) != 0,
    ensures
        tampered.residue(cfg) != pristine.residue(cfg),
{
    let w = cfg.limb_bit_width as nat;
    let pi = cfg.base_modulus as int;
    lemma_limbs_as_int_update(pristine.limbs@, tampered.limbs@, w, i);
    lemma_mod_eq_iff_sub_zero(tampered.as_int(cfg), pristine.as_int(cfg), pi);
}

/// A foreign-field integer: the limbs and the overflow bound every limb is
/// known to stay under.  The bound starts at `2^limb_bit_width` when the
/// limbs are freshly range-checked and grows with each deferred addition.
#[derive(Debug, PartialEq, Eq)]
pub struct Fint {
    pub limbs: Vec<u128>,
    pub limb_bound: u128,
}

impl Fint {
    /// Shape and magnitude discipline: right limb count, every limb under
    /// the tracked bound, bound small enough for further exact arithmetic.
    pub open spec fn wf(&self, cfg: &CurveConfig) -> bool {
        &&& self.limbs.len() == cfg.limb_count
        &&& 0 < self.limb_bound <= MAX_LIMB_BOUND
        &&& forall|i: int| 0 <= i < self.limbs.len() ==> (self.limbs[i] as int) < self.limb_bound
        &&& self.as_int(cfg) >= 0
    }

    /// The integer the limbs denote, before reduction.
    pub open spec fn as_int(&self, cfg: &CurveConfig) -> int {
        limbs_as_int(self.limbs@, cfg.limb_bit_width as nat)
    }

    /// The base-field element denoted: the limb sum modulo the base modulus.
    pub open spec fn residue(&self, cfg: &CurveConfig) -> int {
        self.as_int(cfg) % (cfg.base_modulus as int)
    }

    /// Fully reduced form: fresh range-checked bound and a limb sum that is
    /// already below the modulus.
    pub open spec fn canonical(&self, cfg: &CurveConfig) -> bool {
        &&& self.wf(cfg)
        &&& self.limb_bound == pow2(cfg.limb_bit_width as nat)
        &&& self.as_int(cfg) < cfg.base_modulus
    }

    /// An explicit copy with the same limbs and bound.
    pub fn duplicate(&self) -> (r: Fint)
        ensures
            r.limbs@ == self.limbs@,
            r.limb_bound == self.limb_bound,
    {
        let mut limbs: Vec<u128> = Vec::new();
        let mut i: usize = 0;
        while i < self.limbs.len()
            invariant
                i <= self.limbs.len(),
                limbs@ == self.limbs@.subrange(0, i as int),
            decreases self.limbs.len() - i,
        {
            limbs.push(self.limbs[i]);
            proof {
                assert(self.limbs@.subrange(0, i as int).push(self.limbs@[i as int])
                    =~= self.limbs@.subrange(0, i + 1));
            }
            i = i + 1;
        }
        proof {
            assert(self.limbs@.subrange(0, self.limbs@.len() as int) =~= self.limbs@);
        }
        Fint { limbs, limb_bound: self.limb_bound }
    }

    /// Evaluates the residue by Horner's rule over the limbs, high limb
    /// first, reducing modulo the base modulus at every step.
    pub fn compute_residue(&self, cfg: &CurveConfig) -> (r: u64)
        requires
            cfg.wf(),
            self.wf(cfg),
        ensures
            r < cfg.base_modulus,
            r == self.residue(cfg),
    {
        let p = cfg.base_modulus;
        let width = cfg.limb_bit_width;
        let shift = pow2_mod(width, p);
        let ghost w = width as nat;
        let ghost pi = p as int;
        let mut acc: u64 = 0;
        let mut i: usize = self.limbs.len();
        proof {
            assert(self.limbs@.subrange(i as int, self.limbs@.len() as int) =~= Seq::<u128>::empty());
            lemma_small_mod(0, p as nat);
        }
        while i > 0
            invariant
                cfg.wf(),
                self.wf(cfg),
                p == cfg.base_modulus,
                width == cfg.limb_bit_width,
                w == width as nat,
                pi == p as int,
                shift < p,
                shift == pow2(w) % (p as nat),
                i <= self.limbs.len(),
                acc < p,
                acc == limbs_as_int(self.limbs@.subrange(i as int, self.limbs@.len() as int), w) % pi,
            decreases i,
        {
            i = i - 1;
            let limb = self.limbs[i];
            proof {
                let tail = self.limbs@.subrange(i + 1, self.limbs@.len() as int);
                let cur = self.limbs@.subrange(i as int, self.limbs@.len() as int);
                assert(cur.subrange(1, cur.len() as int) =~= tail);
                assert(cur[0] == self.limbs@[i as int]);
                let a = limbs_as_int(tail, w);
                assert(limbs_as_int(cur, w) == limb + pow2(w) * a);
                // (acc * shift + limb) % p == (a * 2^w + limb) % p.
                lemma_mul_mod_noop_general(a, pow2(w) as int, pi);
                assert((a % pi) * ((pow2(w) as int) % pi) % pi == (a * pow2(w)) % pi);
                assert(acc * shift == (a % pi) * ((pow2(w) as int) % pi));
                lemma_add_mod_noop(acc * shift, limb as int, pi);
                lemma_add_mod_noop(a * pow2(w), limb as int, pi);
                lemma_mod_twice(acc * (shift as int), pi);
                assert((acc * shift + limb) % pi == (a * pow2(w) + limb) % pi);
                assert(a * pow2(w) == pow2(w) * a) by (nonlinear_arith);
                // The machine arithmetic below stays inside u128.
                assert((acc as int) * (shift as int) + (limb as int)
                    < 340282366920938463463374607431768211455) by (nonlinear_arith)
                    requires
                        (acc as int) < pi,
                        (shift as int) < pi,
                        0 < pi <= 0x4000000000000000i128,
                        acc >= 0,
                        shift >= 0,
                        (limb as int) < 85070591730234615865843651857942052864;
                lemma_mod_bound((acc * shift + limb) as int, pi);
            }
            acc = (((acc as u128) * (shift as u128) + limb) % (p as u128)) as u64;
        }
        proof {
            assert(self.limbs@.subrange(0, self.limbs@.len() as int) =~= self.limbs@);
        }
        acc
    }

    /// Decomposes a canonical value into fresh range-checked limbs.
    pub(crate) fn decompose(cfg: &CurveConfig, v: u64) -> (r: Fint)
        requires
            cfg.wf(),
            v < cfg.base_modulus,
        ensures
            r.canonical(cfg),
            r.as_int(cfg) == v,
    {
        let width = cfg.limb_bit_width;
        let ghost w = width as nat;
        let base = pow2_u128(width);
        let mut limbs: Vec<u128> = Vec::new();
        let mut rem: u128 = v as u128;
        let mut j: usize = 0;
        proof {
            lemma2_to64();
            assert(pow2(0) == 1);
            assert((v as int) * 1 == v) by (nonlinear_arith);
        }
        while j < cfg.limb_count
            invariant
                cfg.wf(),
                width == cfg.limb_bit_width,
                w == width as nat,
                base == pow2(w),
                j <= cfg.limb_count,
                limbs.len() == j,
                rem <= v,
                forall|k: int| 0 <= k < limbs.len() ==> (limbs[k] as int) < pow2(w),
                v as int == limbs_as_int(limbs@, w) + (rem as int) * pow2(w * (j as nat)),
            decreases cfg.limb_count - j,
        {
            proof {
                lemma_pow2_pos(w);
            }
            let limb = rem % base;
            let next = rem / base;
            proof {
                lemma_fundamental_div_mod(rem as int, base as int);
                lemma_mod_bound(rem as int, base as int);
                lemma_limbs_as_int_push(limbs@, w, limb);
                lemma_pow2_adds(w, w * (j as nat));
                lemma_div_is_ordered(0, rem as int, base as int);
                lemma_div_nonincreasing(rem as int, base as int);
                // rem == limb + base * next, so shifting the tail keeps the sum.
                assert((rem as int) * pow2(w * (j as nat)) == (limb as int) * pow2(w * (j as nat)) + (next as int) * (
                pow2(w) * pow2(w * (j as nat)))) by (nonlinear_arith)
                    requires rem as int == limb + (base as int) * (next as int), base == pow2(w);
                assert(w * ((j + 1) as nat) == w + w * (j as nat)) by (nonlinear_arith);
            }
            limbs.push(limb);
            rem = next;
            j = j + 1;
        }
        proof {
            // v fits in the full limb width, so nothing remains.
            lemma_limbs_as_int_nonneg(limbs@, w);
            assert(w * (cfg.limb_count as nat) >= 62) by (nonlinear_arith)
                requires
                    w == cfg.limb_bit_width as nat,
                    (cfg.limb_count as int) * (cfg.limb_bit_width as int) >= 62;
            assert(pow2(120) == 1329227995784915872903807060280344576) by {
                lemma_pow2_adds(60, 60);
                lemma2_to64();
                lemma2_to64_rest();
            }
            assert(pow2(w) <= pow2(120)) by {
                if w < 120 {
                    lemma_pow2_strictly_increases(w, 120);
                }
            }
            assert(pow2(62) <= pow2(w * (cfg.limb_count as nat))) by {
                if 62 < w * (cfg.limb_count as nat) {
                    lemma_pow2_strictly_increases(62, w * (cfg.limb_count as nat));
                }
            }
            assert((v as int) < pow2(62)) by {
                lemma2_to64_rest();
                assert(pow2(62) == 0x4000000000000000);
            }
            if rem > 0 {
                lemma_pow2_pos(w * (cfg.limb_count as nat));
                assert((rem as int) * pow2(w * (cfg.limb_count as nat)) >= pow2(w * (cfg.limb_count as nat)))
                    by (nonlinear_arith)
                    requires rem >= 1, pow2(w * (cfg.limb_count as nat)) > 0;
                assert(false);
            }
            assert((0 as int) * pow2(w * (cfg.limb_count as nat)) == 0) by (nonlinear_arith);
        }
        Fint { limbs, limb_bound: base }
    }

    /// Allocates limbs for a base-field value and range-checks each limb.
    /// Rejects a value outside the field: the range check on the
    /// recomposed value cannot be certified.
    pub fn assign(cfg: &CurveConfig, v: u64) -> (r: Result<Fint, EccError>)
        requires
            cfg.wf(),
        ensures
            match r {
                Ok(f) => v < cfg.base_modulus && f.canonical(cfg) && f.as_int(cfg) == v
                    && f.residue(cfg) == v,
                Err(e) => v >= cfg.base_modulus && e == EccError::RangeCheckFailure,
            },
    {
        if v >= cfg.base_modulus {
            return Err(EccError::RangeCheckFailure);
        }
        let f = Self::decompose(cfg, v);
        proof {
            lemma_small_mod(v as nat, cfg.base_modulus as nat);
        }
        Ok(f)
    }

    /// Limb-wise addition with no reduction: the overflow bounds add up, and
    /// the caller must `reduce` before they outgrow the safe range.
    pub fn add_lazy(&self, cfg: &CurveConfig, other: &Fint) -> (r: Fint)
        requires
            cfg.wf(),
            self.wf(cfg),
            other.wf(cfg),
            self.limb_bound + other.limb_bound <= MAX_LIMB_BOUND,
        ensures
            r.wf(cfg),
            r.limb_bound == self.limb_bound + other.limb_bound,
            r.as_int(cfg) == self.as_int(cfg) + other.as_int(cfg),
    {
        let ghost w = cfg.limb_bit_width as nat;
        let mut limbs: Vec<u128> = Vec::new();
        let mut i: usize = 0;
        while i < cfg.limb_count
            invariant
                cfg.wf(),
                self.wf(cfg),
                other.wf(cfg),
                self.limb_bound + other.limb_bound <= MAX_LIMB_BOUND,
                w == cfg.limb_bit_width as nat,
                i <= cfg.limb_count,
                limbs.len() == i,
                forall|k: int|
                    0 <= k < limbs.len() ==> limbs[k] == self.limbs[k] + other.limbs[k],
                limbs_as_int(limbs@, w) == limbs_as_int(self.limbs@.subrange(0, i as int), w)
                    + limbs_as_int(other.limbs@.subrange(0, i as int), w),
            decreases cfg.limb_count - i,
        {
            let x = self.limbs[i] + other.limbs[i];
            proof {
                lemma_limbs_as_int_push(limbs@, w, x);
                lemma_limbs_as_int_push(self.limbs@.subrange(0, i as int), w, self.limbs@[i as int]);
                lemma_limbs_as_int_push(other.limbs@.subrange(0, i as int), w, other.limbs@[i as int]);
                assert(self.limbs@.subrange(0, i as int).push(self.limbs@[i as int]) =~= self.limbs@.subrange(0, i + 1));
                assert(other.limbs@.subrange(0, i as int).push(other.limbs@[i as int]) =~= other.limbs@.subrange(0, i + 1));
                assert((x as int) * pow2(w * (i as nat)) == (self.limbs@[i as int] as int) * pow2(w * (i as nat)) + (
                other.limbs@[i as int] as int) * pow2(w * (i as nat))) by (nonlinear_arith)
                    requires x == self.limbs@[i as int] + other.limbs@[i as int];
            }
            limbs.push(x);
            i = i + 1;
        }
        proof {
            assert(self.limbs@.subrange(0, cfg.limb_count as int) =~= self.limbs@);
            assert(other.limbs@.subrange(0, cfg.limb_count as int) =~= other.limbs@);
        }
        Fint { limbs, limb_bound: self.limb_bound + other.limb_bound }
    }

    /// Forces canonical limb form, preserving the denoted field element.
    pub fn reduce(&self, cfg: &CurveConfig) -> (r: Fint)
        requires
            cfg.wf(),
            self.wf(cfg),
        ensures
            r.canonical(cfg),
            r.residue(cfg) == self.residue(cfg),
            r.as_int(cfg) == self.residue(cfg),
    {
        let v = self.compute_residue(cfg);
        let r = Self::decompose(cfg, v);
        proof {
            lemma_small_mod(v as nat, cfg.base_modulus as nat);
        }
        r
    }

    /// Modular multiplication through a quotient-remainder witness: the
    /// product of the residues is split as `q * modulus + r`, the quotient
    /// stays under the modulus (its range check), and `r` is decomposed into
    /// fresh range-checked limbs.
    pub fn mul_mod(&self, cfg: &CurveConfig, other: &Fint) -> (r: Fint)
        requires
            cfg.wf(),
            self.wf(cfg),
            other.wf(cfg),
        ensures
            r.canonical(cfg),
            r.as_int(cfg) == (self.as_int(cfg) * other.as_int(cfg)) % (cfg.base_modulus as int),
            r.residue(cfg) == (self.as_int(cfg) * other.as_int(cfg)) % (cfg.base_modulus as int),
    {
        let p = cfg.base_modulus;
        let ra = self.compute_residue(cfg);
        let rb = other.compute_residue(cfg);
        proof {
            let pi = p as int;
            assert((ra as int) * (rb as int) < pi * pi) by (nonlinear_arith)
                requires (ra as int) < pi, (rb as int) < pi, pi > 0, ra >= 0, rb >= 0;
            assert(pi * pi <= 0x4000000000000000i128 * 0x4000000000000000i128)
                by (nonlinear_arith)
                requires 0 < pi <= 0x4000000000000000i128;
        }
        let prod = (ra as u128) * (rb as u128);
        let quotient = prod / (p as u128);
        let rem = prod % (p as u128);
        proof {
            let pi = p as int;
            lemma_fundamental_div_mod(prod as int, pi);
            lemma_mod_bound(prod as int, pi);
            assert(prod as int == (ra as int) * (rb as int));
            assert((prod as int) < pi * pi);
            // The quotient witness passes its range check.
            lemma_multiply_divide_lt(prod as int, pi, pi);
            assert(quotient as int == (prod as int) / pi);
            assert((quotient as int) < pi);
            lemma_mul_mod_noop_general(self.as_int(cfg), other.as_int(cfg), pi);
            lemma_small_mod(rem as nat, p as nat);
        }
        let r = Self::decompose(cfg, rem as u64);
        proof {
            lemma_small_mod(r.as_int(cfg) as nat, cfg.base_modulus as nat);
        }
        r
    }

    /// Modular subtraction of the residues, returned in canonical form.
    pub fn sub_mod(&self, cfg: &CurveConfig, other: &Fint) -> (r: Fint)
        requires
            cfg.wf(),
            self.wf(cfg),
            other.wf(cfg),
        ensures
            r.canonical(cfg),
            r.as_int(cfg) == (self.as_int(cfg) - other.as_int(cfg)) % (cfg.base_modulus as int),
            r.residue(cfg) == (self.as_int(cfg) - other.as_int(cfg)) % (cfg.base_modulus as int),
    {
        let p = cfg.base_modulus;
        let ra = self.compute_residue(cfg);
        let rb = other.compute_residue(cfg);
        let v = mod_sub(ra, rb, p);
        proof {
            let pi = p as int;
            lemma_sub_mod_noop(self.as_int(cfg), other.as_int(cfg), pi);
            lemma_small_mod(v as nat, p as nat);
        }
        let r = Self::decompose(cfg, v);
        proof {
            lemma_small_mod(r.as_int(cfg) as nat, cfg.base_modulus as nat);
        }
        r
    }

    /// Witnessed modular inverse: the witness is checked by the relation
    /// `v * v^-1 = 1 (mod modulus)`; a zero residue has no inverse and makes
    /// the relation unsatisfiable.
    pub fn invert(&self, cfg: &CurveConfig) -> (r: Result<Fint, EccError>)
        requires
            cfg.wf(),
            self.wf(cfg),
        ensures
            match r {
                Ok(f) => self.residue(cfg) != 0 && f.canonical(cfg) && (f.as_int(cfg)
                    * self.residue(cfg)) % (cfg.base_modulus as int) == 1,
                Err(e) => self.residue(cfg) == 0 && e == EccError::UnsatisfiableConstraint,
            },
    {
        let p = cfg.base_modulus;
        let v = self.compute_residue(cfg);
        if v == 0 {
            return Err(EccError::UnsatisfiableConstraint);
        }
        let inv = mod_inverse(v, p);
        let r = Self::decompose(cfg, inv);
        Ok(r)
    }

    /// Asserts that two integers denote the same field element, comparing
    /// reduced residues rather than limbs: distinct limb decompositions of
    /// one element must pass, and any tampering with a limb must fail.
    pub fn assert_equal(&self, cfg: &CurveConfig, other: &Fint) -> (r: Result<(), EccError>)
        requires
            cfg.wf(),
            self.wf(cfg),
            other.wf(cfg),
        ensures
            match r {
                Ok(()) => self.residue(cfg) == other.residue(cfg),
                Err(e) => self.residue(cfg) != other.residue(cfg) && e
                    == EccError::UnsatisfiableConstraint,
            },
    {
        let ra = self.compute_residue(cfg);
        let rb = other.compute_residue(cfg);
        if ra == rb {
            Ok(())
        } else {
            Err(EccError::UnsatisfiableConstraint)
        }
    }
}

/// `2^e` as a machine word, for building limb masks.
pub fn pow2_u128(e: u32) -> (r: u128)
    requires
        e <= 120,
    ensures
        r == pow2(e as nat),
{
    let mut acc: u128 = 1;
    let mut i: u32 = 0;
    proof {
        lemma2_to64();
    }
    while i < e
        invariant
            i <= e <= 120,
            acc == pow2(i as nat),
        decreases e - i,
    {
        proof {
            lemma_pow2_adds(i as nat, 1);
            lemma2_to64();
            assert(pow2((i + 1) as nat) <= pow2(120)) by {
                if i + 1 < 120 {
                    lemma_pow2_strictly_increases((i + 1) as nat, 120);
                }
            }
            assert(pow2(120) == pow2(60) * pow2(60)) by {
                lemma_pow2_adds(60, 60);
            }
            lemma2_to64_rest();
        }
        acc = acc * 2;
        i = i + 1;
    }
    acc
}

} // verus!
