//! The multiplication chip: auxiliary offsets and windowed scalar
//! multiplication.
//!
//! In-circuit chord addition and tangent doubling are undefined on
//! coincident abscissae and zero ordinates, and a circuit cannot branch on
//! witness values.  The chip therefore blinds every intermediate: the
//! entries of pair `j`'s window table carry `2^j` times the auxiliary
//! generator `H` as an offset — a table-specific share, so no two pairs
//! ever contribute the same bare offset in a round — and the accumulator
//! always holds the windowed partial sum plus a multiple of `H` that
//! depends only on the randomness, never on the scalars.  The total offset
//! accumulated over `k` rounds with `n` pairs is
//! `(2^n - 1) * (1 + 2^w + ... + 2^(w*(k-1)))` times `H`; its negation is
//! assigned once per `(window_size, pair_count)` and removed by a final
//! addition.

use vstd::prelude::*;
use vstd::arithmetic::div_mod::*;
use vstd::arithmetic::power2::*;
use crate::config::CurveConfig;
use crate::curve::{spec_add, spec_mul, spec_neg, value_mul, value_neg, CurvePoint};
use crate::point::{lemma_add_matches_group_law, lemma_double_matches_group_law, pt_x, pt_y, AssignedPoint};
use crate::EccError;

verus! {

/// The auxiliary correction data for one `(window_size, pair_count)` key:
/// one assigned offset per pair, added through that pair's window table,
/// and the assigned negated aggregate offset removed at the end.
#[derive(Debug)]
pub struct MulAux {
    pub window_size: u32,
    pub pair_count: usize,
    pub to_adds: Vec<AssignedPoint>,
    pub to_sub: AssignedPoint,
    pub to_sub_value: CurvePoint,
}

/// `1 + 2^w + ... + 2^(w*(k-1))`: the factor by which the per-round offsets
/// of one pair accumulate over `k` rounds.
pub open spec fn correction_scalar(w: nat, k: nat) -> nat
    decreases k,
{
    if k == 0 {
        0
    } else {
        correction_scalar(w, (k - 1) as nat) + pow2(w * ((k - 1) as nat))
    }
}

/// How many windows of `w` bits cover a scalar.
pub open spec fn spec_rounds(cfg: &CurveConfig, w: nat) -> nat
    recommends
        w >= 1,
{
    ((cfg.scalar_bits + w - 1) as nat) / w
}

/// Window digit of `s` at round `i`, most significant window first.
pub open spec fn window_digit(s: nat, w: nat, k: nat, i: nat) -> nat
    recommends
        i < k,
{
    (s / pow2(w * ((k - 1 - i) as nat))) % pow2(w)
}

/// Entry `i` of a window table: the base point added `i` times onto the
/// auxiliary offset `h`.
pub open spec fn spec_table_entry(cfg: &CurveConfig, h: CurvePoint, p: CurvePoint, i: nat) -> CurvePoint
    decreases i,
{
    if i == 0 {
        h
    } else {
        spec_add(cfg, spec_table_entry(cfg, h, p, (i - 1) as nat), p)
    }
}

/// `n` successive doublings of `acc`.
pub open spec fn spec_double_n(cfg: &CurveConfig, acc: CurvePoint, n: nat) -> CurvePoint
    decreases n,
{
    if n == 0 {
        acc
    } else {
        spec_double_n(cfg, spec_add(cfg, acc, acc), (n - 1) as nat)
    }
}

/// The accumulator after rounds `0..=i` of windowed multiplication: table
/// lookup of the top digit, then per round `w` doublings and one lookup.
pub open spec fn spec_mul_rounds(
    cfg: &CurveConfig,
    h: CurvePoint,
    p: CurvePoint,
    s: nat,
    w: nat,
    k: nat,
    i: nat,
) -> CurvePoint
    decreases i,
{
    if i == 0 {
        spec_table_entry(cfg, h, p, window_digit(s, w, k, 0))
    } else {
        spec_add(
            cfg,
            spec_double_n(cfg, spec_mul_rounds(cfg, h, p, s, w, k, (i - 1) as nat), w),
            spec_table_entry(cfg, h, p, window_digit(s, w, k, i)),
        )
    }
}

/// The result of windowed multiplication: the final accumulator with the
/// aggregate auxiliary offset removed.
pub open spec fn spec_windowed_mul(
    cfg: &CurveConfig,
    h: CurvePoint,
    hsub: CurvePoint,
    p: CurvePoint,
    s: nat,
    w: nat,
    k: nat,
) -> CurvePoint {
    spec_add(cfg, spec_mul_rounds(cfg, h, p, s, w, k, (k - 1) as nat), hsub)
}

/// The offset share of pair `j`: the generator scaled by `2^j`, so no two
/// pairs ever contribute the same bare offset within a round.
pub open spec fn pair_offset(cfg: &CurveConfig, h: CurvePoint, j: nat) -> CurvePoint {
    spec_mul(cfg, pow2(j), h)
}

/// The accumulator of the horizontal batched fold, after round `i` has
/// absorbed the table entries of the first `j` pairs.  A pair is a
/// plain-value base point and a scalar; pair `j`'s table is offset by its
/// own share of the correction.  Round 0 starts from the first pair's
/// entry; every later round starts from `w` doublings of the full previous
/// round.
pub open spec fn spec_msm_adds(
    cfg: &CurveConfig,
    h: CurvePoint,
    pairs: Seq<(CurvePoint, nat)>,
    w: nat,
    k: nat,
    i: nat,
    j: nat,
) -> CurvePoint
    recommends
        pairs.len() >= 1,
        1 <= j <= pairs.len() || i >= 1,
    decreases i, j,
{
    if i == 0 {
        if j <= 1 {
            spec_table_entry(cfg, pair_offset(cfg, h, 0), pairs[0].0, window_digit(pairs[0].1, w, k, 0))
        } else {
            spec_add(
                cfg,
                spec_msm_adds(cfg, h, pairs, w, k, 0, (j - 1) as nat),
                spec_table_entry(
                    cfg,
                    pair_offset(cfg, h, (j - 1) as nat),
                    pairs[j - 1].0,
                    window_digit(pairs[j - 1].1, w, k, 0),
                ),
            )
        }
    } else {
        if j == 0 {
            spec_double_n(cfg, spec_msm_adds(cfg, h, pairs, w, k, (i - 1) as nat, pairs.len()), w)
        } else {
            spec_add(
                cfg,
                spec_msm_adds(cfg, h, pairs, w, k, i, (j - 1) as nat),
                spec_table_entry(
                    cfg,
                    pair_offset(cfg, h, (j - 1) as nat),
                    pairs[j - 1].0,
                    window_digit(pairs[j - 1].1, w, k, i),
                ),
            )
        }
    }
}

/// The result of the batched fold: all rounds absorbed and the aggregate
/// auxiliary offset removed.
pub open spec fn spec_msm(
    cfg: &CurveConfig,
    h: CurvePoint,
    hsub: CurvePoint,
    pairs: Seq<(CurvePoint, nat)>,
    w: nat,
    k: nat,
) -> CurvePoint {
    spec_add(cfg, spec_msm_adds(cfg, h, pairs, w, k, (k - 1) as nat, pairs.len()), hsub)
}

/// A step of the windowed fold that the in-circuit formulas cannot take:
/// a window-table entry built onto a coincident abscissa, a doubling of a
/// zero ordinate, a round addition meeting a coincident abscissa, or the
/// final offset removal meeting one.  `mul` fails with an unsatisfiable
/// constraint exactly on such scalars; on every other input, success is
/// owed once the correction for the key is assigned.
pub open spec fn mul_fold_degenerates(
    cfg: &CurveConfig,
    h: CurvePoint,
    hsub: CurvePoint,
    p: CurvePoint,
    s: nat,
    w: nat,
    k: nat,
) -> bool {
    ||| table_step_degenerates(cfg, h, p, pow2(w))
    ||| exists|ip: nat, j: nat|
        ip + 1 < k && j < w && pt_y(
            #[trigger] spec_double_n(cfg, spec_mul_rounds(cfg, h, p, s, w, k, ip), j),
        ) == 0
    ||| exists|ip: nat|
        ip + 1 < k && pt_x(#[trigger] spec_double_n(cfg, spec_mul_rounds(cfg, h, p, s, w, k, ip), w))
            == pt_x(spec_table_entry(cfg, h, p, window_digit(s, w, k, ip + 1)))
    ||| pt_x(spec_mul_rounds(cfg, h, p, s, w, k, (k - 1) as nat)) == pt_x(hsub)
}

/// The batched counterpart: a per-pair table entry, a shared doubling, a
/// per-pair round addition, or the final offset removal degenerates.
pub open spec fn msm_fold_degenerates(
    cfg: &CurveConfig,
    h: CurvePoint,
    hsub: CurvePoint,
    pairs: Seq<(CurvePoint, nat)>,
    w: nat,
    k: nat,
) -> bool {
    ||| exists|q: int|
        0 <= q < pairs.len() && table_step_degenerates(
            cfg,
            pair_offset(cfg, h, q as nat),
            (#[trigger] pairs[q]).0,
            pow2(w),
        )
    ||| exists|ip: nat, j: nat|
        ip + 1 < k && j < w && pt_y(
            #[trigger] spec_double_n(cfg, spec_msm_adds(cfg, h, pairs, w, k, ip, pairs.len()), j),
        ) == 0
    ||| exists|i: nat, j: nat|
        i < k && j < pairs.len() && (i >= 1 || j >= 1) && pt_x(
            #[trigger] spec_msm_adds(cfg, h, pairs, w, k, i, j),
        ) == pt_x(
            spec_table_entry(
                cfg,
                pair_offset(cfg, h, j),
                pairs[j as int].0,
                window_digit(pairs[j as int].1, w, k, i),
            ),
        )
    ||| pt_x(spec_msm_adds(cfg, h, pairs, w, k, (k - 1) as nat, pairs.len())) == pt_x(hsub)
}

/// The first table entry for key `(w, n)`, scanning the cache.
pub open spec fn spec_lookup(table: Seq<MulAux>, w: u32, n: usize) -> Option<MulAux>
    decreases table.len(),
{
    if table.len() == 0 {
        None
    } else if table[0].window_size == w && table[0].pair_count == n {
        Some(table[0])
    } else {
        spec_lookup(table.subrange(1, table.len() as int), w, n)
    }
}

/// The denoted value of an assigned point is a well-formed affine point
/// whose plain coordinates are the reduced residues.
pub proof fn lemma_value_of_assigned(cfg: &CurveConfig, ap: &AssignedPoint)
    requires
        cfg.wf(),
        ap.wf(cfg),
    ensures
        ap.as_value(cfg).wf(cfg),
        ap.as_value(cfg).is_affine(),
        pt_x(ap.as_value(cfg)) == ap.xr(cfg),
        pt_y(ap.as_value(cfg)) == ap.yr(cfg),
{
    lemma_mod_bound(ap.x.as_int(cfg), cfg.base_modulus as int);
    lemma_mod_bound(ap.y.as_int(cfg), cfg.base_modulus as int);
}

/// An in-circuit chord addition that succeeded computes the value-level sum
/// of the denoted points.
pub proof fn lemma_assigned_add_value(
    cfg: &CurveConfig,
    a: &AssignedPoint,
    b: &AssignedPoint,
    r: &AssignedPoint,
)
    requires
        cfg.wf(),
        a.wf(cfg),
        b.wf(cfg),
        r.wf(cfg),
        a.xr(cfg) != b.xr(cfg),
        (r.xr(cfg), r.yr(cfg)) == crate::curve::chord(cfg, a.xr(cfg), a.yr(cfg), b.xr(cfg), b.yr(cfg)),
    ensures
        r.as_value(cfg) == spec_add(cfg, a.as_value(cfg), b.as_value(cfg)),
{
    lemma_value_of_assigned(cfg, a);
    lemma_value_of_assigned(cfg, b);
    lemma_add_matches_group_law(cfg, a.as_value(cfg), b.as_value(cfg));
}

/// An in-circuit tangent doubling that succeeded computes the value-level
/// double of the denoted point.
pub proof fn lemma_assigned_double_value(cfg: &CurveConfig, a: &AssignedPoint, r: &AssignedPoint)
    requires
        cfg.wf(),
        a.wf(cfg),
        r.wf(cfg),
        a.yr(cfg) != 0,
        (r.xr(cfg), r.yr(cfg)) == crate::curve::tangent(cfg, a.xr(cfg), a.yr(cfg)),
    ensures
        r.as_value(cfg) == spec_add(cfg, a.as_value(cfg), a.as_value(cfg)),
{
    lemma_value_of_assigned(cfg, a);
    lemma_double_matches_group_law(cfg, a.as_value(cfg));
}

/// The correction scalar stays under `2^(w*k)`.
pub proof fn lemma_correction_scalar_bound(w: nat, k: nat)
    requires
        w >= 1,
    ensures
        correction_scalar(w, k) < pow2(w * k),
    decreases k,
{
    lemma_pow2_pos(w * k);
    if k > 0 {
        let k1 = (k - 1) as nat;
        lemma_correction_scalar_bound(w, k1);
        lemma_pow2_adds(w, w * k1);
        assert(w * k == w + w * k1) by (nonlinear_arith)
            requires k >= 1, w * k1 == w * (k - 1);
        assert(pow2(w) >= 2) by {
            lemma_pow2_strictly_increases(0, w);
            lemma2_to64();
        }
        lemma_pow2_pos(w * k1);
        assert(pow2(w * k1) + pow2(w * k1) <= pow2(w) * pow2(w * k1)) by (nonlinear_arith)
            requires pow2(w) >= 2, pow2(w * k1) >= 1;
    }
}

impl MulAux {
    /// The correction data is derived from the generator `gen`: pair `j`'s
    /// table offset is `2^j` times `gen`, and the point removed at the end
    /// is `(2^pair_count - 1) * correction_scalar` times `gen`, negated.
    pub open spec fn wf(&self, cfg: &CurveConfig, gen: CurvePoint) -> bool {
        &&& 1 <= self.window_size <= 8
        &&& 1 <= self.pair_count <= 16
        &&& self.to_adds@.len() == self.pair_count
        &&& forall|j: int|
            0 <= j < self.pair_count ==> (#[trigger] self.to_adds@[j]).wf(cfg)
                && self.to_adds@[j].as_value(cfg) == pair_offset(cfg, gen, j as nat)
        &&& self.to_sub.wf(cfg)
        &&& self.to_sub_value == spec_neg(
            cfg,
            spec_mul(
                cfg,
                ((pow2(self.pair_count as nat) - 1) as nat) * correction_scalar(
                    self.window_size as nat,
                    spec_rounds(cfg, self.window_size as nat),
                ),
                gen,
            ),
        )
        &&& self.to_sub.as_value(cfg) == self.to_sub_value
        &&& self.to_sub_value.is_affine()
    }
}

/// The scalar-multiplication chip: the curve instance, the auxiliary
/// generator once assigned, and the correction cache keyed by
/// `(window_size, pair_count)`.
pub struct EccChip {
    pub cfg: CurveConfig,
    pub aux_generator: Option<(AssignedPoint, CurvePoint)>,
    pub aux_table: Vec<MulAux>,
}

impl EccChip {
    pub open spec fn wf(&self) -> bool {
        &&& self.cfg.wf()
        &&& match self.aux_generator {
            None => self.aux_table@.len() == 0,
            Some((ap, v)) => ap.wf(&self.cfg) && v.is_affine() && v.wf(&self.cfg) && ap.as_value(
                &self.cfg,
            ) == v && forall|i: int|
                0 <= i < self.aux_table@.len() ==> #[trigger] self.aux_table@[i].wf(&self.cfg, v),
        }
    }

    /// The generator value this chip's corrections are derived from.
    pub open spec fn gen_value(&self) -> CurvePoint {
        self.aux_generator.unwrap().1
    }

    pub fn new(cfg: CurveConfig) -> (r: EccChip)
        requires
            cfg.wf(),
        ensures
            r.wf(),
            r.cfg == cfg,
            r.aux_generator.is_none(),
    {
        EccChip { cfg, aux_generator: None, aux_table: Vec::new() }
    }

    /// Witnesses the auxiliary generator.  The identity is degenerate and
    /// must be resampled; any previously derived corrections are discarded.
    pub fn assign_aux_generator(&mut self, h: &CurvePoint) -> (r: Result<(), EccError>)
        requires
            old(self).wf(),
        ensures
            final(self).cfg == old(self).cfg,
            final(self).wf(),
            match r {
                Ok(()) => h.is_affine() && h.wf(&old(self).cfg) && final(self).aux_generator
                    == Some((final(self).aux_generator.unwrap().0, *h))
                    && final(self).aux_table@.len() == 0,
                Err(e) => *final(self) == *old(self) && ((!h.is_affine() && e
                    == EccError::DegenerateAuxiliary) || (h.is_affine() && !h.wf(&old(self).cfg)
                    && e == EccError::RangeCheckFailure)),
            },
    {
        let ap = match AssignedPoint::assign_point(&self.cfg, h) {
            Ok(ap) => ap,
            Err(e) => {
                if matches!(e, EccError::UnsatisfiableConstraint) {
                    return Err(EccError::DegenerateAuxiliary);
                }
                return Err(e);
            },
        };
        self.aux_generator = Some((ap, *h));
        self.aux_table = Vec::new();
        Ok(())
    }

    /// Derives and assigns the correction data for one
    /// `(window_size, pair_count)` key, replacing any entry under the same
    /// key.  Fails when no generator was assigned, or when a per-pair
    /// offset or the aggregate offset degenerates to the identity.
    pub fn assign_aux(&mut self, window_size: u32, pair_count: usize) -> (r: Result<(), EccError>)
        requires
            old(self).wf(),
            1 <= window_size <= 8,
            1 <= pair_count <= 16,
        ensures
            final(self).cfg == old(self).cfg,
            final(self).aux_generator == old(self).aux_generator,
            final(self).wf(),
            match r {
                Ok(()) => old(self).aux_generator.is_some() && {
                    let found = spec_lookup(final(self).aux_table@, window_size, pair_count);
                    &&& found.is_some()
                    &&& found.unwrap().wf(&old(self).cfg, old(self).gen_value())
                    &&& found.unwrap().window_size == window_size
                    &&& found.unwrap().pair_count == pair_count
                },
                Err(e) => *final(self) == *old(self) && ((old(self).aux_generator.is_none() && e
                    == EccError::AuxConfigurationMismatch) || (old(self).aux_generator.is_some()
                    && e == EccError::DegenerateAuxiliary && (!spec_mul(
                    &old(self).cfg,
                    ((pow2(pair_count as nat) - 1) as nat) * correction_scalar(
                        window_size as nat,
                        spec_rounds(&old(self).cfg, window_size as nat),
                    ),
                    old(self).gen_value(),
                ).is_affine() || exists|j: nat|
                    j < pair_count && !(#[trigger] pair_offset(
                        &old(self).cfg,
                        old(self).gen_value(),
                        j,
                    )).is_affine()))),
            },
    {
        let cfg = self.cfg;
        let gen_v = match &self.aux_generator {
            Some(g) => g.1,
            None => {
                return Err(EccError::AuxConfigurationMismatch);
            },
        };
        let ghost wn = window_size as nat;
        let k = (cfg.scalar_bits + window_size - 1) / window_size;
        let ghost kn = k as nat;
        proof {
            lemma_fundamental_div_mod((cfg.scalar_bits + window_size - 1) as int, window_size as int);
            lemma_mod_bound((cfg.scalar_bits + window_size - 1) as int, window_size as int);
            assert(wn * kn <= 47);
            assert(k >= 1) by (nonlinear_arith)
                requires
                    (cfg.scalar_bits + window_size - 1) as int == (window_size as int) * (k as int)
                        + ((cfg.scalar_bits + window_size - 1) as int) % (window_size as int),
                    0 <= ((cfg.scalar_bits + window_size - 1) as int) % (window_size as int)
                        < window_size as int,
                    k >= 0,
                    cfg.scalar_bits >= 1,
                    1 <= window_size <= 8;
            assert(kn == spec_rounds(&cfg, wn));
        }
        let step = pow2_u64(window_size);
        let mut c: u64 = 0;
        let mut t: u64 = 1;
        let mut i: u32 = 0;
        proof {
            lemma2_to64();
            assert(pow2(wn * 0) == 1) by {
                assert(wn * 0 == 0) by (nonlinear_arith);
            }
        }
        while i < k
            invariant
                1 <= window_size <= 8,
                wn == window_size as nat,
                kn == k as nat,
                wn * kn <= 47,
                i <= k,
                step == pow2(wn),
                c == correction_scalar(wn, i as nat),
                t == pow2(wn * (i as nat)),
            decreases k - i,
        {
            proof {
                lemma_correction_scalar_bound(wn, i as nat);
                assert(wn * (i as nat) <= wn * kn && wn * ((i + 1) as nat) <= wn * kn)
                    by (nonlinear_arith)
                    requires i < k, wn == window_size as nat, kn == k as nat, wn >= 1;
                lemma_pow2_strictly_increases(wn * (i as nat), 48);
                lemma_pow2_strictly_increases(wn * ((i + 1) as nat), 48);
                lemma2_to64();
                lemma2_to64_rest();
                assert(pow2(48) == 0x1000000000000);
                lemma_pow2_adds(wn, wn * (i as nat));
                assert(wn * ((i + 1) as nat) == wn + wn * (i as nat)) by (nonlinear_arith);
            }
            c = c + t;
            t = t * step;
            i = i + 1;
        }
        proof {
            lemma_correction_scalar_bound(wn, kn);
            lemma_pow2_strictly_increases(wn * kn, 48);
            lemma2_to64();
            lemma2_to64_rest();
            assert(pow2(48) == 0x1000000000000);
        }
        let pc_pow = pow2_u64(pair_count as u32);
        proof {
            assert(pc_pow <= 0x10000) by {
                if (pair_count as nat) < 16 {
                    lemma_pow2_strictly_increases(pair_count as nat, 16);
                }
                lemma2_to64();
            }
            assert((pc_pow - 1) as int * (c as int) < 0x10000 * 0x1000000000000)
                by (nonlinear_arith)
                requires
                    1 <= pc_pow <= 0x10000,
                    (c as int) < 0x1000000000000,
                    c >= 0;
        }
        let m = (pc_pow - 1) * c;
        let mh = value_mul(&cfg, m, &gen_v);
        proof {
            assert(m as nat == ((pow2(pair_count as nat) - 1) as nat) * correction_scalar(
                wn,
                spec_rounds(&cfg, wn),
            ));
        }
        let nv = value_neg(&cfg, &mh);
        let sub_affine = match nv {
            CurvePoint::Infinity => {
                return Err(EccError::DegenerateAuxiliary);
            },
            CurvePoint::Affine { .. } => nv,
        };
        let to_sub = match AssignedPoint::assign_point(&cfg, &sub_affine) {
            Ok(ap) => ap,
            Err(_) => {
                proof {
                    assert(false);
                }
                return Err(EccError::DegenerateAuxiliary);
            },
        };
        // One assigned offset per pair: pair `j` is blinded by `2^j` times
        // the generator, a table-specific share of the correction.
        let mut to_adds: Vec<AssignedPoint> = Vec::new();
        let mut jj: usize = 0;
        while jj < pair_count
            invariant
                old(self).wf(),
                self == old(self),
                self.aux_generator.is_some(),
                cfg == self.cfg,
                gen_v == self.gen_value(),
                gen_v.wf(&cfg),
                jj <= pair_count,
                pair_count <= 16,
                to_adds@.len() == jj,
                forall|q: int|
                    0 <= q < jj ==> (#[trigger] to_adds@[q]).wf(&cfg) && to_adds@[q].as_value(&cfg)
                        == pair_offset(&cfg, gen_v, q as nat),
            decreases pair_count - jj,
        {
            let pw = pow2_u64(jj as u32);
            let ov = value_mul(&cfg, pw, &gen_v);
            let off_affine = match ov {
                CurvePoint::Infinity => {
                    proof {
                        assert(!pair_offset(&cfg, gen_v, jj as nat).is_affine());
                    }
                    return Err(EccError::DegenerateAuxiliary);
                },
                CurvePoint::Affine { .. } => ov,
            };
            let ap = match AssignedPoint::assign_point(&cfg, &off_affine) {
                Ok(ap) => ap,
                Err(_) => {
                    proof {
                        assert(false);
                    }
                    return Err(EccError::DegenerateAuxiliary);
                },
            };
            to_adds.push(ap);
            jj = jj + 1;
        }
        let aux = MulAux { window_size, pair_count, to_adds, to_sub, to_sub_value: sub_affine };
        // Rebuild the cache with the fresh entry at the front, where the
        // scan finds it before any older entry under the same key.
        let mut table: Vec<MulAux> = Vec::new();
        table.push(aux);
        let mut j: usize = 0;
        while j < self.aux_table.len()
            invariant
                old(self).wf(),
                self == old(self),
                j <= self.aux_table.len(),
                table@.len() >= 1,
                table@[0].wf(&self.cfg, self.gen_value()),
                table@[0].window_size == window_size,
                table@[0].pair_count == pair_count,
                self.aux_generator.is_some(),
                forall|q: int|
                    0 <= q < table@.len() ==> #[trigger] table@[q].wf(&self.cfg, self.gen_value()),
            decreases self.aux_table.len() - j,
        {
            let e = &self.aux_table[j];
            let dup = e.duplicate_aux();
            proof {
                assert(self.aux_table@[j as int].wf(&self.cfg, self.gen_value()));
                assert forall|q: int| 0 <= q < dup.to_adds@.len() implies (#[trigger] dup.to_adds@[q]).wf(
                    &self.cfg,
                ) && dup.to_adds@[q].as_value(&self.cfg) == pair_offset(
                    &self.cfg,
                    self.gen_value(),
                    q as nat,
                ) by {
                    assert(dup.to_adds@[q].as_value(&self.cfg) == e.to_adds@[q].as_value(&self.cfg));
                }
                assert(dup.to_sub.as_value(&self.cfg) == e.to_sub.as_value(&self.cfg));
                assert(dup.wf(&self.cfg, self.gen_value()));
            }
            table.push(dup);
            j = j + 1;
        }
        proof {
            assert(spec_lookup(table@, window_size, pair_count) == Some(table@[0]));
        }
        self.aux_table = table;
        Ok(())
    }

    /// Returns the correction data previously assigned for
    /// `(window_size, pair_count)`: a pure lookup, so two calls on one chip
    /// state give the same data.  Fails exactly when the key was never
    /// assigned.
    pub fn get_mul_aux(&self, window_size: u32, pair_count: usize) -> (r: Result<&MulAux, EccError>)
        requires
            self.wf(),
        ensures
            match r {
                Ok(aux) => spec_lookup(self.aux_table@, window_size, pair_count) == Some(*aux)
                    && self.aux_generator.is_some() && aux.wf(&self.cfg, self.gen_value())
                    && aux.window_size == window_size && aux.pair_count == pair_count,
                Err(e) => spec_lookup(self.aux_table@, window_size, pair_count).is_none() && e
                    == EccError::AuxConfigurationMismatch,
            },
    {
        let mut j: usize = 0;
        proof {
            assert(self.aux_table@.subrange(0, self.aux_table@.len() as int) =~= self.aux_table@);
        }
        while j < self.aux_table.len()
            invariant
                self.wf(),
                j <= self.aux_table.len(),
                spec_lookup(self.aux_table@, window_size, pair_count) == spec_lookup(
                    self.aux_table@.subrange(j as int, self.aux_table@.len() as int),
                    window_size,
                    pair_count,
                ),
            decreases self.aux_table.len() - j,
        {
            let e = &self.aux_table[j];
            proof {
                let tail = self.aux_table@.subrange(j as int, self.aux_table@.len() as int);
                assert(tail[0] == self.aux_table@[j as int]);
                assert(tail.subrange(1, tail.len() as int) =~= self.aux_table@.subrange(
                    j + 1,
                    self.aux_table@.len() as int,
                ));
            }
            if e.window_size == window_size && e.pair_count == pair_count {
                return Ok(e);
            }
            j = j + 1;
        }
        proof {
            assert(self.aux_table@.subrange(
                self.aux_table@.len() as int,
                self.aux_table@.len() as int,
            ) =~= Seq::<MulAux>::empty());
        }
        Err(EccError::AuxConfigurationMismatch)
    }
}

impl MulAux {
    /// An explicit copy with the same assigned coordinates and values.
    pub fn duplicate_aux(&self) -> (r: MulAux)
        ensures
            r.window_size == self.window_size,
            r.pair_count == self.pair_count,
            r.to_adds@.len() == self.to_adds@.len(),
            forall|q: int|
                0 <= q < self.to_adds@.len() ==> (#[trigger] r.to_adds@[q]).x.limbs@
                    == self.to_adds@[q].x.limbs@ && r.to_adds@[q].x.limb_bound
                    == self.to_adds@[q].x.limb_bound && r.to_adds@[q].y.limbs@
                    == self.to_adds@[q].y.limbs@ && r.to_adds@[q].y.limb_bound
                    == self.to_adds@[q].y.limb_bound,
            r.to_sub.x.limbs@ == self.to_sub.x.limbs@,
            r.to_sub.x.limb_bound == self.to_sub.x.limb_bound,
            r.to_sub.y.limbs@ == self.to_sub.y.limbs@,
            r.to_sub.y.limb_bound == self.to_sub.y.limb_bound,
            r.to_sub_value == self.to_sub_value,
    {
        let mut to_adds: Vec<AssignedPoint> = Vec::new();
        let mut q: usize = 0;
        while q < self.to_adds.len()
            invariant
                q <= self.to_adds@.len(),
                to_adds@.len() == q,
                forall|e: int|
                    0 <= e < q ==> (#[trigger] to_adds@[e]).x.limbs@ == self.to_adds@[e].x.limbs@
                        && to_adds@[e].x.limb_bound == self.to_adds@[e].x.limb_bound
                        && to_adds@[e].y.limbs@ == self.to_adds@[e].y.limbs@
                        && to_adds@[e].y.limb_bound == self.to_adds@[e].y.limb_bound,
            decreases self.to_adds@.len() - q,
        {
            to_adds.push(self.to_adds[q].duplicate());
            q = q + 1;
        }
        MulAux {
            window_size: self.window_size,
            pair_count: self.pair_count,
            to_adds,
            to_sub: self.to_sub.duplicate(),
            to_sub_value: self.to_sub_value,
        }
    }
}

/// Doubling `n + 1` times is one more doubling after `n`.
pub proof fn lemma_double_n_snoc(cfg: &CurveConfig, acc: CurvePoint, n: nat)
    ensures
        spec_double_n(cfg, acc, n + 1) == spec_add(
            cfg,
            spec_double_n(cfg, acc, n),
            spec_double_n(cfg, acc, n),
        ),
    decreases n,
{
    let d = spec_add(cfg, acc, acc);
    if n == 0 {
        assert(spec_double_n(cfg, acc, 1) == spec_double_n(cfg, d, 0));
    } else {
        lemma_double_n_snoc(cfg, d, (n - 1) as nat);
        assert(spec_double_n(cfg, acc, n + 1) == spec_double_n(cfg, d, n));
        assert(spec_double_n(cfg, acc, n) == spec_double_n(cfg, d, (n - 1) as nat));
    }
}

/// The partial value of the window digits of `s` processed most significant
/// first: after `i` digits it equals the top `i` windows of `s`.
pub open spec fn recompose_digits(s: nat, w: nat, k: nat, i: nat) -> nat
    decreases i,
{
    if i == 0 {
        0
    } else {
        recompose_digits(s, w, k, (i - 1) as nat) * pow2(w) + window_digit(s, w, k, (i - 1) as nat)
    }
}

/// Recomposing the window digits of a scalar gives the scalar back, for
/// every window size: the decomposition that windowed multiplication
/// processes loses nothing, whatever `w` is.
pub proof fn lemma_digits_recompose(s: nat, w: nat, k: nat, i: nat)
    requires
        w >= 1,
        i <= k,
        s < pow2(w * k),
    ensures
        recompose_digits(s, w, k, i) == s / pow2(w * ((k - i) as nat)),
    decreases i,
{
    if i == 0 {
        lemma_pow2_pos(w * k);
        lemma_basic_div(s as int, pow2(w * k) as int);
    } else {
        lemma_digits_recompose(s, w, k, (i - 1) as nat);
        let e = w * ((k - i) as nat);
        let a = s / pow2(e);
        lemma_pow2_pos(e);
        lemma_pow2_pos(w);
        lemma_pow2_adds(w, e);
        assert(w * ((k - (i - 1)) as nat) == w + e) by (nonlinear_arith)
            requires i >= 1, i <= k, e == w * ((k - i) as nat);
        lemma_div_denominator(s as int, pow2(e) as int, pow2(w) as int);
        assert(s / pow2(w + e) == a / pow2(w)) by {
            assert(pow2(w + e) == pow2(e) * pow2(w));
        }
        lemma_fundamental_div_mod(a as int, pow2(w) as int);
        assert(a == pow2(w) * (a / pow2(w)) + a % pow2(w));
        assert(window_digit(s, w, k, (i - 1) as nat) == a % pow2(w));
        assert((a / pow2(w)) * pow2(w) == pow2(w) * (a / pow2(w))) by (nonlinear_arith);
    }
}

/// For every window size, recomposing all `k` window digits of a scalar
/// gives the scalar back exactly: the window size changes how the scalar is
/// chunked, never the value that windowed multiplication processes.
pub proof fn lemma_window_decomposition_exact(s: nat, w: nat, k: nat)
    requires
        w >= 1,
        s < pow2(w * k),
    ensures
        recompose_digits(s, w, k, k) == s,
{
    lemma_digits_recompose(s, w, k, k);
    assert(w * ((k - k) as nat) == 0) by (nonlinear_arith);
    lemma2_to64();
    assert(pow2(0) == 1);
    lemma_div_basics(s as int);
}

/// The auxiliary correction is a pure function of the chip state and the
/// `(window_size, pair_count)` key: any two lookups that succeed on the same
/// state and key return the same correction data.
pub proof fn lemma_aux_query_deterministic(
    chip: &EccChip,
    w: u32,
    n: usize,
    a1: MulAux,
    a2: MulAux,
)
    requires
        spec_lookup(chip.aux_table@, w, n) == Some(a1),
        spec_lookup(chip.aux_table@, w, n) == Some(a2),
    ensures
        a1 == a2,
{
}

impl EccChip {
    /// Windowed scalar multiplication of an assigned point by a plain
    /// scalar.  Without the auxiliary correction for `(window_size, 1)` the
    /// call is a configuration mismatch; with it, success is owed unless the
    /// fold degenerates (`mul_fold_degenerates`), and the result is exactly
    /// the windowed fold: table lookups of the scalar's digits offset by the
    /// generator, `window_size` doublings per round, and the aggregate
    /// offset removed at the end.
    #[verifier::loop_isolation(false)]
    pub fn mul(&self, point: &AssignedPoint, scalar: u64, window_size: u32) -> (r: Result<
        AssignedPoint,
        EccError,
    >)
        requires
            self.wf(),
            point.wf(&self.cfg),
            scalar < pow2(self.cfg.scalar_bits as nat),
        ensures
            match r {
                Ok(rp) => {
                    let found = spec_lookup(self.aux_table@, window_size, 1);
                    &&& found.is_some()
                    &&& rp.wf(&self.cfg)
                    &&& rp.as_value(&self.cfg) == spec_windowed_mul(
                        &self.cfg,
                        self.gen_value(),
                        found.unwrap().to_sub_value,
                        point.as_value(&self.cfg),
                        scalar as nat,
                        window_size as nat,
                        spec_rounds(&self.cfg, window_size as nat),
                    )
                    &&& !mul_fold_degenerates(
                        &self.cfg,
                        self.gen_value(),
                        found.unwrap().to_sub_value,
                        point.as_value(&self.cfg),
                        scalar as nat,
                        window_size as nat,
                        spec_rounds(&self.cfg, window_size as nat),
                    )
                },
                Err(e) => {
                    let found = spec_lookup(self.aux_table@, window_size, 1);
                    ||| (e == EccError::AuxConfigurationMismatch && found.is_none())
                    ||| (e == EccError::UnsatisfiableConstraint && found.is_some()
                        && mul_fold_degenerates(
                        &self.cfg,
                        self.gen_value(),
                        found.unwrap().to_sub_value,
                        point.as_value(&self.cfg),
                        scalar as nat,
                        window_size as nat,
                        spec_rounds(&self.cfg, window_size as nat),
                    ))
                },
            },
    {
        let cfg = &self.cfg;
        let aux = match self.get_mul_aux(window_size, 1) {
            Ok(a) => a,
            Err(e) => {
                return Err(e);
            },
        };
        let w = window_size;
        let ghost wn = w as nat;
        let ghost s = scalar as nat;
        let ghost gen = self.gen_value();
        let ghost pv = point.as_value(cfg);
        let k = (cfg.scalar_bits + w - 1) / w;
        let ghost kn = k as nat;
        proof {
            lemma_fundamental_div_mod((cfg.scalar_bits + w - 1) as int, w as int);
            lemma_mod_bound((cfg.scalar_bits + w - 1) as int, w as int);
            assert(wn * kn <= 47);
            assert(k >= 1) by (nonlinear_arith)
                requires
                    (cfg.scalar_bits + w - 1) as int == (w as int) * (k as int) + ((cfg.scalar_bits
                        + w - 1) as int) % (w as int),
                    0 <= ((cfg.scalar_bits + w - 1) as int) % (w as int) < w as int,
                    k >= 0,
                    cfg.scalar_bits >= 1,
                    1 <= w <= 8;
            assert(kn == spec_rounds(cfg, wn));
        }
        let mw = pow2_u64(w);
        proof {
            assert(mw <= 256) by {
                if wn < 8 {
                    lemma_pow2_strictly_increases(wn, 8);
                }
                lemma2_to64();
            }
        }
        let digits = window_digits(scalar, w, k, mw);
        // Window table: entry `t` holds the base added `t` times onto the
        // generator offset, so no entry is ever the bare identity.
        let tsize = mw as usize;
        proof {
            lemma_pow2_strictly_increases(0, wn);
            lemma2_to64();
            assert(tsize >= 2);
        }
        proof {
            // Pair 0's offset share is the generator itself.
            crate::curve::lemma_spec_mul_one(cfg, gen);
            lemma2_to64();
            assert(pow2(0) == 1);
            assert(aux.to_adds@[0].as_value(cfg) == gen);
        }
        let table = match build_table(cfg, &aux.to_adds[0], point, tsize) {
            Ok(t) => t,
            Err(e) => {
                proof {
                    assert(table_step_degenerates(cfg, gen, pv, pow2(wn)));
                }
                return Err(e);
            },
        };
        // Rounds, most significant digit first.
        let d0 = digits[0];
        let mut acc = table[d0].duplicate();
        proof {
            assert(acc.as_value(cfg) == table@[d0 as int].as_value(cfg));
            assert(acc.wf(cfg) == table@[d0 as int].wf(cfg));
            assert(acc.as_value(cfg) == spec_mul_rounds(cfg, gen, pv, s, wn, kn, 0));
        }
        let mut i: u32 = 1;
        while i < k
            invariant
                self.wf(),
                point.wf(cfg),
                cfg == &self.cfg,
                gen == self.gen_value(),
                pv == point.as_value(cfg),
                1 <= w <= 8,
                wn == w as nat,
                kn == k as nat,
                1 <= i <= k,
                s == scalar as nat,
                tsize == pow2(wn),
                digits@.len() == k,
                forall|q: int|
                    0 <= q < k ==> (#[trigger] digits@[q]) as nat == window_digit(s, wn, kn, q as nat)
                        && digits@[q] < tsize,
                table@.len() == tsize,
                forall|q: int|
                    0 <= q < tsize ==> (#[trigger] table@[q]).wf(cfg) && table@[q].as_value(cfg)
                        == spec_table_entry(cfg, gen, pv, q as nat),
                acc.wf(cfg),
                acc.as_value(cfg) == spec_mul_rounds(cfg, gen, pv, s, wn, kn, (i - 1) as nat),
                forall|ip: nat, jj: nat|
                    ip + 1 < i && jj < wn ==> pt_y(
                        #[trigger] spec_double_n(cfg, spec_mul_rounds(cfg, gen, pv, s, wn, kn, ip), jj),
                    ) != 0,
                forall|ip: nat|
                    ip + 1 < i ==> pt_x(
                        #[trigger] spec_double_n(cfg, spec_mul_rounds(cfg, gen, pv, s, wn, kn, ip), wn),
                    ) != pt_x(spec_table_entry(cfg, gen, pv, window_digit(s, wn, kn, ip + 1))),
            decreases k - i,
        {
            let ghost base = spec_mul_rounds(cfg, gen, pv, s, wn, kn, (i - 1) as nat);
            let mut j: u32 = 0;
            while j < w
                invariant
                    self.wf(),
                    cfg == &self.cfg,
                    j <= w,
                    acc.wf(cfg),
                    acc.as_value(cfg) == spec_double_n(cfg, base, j as nat),
                    forall|jj: nat| jj < j ==> pt_y(#[trigger] spec_double_n(cfg, base, jj)) != 0,
                decreases w - j,
            {
                let dbl = match acc.double(cfg) {
                    Ok(d) => d,
                    Err(_) => {
                        proof {
                            lemma_value_of_assigned(cfg, &acc);
                            assert(pt_y(
                                spec_double_n(
                                    cfg,
                                    spec_mul_rounds(cfg, gen, pv, s, wn, kn, (i - 1) as nat),
                                    j as nat,
                                ),
                            ) == 0);
                        }
                        return Err(EccError::UnsatisfiableConstraint);
                    },
                };
                proof {
                    lemma_assigned_double_value(cfg, &acc, &dbl);
                    lemma_double_n_snoc(cfg, base, j as nat);
                    lemma_value_of_assigned(cfg, &acc);
                    assert(pt_y(spec_double_n(cfg, base, j as nat)) != 0);
                }
                acc = dbl;
                j = j + 1;
            }
            let di = digits[i as usize];
            let entry = &table[di];
            let next = match acc.add(cfg, entry) {
                Ok(n) => n,
                Err(_) => {
                    proof {
                        lemma_value_of_assigned(cfg, &acc);
                        lemma_value_of_assigned(cfg, entry);
                        assert(pt_x(
                            spec_double_n(
                                cfg,
                                spec_mul_rounds(cfg, gen, pv, s, wn, kn, (i - 1) as nat),
                                wn,
                            ),
                        ) == pt_x(spec_table_entry(cfg, gen, pv, window_digit(s, wn, kn, i as nat))));
                        assert(i as nat == ((i - 1) as nat) + 1);
                    }
                    return Err(EccError::UnsatisfiableConstraint);
                },
            };
            proof {
                lemma_assigned_add_value(cfg, &acc, entry, &next);
                lemma_value_of_assigned(cfg, &acc);
                lemma_value_of_assigned(cfg, entry);
                assert(pt_x(spec_double_n(cfg, base, wn)) != pt_x(
                    spec_table_entry(cfg, gen, pv, window_digit(s, wn, kn, i as nat)),
                ));
                assert(i as nat == ((i - 1) as nat) + 1);
                assert forall|ip: nat, jj: nat| ip + 1 < i + 1 && jj < wn implies pt_y(
                    #[trigger] spec_double_n(cfg, spec_mul_rounds(cfg, gen, pv, s, wn, kn, ip), jj),
                ) != 0 by {
                    if ip + 1 == i {
                        assert(spec_mul_rounds(cfg, gen, pv, s, wn, kn, ip) == base);
                    }
                }
                assert forall|ip: nat| ip + 1 < i + 1 implies pt_x(
                    #[trigger] spec_double_n(cfg, spec_mul_rounds(cfg, gen, pv, s, wn, kn, ip), wn),
                ) != pt_x(spec_table_entry(cfg, gen, pv, window_digit(s, wn, kn, ip + 1))) by {
                    if ip + 1 == i {
                        assert(spec_mul_rounds(cfg, gen, pv, s, wn, kn, ip) == base);
                    }
                }
            }
            acc = next;
            i = i + 1;
        }
        // Remove the aggregate auxiliary offset.
        let result = match acc.add(cfg, &aux.to_sub) {
            Ok(n) => n,
            Err(_) => {
                proof {
                    lemma_value_of_assigned(cfg, &acc);
                    lemma_value_of_assigned(cfg, &aux.to_sub);
                    assert(pt_x(spec_mul_rounds(cfg, gen, pv, s, wn, kn, (kn - 1) as nat)) == pt_x(
                        aux.to_sub_value,
                    ));
                }
                return Err(EccError::UnsatisfiableConstraint);
            },
        };
        proof {
            lemma_assigned_add_value(cfg, &acc, &aux.to_sub, &result);
            lemma_value_of_assigned(cfg, &acc);
            lemma_value_of_assigned(cfg, &aux.to_sub);
            assert(pt_x(spec_mul_rounds(cfg, gen, pv, s, wn, kn, (kn - 1) as nat)) != pt_x(
                aux.to_sub_value,
            ));
            assert(!mul_fold_degenerates(cfg, gen, aux.to_sub_value, pv, s, wn, kn));
        }
        Ok(result)
    }

    /// Batched one-dimensional horizontal multi-scalar multiplication: one
    /// window table per pair, all pairs processed window-by-window in
    /// lock-step, so each round's doublings are shared and the aggregate
    /// auxiliary offset is removed once.  Without the correction for
    /// `(window_size, pairs.len())` the call is a configuration mismatch;
    /// with it, success is owed unless the fold degenerates
    /// (`msm_fold_degenerates`), and the result is exactly the batched fold
    /// over the denoted points and scalars, pair index ascending.
    #[verifier::loop_isolation(false)]
    #[verifier::rlimit(50)]
    pub fn mul_batch_1d_horizontal(
        &self,
        pairs: &Vec<(AssignedPoint, u64)>,
        window_size: u32,
    ) -> (r: Result<AssignedPoint, EccError>)
        requires
            self.wf(),
            pairs@.len() >= 1,
            forall|q: int|
                0 <= q < pairs@.len() ==> (#[trigger] pairs@[q]).0.wf(&self.cfg) && pairs@[q].1
                    < pow2(self.cfg.scalar_bits as nat),
        ensures
            match r {
                Ok(rp) => {
                    let found = spec_lookup(self.aux_table@, window_size, pairs@.len() as usize);
                    &&& found.is_some()
                    &&& rp.wf(&self.cfg)
                    &&& rp.as_value(&self.cfg) == spec_msm(
                        &self.cfg,
                        self.gen_value(),
                        found.unwrap().to_sub_value,
                        pairs@.map_values(
                            |pr: (AssignedPoint, u64)| (pr.0.as_value(&self.cfg), pr.1 as nat),
                        ),
                        window_size as nat,
                        spec_rounds(&self.cfg, window_size as nat),
                    )
                    &&& !msm_fold_degenerates(
                        &self.cfg,
                        self.gen_value(),
                        found.unwrap().to_sub_value,
                        pairs@.map_values(
                            |pr: (AssignedPoint, u64)| (pr.0.as_value(&self.cfg), pr.1 as nat),
                        ),
                        window_size as nat,
                        spec_rounds(&self.cfg, window_size as nat),
                    )
                },
                Err(e) => {
                    let found = spec_lookup(self.aux_table@, window_size, pairs@.len() as usize);
                    ||| (e == EccError::AuxConfigurationMismatch && found.is_none())
                    ||| (e == EccError::UnsatisfiableConstraint && found.is_some()
                        && msm_fold_degenerates(
                        &self.cfg,
                        self.gen_value(),
                        found.unwrap().to_sub_value,
                        pairs@.map_values(
                            |pr: (AssignedPoint, u64)| (pr.0.as_value(&self.cfg), pr.1 as nat),
                        ),
                        window_size as nat,
                        spec_rounds(&self.cfg, window_size as nat),
                    ))
                },
            },
    {
        let cfg = &self.cfg;
        let n = pairs.len();
        let aux = match self.get_mul_aux(window_size, n) {
            Ok(a) => a,
            Err(e) => {
                return Err(e);
            },
        };
        let w = window_size;
        let ghost wn = w as nat;
        let ghost gen = self.gen_value();
        let ghost gpairs = pairs@.map_values(
            |pr: (AssignedPoint, u64)| (pr.0.as_value(&self.cfg), pr.1 as nat),
        );
        let k = (cfg.scalar_bits + w - 1) / w;
        let ghost kn = k as nat;
        proof {
            lemma_fundamental_div_mod((cfg.scalar_bits + w - 1) as int, w as int);
            lemma_mod_bound((cfg.scalar_bits + w - 1) as int, w as int);
            assert(wn * kn <= 47);
            assert(k >= 1) by (nonlinear_arith)
                requires
                    (cfg.scalar_bits + w - 1) as int == (w as int) * (k as int) + ((cfg.scalar_bits
                        + w - 1) as int) % (w as int),
                    0 <= ((cfg.scalar_bits + w - 1) as int) % (w as int) < w as int,
                    k >= 0,
                    cfg.scalar_bits >= 1,
                    1 <= w <= 8;
            assert(kn == spec_rounds(cfg, wn));
        }
        let mw = pow2_u64(w);
        proof {
            assert(mw <= 256) by {
                if wn < 8 {
                    lemma_pow2_strictly_increases(wn, 8);
                }
                lemma2_to64();
            }
            lemma_pow2_strictly_increases(0, wn);
            lemma2_to64();
        }
        let tsize = mw as usize;
        // Per-pair window tables and digit decompositions.
        let mut tables: Vec<Vec<AssignedPoint>> = Vec::new();
        let mut all_digits: Vec<Vec<usize>> = Vec::new();
        let mut j: usize = 0;
        while j < n
            invariant
                self.wf(),
                cfg == &self.cfg,
                gen == self.gen_value(),
                n == pairs@.len(),
                n >= 1,
                gpairs == pairs@.map_values(
                    |pr: (AssignedPoint, u64)| (pr.0.as_value(&self.cfg), pr.1 as nat),
                ),
                forall|q: int|
                    0 <= q < pairs@.len() ==> (#[trigger] pairs@[q]).0.wf(&self.cfg) && pairs@[q].1
                        < pow2(self.cfg.scalar_bits as nat),
                aux.wf(cfg, gen),
                1 <= w <= 8,
                wn == w as nat,
                kn == k as nat,
                1 <= k,
                wn * kn <= 47,
                mw == pow2(wn),
                mw <= 256,
                tsize == mw as usize,
                tsize >= 2,
                j <= n,
                tables@.len() == j,
                all_digits@.len() == j,
                forall|q: int, t: int|
                    0 <= q < j && 0 <= t < tsize ==> (#[trigger] tables@[q]@[t]).wf(cfg)
                        && tables@[q]@[t].as_value(cfg) == spec_table_entry(
                        cfg,
                        pair_offset(cfg, gen, q as nat),
                        gpairs[q].0,
                        t as nat,
                    ),
                forall|q: int| 0 <= q < j ==> (#[trigger] tables@[q])@.len() == tsize,
                forall|q: int, t: int|
                    0 <= q < j && 0 <= t < k ==> (#[trigger] all_digits@[q]@[t]) as nat
                        == window_digit(gpairs[q].1, wn, kn, t as nat) && all_digits@[q]@[t]
                        < tsize,
                forall|q: int| 0 <= q < j ==> (#[trigger] all_digits@[q])@.len() == k,
                forall|q: int|
                    0 <= q < j ==> !table_step_degenerates(
                        cfg,
                        pair_offset(cfg, gen, q as nat),
                        (#[trigger] gpairs[q]).0,
                        pow2(wn),
                    ),
            decreases n - j,
        {
            let pt = &pairs[j].0;
            proof {
                assert(aux.to_adds@[j as int].as_value(cfg) == pair_offset(cfg, gen, j as nat));
            }
            let table = match build_table(cfg, &aux.to_adds[j], pt, tsize) {
                Ok(t) => t,
                Err(e) => {
                    proof {
                        assert(gpairs[j as int].0 == pairs@[j as int].0.as_value(&self.cfg));
                        assert(table_step_degenerates(
                            cfg,
                            pair_offset(cfg, gen, j as nat),
                            gpairs[j as int].0,
                            pow2(wn),
                        ));
                    }
                    return Err(e);
                },
            };
            let digits = window_digits(pairs[j].1, w, k, mw);
            proof {
                assert(gpairs[j as int].0 == pairs@[j as int].0.as_value(&self.cfg));
                assert(gpairs[j as int].1 == pairs@[j as int].1 as nat);
                assert(!table_step_degenerates(
                    cfg,
                    pair_offset(cfg, gen, j as nat),
                    gpairs[j as int].0,
                    pow2(wn),
                ));
            }
            tables.push(table);
            all_digits.push(digits);
            j = j + 1;
        }
        // Round 0: the first pair's entry, then every other pair's entry.
        let d0 = all_digits[0][0];
        let mut acc = tables[0][d0].duplicate();
        proof {
            assert(acc.as_value(cfg) == spec_msm_adds(cfg, gen, gpairs, wn, kn, 0, 1));
            assert(acc.wf(cfg));
        }
        let mut j: usize = 1;
        while j < n
            invariant
                self.wf(),
                cfg == &self.cfg,
                gen == self.gen_value(),
                n == pairs@.len(),
                gpairs.len() == n,
                1 <= w <= 8,
                wn == w as nat,
                kn == k as nat,
                1 <= k,
                tsize >= 2,
                1 <= j <= n,
                tables@.len() == n,
                all_digits@.len() == n,
                forall|q: int, t: int|
                    0 <= q < n && 0 <= t < tsize ==> (#[trigger] tables@[q]@[t]).wf(cfg)
                        && tables@[q]@[t].as_value(cfg) == spec_table_entry(
                        cfg,
                        pair_offset(cfg, gen, q as nat),
                        gpairs[q].0,
                        t as nat,
                    ),
                forall|q: int| 0 <= q < n ==> (#[trigger] tables@[q])@.len() == tsize,
                forall|q: int, t: int|
                    0 <= q < n && 0 <= t < k ==> (#[trigger] all_digits@[q]@[t]) as nat
                        == window_digit(gpairs[q].1, wn, kn, t as nat) && all_digits@[q]@[t]
                        < tsize,
                forall|q: int| 0 <= q < n ==> (#[trigger] all_digits@[q])@.len() == k,
                acc.wf(cfg),
                acc.as_value(cfg) == spec_msm_adds(cfg, gen, gpairs, wn, kn, 0, j as nat),
                forall|jj: nat|
                    1 <= jj < j ==> pt_x(#[trigger] spec_msm_adds(cfg, gen, gpairs, wn, kn, 0, jj))
                        != pt_x(
                        spec_table_entry(
                            cfg,
                            pair_offset(cfg, gen, jj),
                            gpairs[jj as int].0,
                            window_digit(gpairs[jj as int].1, wn, kn, 0),
                        ),
                    ),
            decreases n - j,
        {
            let dj = all_digits[j][0];
            let entry = &tables[j][dj];
            let next = match acc.add(cfg, entry) {
                Ok(x) => x,
                Err(_) => {
                    proof {
                        lemma_value_of_assigned(cfg, &acc);
                        lemma_value_of_assigned(cfg, entry);
                        assert(pt_x(spec_msm_adds(cfg, gen, gpairs, wn, kn, 0, j as nat)) == pt_x(
                            spec_table_entry(
                                cfg,
                                pair_offset(cfg, gen, j as nat),
                                gpairs[j as int].0,
                                window_digit(gpairs[j as int].1, wn, kn, 0),
                            ),
                        ));
                    }
                    return Err(EccError::UnsatisfiableConstraint);
                },
            };
            proof {
                lemma_assigned_add_value(cfg, &acc, entry, &next);
                lemma_value_of_assigned(cfg, &acc);
                lemma_value_of_assigned(cfg, entry);
                assert(pt_x(spec_msm_adds(cfg, gen, gpairs, wn, kn, 0, j as nat)) != pt_x(
                    spec_table_entry(
                        cfg,
                        pair_offset(cfg, gen, j as nat),
                        gpairs[j as int].0,
                        window_digit(gpairs[j as int].1, wn, kn, 0),
                    ),
                ));
            }
            acc = next;
            j = j + 1;
        }
        // Later rounds: shared doublings, then every pair's entry.
        let mut i: u32 = 1;
        while i < k
            invariant
                self.wf(),
                cfg == &self.cfg,
                gen == self.gen_value(),
                n == pairs@.len(),
                gpairs.len() == n,
                n >= 1,
                1 <= w <= 8,
                wn == w as nat,
                kn == k as nat,
                1 <= i <= k,
                tsize >= 2,
                tables@.len() == n,
                all_digits@.len() == n,
                forall|q: int, t: int|
                    0 <= q < n && 0 <= t < tsize ==> (#[trigger] tables@[q]@[t]).wf(cfg)
                        && tables@[q]@[t].as_value(cfg) == spec_table_entry(
                        cfg,
                        pair_offset(cfg, gen, q as nat),
                        gpairs[q].0,
                        t as nat,
                    ),
                forall|q: int| 0 <= q < n ==> (#[trigger] tables@[q])@.len() == tsize,
                forall|q: int, t: int|
                    0 <= q < n && 0 <= t < k ==> (#[trigger] all_digits@[q]@[t]) as nat
                        == window_digit(gpairs[q].1, wn, kn, t as nat) && all_digits@[q]@[t]
                        < tsize,
                forall|q: int| 0 <= q < n ==> (#[trigger] all_digits@[q])@.len() == k,
                acc.wf(cfg),
                acc.as_value(cfg) == spec_msm_adds(cfg, gen, gpairs, wn, kn, (i - 1) as nat, n as nat),
                forall|ip: nat, jj: nat|
                    ip + 1 < i && jj < wn ==> pt_y(
                        #[trigger] spec_double_n(
                            cfg,
                            spec_msm_adds(cfg, gen, gpairs, wn, kn, ip, gpairs.len()),
                            jj,
                        ),
                    ) != 0,
                forall|ii: nat, jj: nat|
                    1 <= ii < i && jj < n ==> pt_x(
                        #[trigger] spec_msm_adds(cfg, gen, gpairs, wn, kn, ii, jj),
                    ) != pt_x(
                        spec_table_entry(
                            cfg,
                            pair_offset(cfg, gen, jj),
                            gpairs[jj as int].0,
                            window_digit(gpairs[jj as int].1, wn, kn, ii),
                        ),
                    ),
            decreases k - i,
        {
            let ghost base = spec_msm_adds(cfg, gen, gpairs, wn, kn, (i - 1) as nat, n as nat);
            let mut dj: u32 = 0;
            while dj < w
                invariant
                    self.wf(),
                    cfg == &self.cfg,
                    dj <= w,
                    acc.wf(cfg),
                    acc.as_value(cfg) == spec_double_n(cfg, base, dj as nat),
                    forall|jj: nat| jj < dj ==> pt_y(#[trigger] spec_double_n(cfg, base, jj)) != 0,
                decreases w - dj,
            {
                let dbl = match acc.double(cfg) {
                    Ok(d) => d,
                    Err(_) => {
                        proof {
                            lemma_value_of_assigned(cfg, &acc);
                            assert(pt_y(
                                spec_double_n(
                                    cfg,
                                    spec_msm_adds(
                                        cfg,
                                        gen,
                                        gpairs,
                                        wn,
                                        kn,
                                        (i - 1) as nat,
                                        gpairs.len(),
                                    ),
                                    dj as nat,
                                ),
                            ) == 0);
                        }
                        return Err(EccError::UnsatisfiableConstraint);
                    },
                };
                proof {
                    lemma_assigned_double_value(cfg, &acc, &dbl);
                    lemma_double_n_snoc(cfg, base, dj as nat);
                    lemma_value_of_assigned(cfg, &acc);
                    assert(pt_y(spec_double_n(cfg, base, dj as nat)) != 0);
                }
                acc = dbl;
                dj = dj + 1;
            }
            proof {
                assert(acc.as_value(cfg) == spec_msm_adds(cfg, gen, gpairs, wn, kn, i as nat, 0));
            }
            let mut j: usize = 0;
            while j < n
                invariant
                    self.wf(),
                    cfg == &self.cfg,
                    gen == self.gen_value(),
                    n == pairs@.len(),
                    gpairs.len() == n,
                    1 <= w <= 8,
                    wn == w as nat,
                    kn == k as nat,
                    1 <= i < k,
                    tsize >= 2,
                    j <= n,
                    tables@.len() == n,
                    all_digits@.len() == n,
                    forall|q: int, t: int|
                        0 <= q < n && 0 <= t < tsize ==> (#[trigger] tables@[q]@[t]).wf(cfg)
                            && tables@[q]@[t].as_value(cfg) == spec_table_entry(
                            cfg,
                            pair_offset(cfg, gen, q as nat),
                            gpairs[q].0,
                            t as nat,
                        ),
                    forall|q: int| 0 <= q < n ==> (#[trigger] tables@[q])@.len() == tsize,
                    forall|q: int, t: int|
                        0 <= q < n && 0 <= t < k ==> (#[trigger] all_digits@[q]@[t]) as nat
                            == window_digit(gpairs[q].1, wn, kn, t as nat) && all_digits@[q]@[t]
                            < tsize,
                    forall|q: int| 0 <= q < n ==> (#[trigger] all_digits@[q])@.len() == k,
                    acc.wf(cfg),
                    acc.as_value(cfg) == spec_msm_adds(cfg, gen, gpairs, wn, kn, i as nat, j as nat),
                    forall|jj: nat|
                        jj < j ==> pt_x(
                            #[trigger] spec_msm_adds(cfg, gen, gpairs, wn, kn, i as nat, jj),
                        ) != pt_x(
                            spec_table_entry(
                                cfg,
                                pair_offset(cfg, gen, jj),
                                gpairs[jj as int].0,
                                window_digit(gpairs[jj as int].1, wn, kn, i as nat),
                            ),
                        ),
                decreases n - j,
            {
                let dji = all_digits[j][i as usize];
                let entry = &tables[j][dji];
                let next = match acc.add(cfg, entry) {
                    Ok(x) => x,
                    Err(_) => {
                        proof {
                            lemma_value_of_assigned(cfg, &acc);
                            lemma_value_of_assigned(cfg, entry);
                            assert(pt_x(spec_msm_adds(cfg, gen, gpairs, wn, kn, i as nat, j as nat))
                                == pt_x(
                                spec_table_entry(
                                    cfg,
                                    pair_offset(cfg, gen, j as nat),
                                    gpairs[j as int].0,
                                    window_digit(gpairs[j as int].1, wn, kn, i as nat),
                                ),
                            ));
                        }
                        return Err(EccError::UnsatisfiableConstraint);
                    },
                };
                proof {
                    lemma_assigned_add_value(cfg, &acc, entry, &next);
                    lemma_value_of_assigned(cfg, &acc);
                    lemma_value_of_assigned(cfg, entry);
                    assert(pt_x(spec_msm_adds(cfg, gen, gpairs, wn, kn, i as nat, j as nat))
                        != pt_x(
                        spec_table_entry(
                            cfg,
                            pair_offset(cfg, gen, j as nat),
                            gpairs[j as int].0,
                            window_digit(gpairs[j as int].1, wn, kn, i as nat),
                        ),
                    ));
                }
                acc = next;
                j = j + 1;
            }
            proof {
                // Fold the completed round's doublings and additions into
                // the accumulated facts.
                assert forall|ip: nat, jj: nat| ip + 1 < i + 1 && jj < wn implies pt_y(
                    #[trigger] spec_double_n(
                        cfg,
                        spec_msm_adds(cfg, gen, gpairs, wn, kn, ip, gpairs.len()),
                        jj,
                    ),
                ) != 0 by {
                    if ip + 1 == i {
                        assert(spec_msm_adds(cfg, gen, gpairs, wn, kn, ip, gpairs.len()) == base);
                    }
                }
                assert forall|ii: nat, jj: nat| 1 <= ii < i + 1 && jj < n implies pt_x(
                    #[trigger] spec_msm_adds(cfg, gen, gpairs, wn, kn, ii, jj),
                ) != pt_x(
                    spec_table_entry(
                        cfg,
                        pair_offset(cfg, gen, jj),
                        gpairs[jj as int].0,
                        window_digit(gpairs[jj as int].1, wn, kn, ii),
                    ),
                ) by {
                    if ii == i {
                        assert(pt_x(spec_msm_adds(cfg, gen, gpairs, wn, kn, i as nat, jj)) != pt_x(
                            spec_table_entry(
                                cfg,
                                pair_offset(cfg, gen, jj),
                                gpairs[jj as int].0,
                                window_digit(gpairs[jj as int].1, wn, kn, i as nat),
                            ),
                        ));
                    }
                }
            }
            i = i + 1;
        }
        // Remove the aggregate auxiliary offset.
        let result = match acc.add(cfg, &aux.to_sub) {
            Ok(x) => x,
            Err(_) => {
                proof {
                    lemma_value_of_assigned(cfg, &acc);
                    lemma_value_of_assigned(cfg, &aux.to_sub);
                    assert(pt_x(
                        spec_msm_adds(cfg, gen, gpairs, wn, kn, (kn - 1) as nat, gpairs.len()),
                    ) == pt_x(aux.to_sub_value));
                }
                return Err(EccError::UnsatisfiableConstraint);
            },
        };
        proof {
            lemma_assigned_add_value(cfg, &acc, &aux.to_sub, &result);
            lemma_value_of_assigned(cfg, &acc);
            lemma_value_of_assigned(cfg, &aux.to_sub);
            assert(pt_x(spec_msm_adds(cfg, gen, gpairs, wn, kn, (kn - 1) as nat, gpairs.len()))
                != pt_x(aux.to_sub_value));
            assert(!msm_fold_degenerates(cfg, gen, aux.to_sub_value, gpairs, wn, kn));
        }
        Ok(result)
    }
}


/// The window digits of a scalar, most significant first.
pub fn window_digits(scalar: u64, w: u32, k: u32, mw: u64) -> (r: Vec<usize>)
    requires
        1 <= w <= 8,
        1 <= k,
        (w as nat) * (k as nat) <= 47,
        mw == pow2(w as nat),
        mw <= 256,
    ensures
        r@.len() == k,
        forall|q: int|
            0 <= q < k ==> (#[trigger] r@[q]) as nat == window_digit(
                scalar as nat,
                w as nat,
                k as nat,
                q as nat,
            ) && r@[q] < mw,
{
    let ghost wn = w as nat;
    let ghost kn = k as nat;
    let ghost s = scalar as nat;
    let mut digits: Vec<usize> = Vec::new();
    let mut i: u32 = 0;
    while i < k
        invariant
            1 <= w <= 8,
            wn == w as nat,
            kn == k as nat,
            1 <= k,
            wn * kn <= 47,
            mw == pow2(wn),
            mw <= 256,
            s == scalar as nat,
            i <= k,
            digits@.len() == i,
            forall|q: int|
                0 <= q < i ==> (#[trigger] digits@[q]) as nat == window_digit(s, wn, kn, q as nat)
                    && digits@[q] < mw,
        decreases k - i,
    {
        proof {
            assert(wn * ((k - 1 - i) as nat) <= wn * kn) by (nonlinear_arith)
                requires i < k, wn >= 1, kn == k as nat;
        }
        let e = w * (k - 1 - i);
        let pw = pow2_u64(e);
        proof {
            lemma_pow2_pos(e as nat);
            lemma_pow2_pos(wn);
        }
        let d = (scalar / pw) % mw;
        proof {
            lemma_mod_bound((scalar / pw) as int, mw as int);
            assert(e as nat == wn * ((kn - 1 - i) as nat));
            assert(d as nat == window_digit(s, wn, kn, i as nat));
        }
        digits.push(d as usize);
        i = i + 1;
    }
    digits
}

/// Some entry of the window table cannot be built: adding the base onto
/// entry `q` meets a coincident abscissa, where the chord formula is
/// undefined.
pub open spec fn table_step_degenerates(
    cfg: &CurveConfig,
    h: CurvePoint,
    p: CurvePoint,
    tsize: nat,
) -> bool {
    exists|q: nat| q + 1 < tsize && pt_x(#[trigger] spec_table_entry(cfg, h, p, q)) == pt_x(p)
}

/// Builds the window table for one base point: entry `q` is the base added
/// `q` times onto the auxiliary offset.  Fails exactly when some
/// entry-to-entry addition degenerates.
pub fn build_table(
    cfg: &CurveConfig,
    offset: &AssignedPoint,
    point: &AssignedPoint,
    tsize: usize,
) -> (r: Result<Vec<AssignedPoint>, EccError>)
    requires
        cfg.wf(),
        offset.wf(cfg),
        point.wf(cfg),
        tsize >= 1,
    ensures
        match r {
            Ok(t) => t@.len() == tsize && !table_step_degenerates(
                cfg,
                offset.as_value(cfg),
                point.as_value(cfg),
                tsize as nat,
            ) && forall|q: int|
                0 <= q < tsize ==> (#[trigger] t@[q]).wf(cfg) && t@[q].as_value(cfg)
                    == spec_table_entry(cfg, offset.as_value(cfg), point.as_value(cfg), q as nat),
            Err(e) => e == EccError::UnsatisfiableConstraint && table_step_degenerates(
                cfg,
                offset.as_value(cfg),
                point.as_value(cfg),
                tsize as nat,
            ),
        },
{
    let ghost gen = offset.as_value(cfg);
    let ghost pv = point.as_value(cfg);
    let mut table: Vec<AssignedPoint> = Vec::new();
    table.push(offset.duplicate());
    proof {
        assert(table@[0].as_value(cfg) == spec_table_entry(cfg, gen, pv, 0));
        assert(table@[0].wf(cfg));
        lemma_value_of_assigned(cfg, point);
    }
    let mut t: usize = 1;
    while t < tsize
        invariant
            cfg.wf(),
            offset.wf(cfg),
            point.wf(cfg),
            gen == offset.as_value(cfg),
            pv == point.as_value(cfg),
            1 <= t <= tsize,
            table@.len() == t,
            forall|q: int|
                0 <= q < t ==> (#[trigger] table@[q]).wf(cfg) && table@[q].as_value(cfg)
                    == spec_table_entry(cfg, gen, pv, q as nat),
            forall|q: nat| q + 1 < t ==> pt_x(#[trigger] spec_table_entry(cfg, gen, pv, q)) != pt_x(pv),
        decreases tsize - t,
    {
        let prev = &table[t - 1];
        let next = match prev.add(cfg, point) {
            Ok(n) => n,
            Err(_) => {
                proof {
                    lemma_value_of_assigned(cfg, prev);
                    lemma_value_of_assigned(cfg, point);
                    assert(pt_x(spec_table_entry(cfg, gen, pv, (t - 1) as nat)) == pt_x(pv));
                }
                return Err(EccError::UnsatisfiableConstraint);
            },
        };
        proof {
            lemma_assigned_add_value(cfg, prev, point, &next);
            lemma_value_of_assigned(cfg, prev);
            lemma_value_of_assigned(cfg, point);
            assert(pt_x(spec_table_entry(cfg, gen, pv, (t - 1) as nat)) != pt_x(pv));
        }
        table.push(next);
        t = t + 1;
    }
    Ok(table)
}

/// `2^e` as a 64-bit word.
pub fn pow2_u64(e: u32) -> (r: u64)
    requires
        e <= 63,
    ensures
        r == pow2(e as nat),
{
    let mut acc: u64 = 1;
    let mut i: u32 = 0;
    proof {
        lemma2_to64();
    }
    while i < e
        invariant
            i <= e <= 63,
            acc == pow2(i as nat),
        decreases e - i,
    {
        proof {
            lemma_pow2_adds(i as nat, 1);
            lemma2_to64();
            assert(pow2((i + 1) as nat) <= pow2(63)) by {
                if i + 1 < 63 {
                    lemma_pow2_strictly_increases((i + 1) as nat, 63);
                }
            }
            lemma2_to64_rest();
        }
        acc = acc * 2;
        i = i + 1;
    }
    acc
}

} // verus!
