use ecc::chip::EccChip;
use ecc::config::CurveConfig;
use ecc::curve::{value_add, value_mul, CurvePoint};
use ecc::point::AssignedPoint;
use ecc::EccError;

fn cfg() -> CurveConfig {
    CurveConfig::new(1099511627791, 3, 7, 4, 68, 16).unwrap()
}

fn pt(x: u64, y: u64) -> CurvePoint {
    CurvePoint::Affine { x, y }
}

const A: (u64, u64) = (3, 480799260708);
const H: (u64, u64) = (15, 139459886429);

const PAIRS: [((u64, u64), u64); 6] = [
    ((3, 480799260708), 40001),
    ((4, 444015739403), 51234),
    ((6, 928209796681), 60007),
    ((8, 781975961977), 35791),
    ((9, 500681657218), 48620),
    ((11, 465874246047), 59999),
];

#[test]
fn mul_matches_assigned_product_for_each_window_size() {
    // mul(assign(P), s, w) equals assign(s * P) for window sizes 1 to 4:
    // the window size must not change the result.
    let cfg = cfg();
    let s: u64 = 12345;
    for w in 1..5u32 {
        let mut chip = EccChip::new(cfg);
        chip.assign_aux_generator(&pt(H.0, H.1)).unwrap();
        chip.assign_aux(w, 1).unwrap();
        let base = AssignedPoint::assign_point(&cfg, &pt(A.0, A.1)).unwrap();
        let result = chip.mul(&base, s, w).unwrap();
        let expected =
            AssignedPoint::assign_point(&cfg, &value_mul(&cfg, s, &pt(A.0, A.1))).unwrap();
        assert_eq!(expected.assert_equal(&cfg, &result), Ok(()));
        assert_eq!(result.x.compute_residue(&cfg), 93180907349);
        assert_eq!(result.y.compute_residue(&cfg), 580521911969);
    }
}

#[test]
fn mul_handles_small_scalars() {
    let cfg = cfg();
    let mut chip = EccChip::new(cfg);
    chip.assign_aux_generator(&pt(H.0, H.1)).unwrap();
    chip.assign_aux(2, 1).unwrap();
    let base = AssignedPoint::assign_point(&cfg, &pt(A.0, A.1)).unwrap();
    for s in [1u64, 2, 3, 7, 255, 256, 65535] {
        let result = chip.mul(&base, s, 2).unwrap();
        let expected =
            AssignedPoint::assign_point(&cfg, &value_mul(&cfg, s, &pt(A.0, A.1))).unwrap();
        assert_eq!(expected.assert_equal(&cfg, &result), Ok(()));
    }
}

#[test]
fn mul_batch_matches_assigned_sum() {
    // mul_batch_1d_horizontal over 5 and 6 pairs, window sizes 1 and 2,
    // equals assign of the sum of the individually scaled points.
    let cfg = cfg();
    for n in [5usize, 6] {
        for w in 1..3u32 {
            let mut chip = EccChip::new(cfg);
            chip.assign_aux_generator(&pt(H.0, H.1)).unwrap();
            chip.assign_aux(w, n).unwrap();
            let mut pairs: Vec<(AssignedPoint, u64)> = Vec::new();
            let mut acc = CurvePoint::Infinity;
            for ((x, y), s) in PAIRS.iter().take(n) {
                let base = AssignedPoint::assign_point(&cfg, &pt(*x, *y)).unwrap();
                pairs.push((base, *s));
                acc = value_add(&cfg, &acc, &value_mul(&cfg, *s, &pt(*x, *y)));
            }
            let result = chip.mul_batch_1d_horizontal(&pairs, w).unwrap();
            let expected = AssignedPoint::assign_point(&cfg, &acc).unwrap();
            assert_eq!(expected.assert_equal(&cfg, &result), Ok(()));
        }
    }
}

#[test]
fn msm_exact_values() {
    let cfg = cfg();
    // Precomputed weighted sums of the fixed pairs.
    let mut acc5 = CurvePoint::Infinity;
    for ((x, y), s) in PAIRS.iter().take(5) {
        acc5 = value_add(&cfg, &acc5, &value_mul(&cfg, *s, &pt(*x, *y)));
    }
    assert_eq!(acc5, pt(274443985178, 852318338180));
    let mut acc6 = CurvePoint::Infinity;
    for ((x, y), s) in PAIRS.iter() {
        acc6 = value_add(&cfg, &acc6, &value_mul(&cfg, *s, &pt(*x, *y)));
    }
    assert_eq!(acc6, pt(1069218624323, 914076486920));
}

fn aux_snapshot(chip: &EccChip, cfg: &CurveConfig) -> (Vec<(u64, u64)>, u64, u64, CurvePoint) {
    let aux = chip.get_mul_aux(3, 2).unwrap();
    let offsets: Vec<(u64, u64)> = aux
        .to_adds
        .iter()
        .map(|p| (p.x.compute_residue(cfg), p.y.compute_residue(cfg)))
        .collect();
    (
        offsets,
        aux.to_sub.x.compute_residue(cfg),
        aux.to_sub.y.compute_residue(cfg),
        aux.to_sub_value,
    )
}

#[test]
fn aux_determinism() {
    // Two queries with one (window_size, pair_count) on one chip state give
    // identical correction data.
    let cfg = cfg();
    let mut chip = EccChip::new(cfg);
    chip.assign_aux_generator(&pt(H.0, H.1)).unwrap();
    chip.assign_aux(3, 2).unwrap();
    let first = aux_snapshot(&chip, &cfg);
    let second = aux_snapshot(&chip, &cfg);
    assert_eq!(first, second);
    // Re-deriving the same key gives the same data again.
    chip.assign_aux(3, 2).unwrap();
    let third = aux_snapshot(&chip, &cfg);
    assert_eq!(first, third);
}

#[test]
fn mul_without_aux_is_a_configuration_mismatch() {
    let cfg = cfg();
    let mut chip = EccChip::new(cfg);
    chip.assign_aux_generator(&pt(H.0, H.1)).unwrap();
    chip.assign_aux(2, 1).unwrap();
    let base = AssignedPoint::assign_point(&cfg, &pt(A.0, A.1)).unwrap();
    // Window size 3 was never assigned.
    assert_eq!(
        chip.mul(&base, 99, 3).err(),
        Some(EccError::AuxConfigurationMismatch)
    );
    // A pair count of 2 was never assigned either.
    let base2 = AssignedPoint::assign_point(&cfg, &pt(4, 444015739403)).unwrap();
    assert_eq!(
        chip.mul_batch_1d_horizontal(&vec![(base, 99u64), (base2, 98u64)], 2).err(),
        Some(EccError::AuxConfigurationMismatch)
    );
}

#[test]
fn mul_batch_handles_shared_zero_digits() {
    // Two scalars below 2^15 at window size 1 make both top window digits
    // 0.  Each pair's table carries its own offset share, so the round-0
    // additions do not collide and the batch matches the assigned sum.
    let cfg = cfg();
    let mut chip = EccChip::new(cfg);
    chip.assign_aux_generator(&pt(H.0, H.1)).unwrap();
    chip.assign_aux(1, 2).unwrap();
    let p0 = AssignedPoint::assign_point(&cfg, &pt(3, 480799260708)).unwrap();
    let p1 = AssignedPoint::assign_point(&cfg, &pt(4, 444015739403)).unwrap();
    let pairs = vec![(p0, 100u64), (p1, 137u64)];
    let result = chip.mul_batch_1d_horizontal(&pairs, 1).unwrap();
    let mut acc = value_mul(&cfg, 100, &pt(3, 480799260708));
    acc = value_add(&cfg, &acc, &value_mul(&cfg, 137, &pt(4, 444015739403)));
    assert_eq!(acc, pt(1039610939203, 1055969368472));
    let expected = AssignedPoint::assign_point(&cfg, &acc).unwrap();
    assert_eq!(expected.assert_equal(&cfg, &result), Ok(()));
}

#[test]
fn aux_before_generator_is_a_configuration_mismatch() {
    let cfg = cfg();
    let mut chip = EccChip::new(cfg);
    assert_eq!(
        chip.assign_aux(2, 1).err(),
        Some(EccError::AuxConfigurationMismatch)
    );
}

#[test]
fn identity_generator_is_degenerate() {
    let cfg = cfg();
    let mut chip = EccChip::new(cfg);
    assert_eq!(
        chip.assign_aux_generator(&CurvePoint::Infinity).err(),
        Some(EccError::DegenerateAuxiliary)
    );
}

#[test]
fn regenerating_the_generator_invalidates_corrections() {
    let cfg = cfg();
    let mut chip = EccChip::new(cfg);
    chip.assign_aux_generator(&pt(H.0, H.1)).unwrap();
    chip.assign_aux(2, 1).unwrap();
    assert!(chip.get_mul_aux(2, 1).is_ok());
    // A fresh generator discards every derived correction.
    chip.assign_aux_generator(&pt(11, 465874246047)).unwrap();
    assert_eq!(
        chip.get_mul_aux(2, 1).err(),
        Some(EccError::AuxConfigurationMismatch)
    );
}
