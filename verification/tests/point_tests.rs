use ecc::config::CurveConfig;
use ecc::curve::{value_add, value_mul, value_neg, CurvePoint};
use ecc::point::AssignedPoint;
use ecc::EccError;

// The fixed instance: y^2 = x^3 + 3x + 7 over the prime field of order
// 2^40 + 15, represented in 4 limbs of 68 bits.
fn cfg() -> CurveConfig {
    CurveConfig::new(1099511627791, 3, 7, 4, 68, 16).unwrap()
}

fn pt(x: u64, y: u64) -> CurvePoint {
    CurvePoint::Affine { x, y }
}

const A: (u64, u64) = (3, 480799260708);
const B: (u64, u64) = (4, 444015739403);

#[test]
fn value_add_exact() {
    let cfg = cfg();
    assert_eq!(value_add(&cfg, &pt(A.0, A.1), &pt(B.0, B.1)), pt(713153066001, 333436160111));
    assert_eq!(value_add(&cfg, &pt(A.0, A.1), &pt(A.0, A.1)), pt(920521362801, 867039681088));
}

#[test]
fn value_add_identity_and_inverse() {
    let cfg = cfg();
    let a = pt(A.0, A.1);
    assert_eq!(value_add(&cfg, &CurvePoint::Infinity, &a), a);
    assert_eq!(value_add(&cfg, &a, &CurvePoint::Infinity), a);
    let na = value_neg(&cfg, &a);
    assert_eq!(value_add(&cfg, &a, &na), CurvePoint::Infinity);
}

#[test]
fn value_mul_exact() {
    let cfg = cfg();
    assert_eq!(value_mul(&cfg, 12345, &pt(A.0, A.1)), pt(93180907349, 580521911969));
    assert_eq!(value_mul(&cfg, 0, &pt(A.0, A.1)), CurvePoint::Infinity);
    assert_eq!(value_mul(&cfg, 1, &pt(A.0, A.1)), pt(A.0, A.1));
    assert_eq!(value_mul(&cfg, 2, &pt(A.0, A.1)), pt(920521362801, 867039681088));
}

#[test]
fn assign_point_round_trip() {
    let cfg = cfg();
    let ap = AssignedPoint::assign_point(&cfg, &pt(A.0, A.1)).unwrap();
    assert_eq!(ap.x.compute_residue(&cfg), A.0);
    assert_eq!(ap.y.compute_residue(&cfg), A.1);
}

#[test]
fn assign_point_rejects_identity_and_out_of_range() {
    let cfg = cfg();
    assert_eq!(
        AssignedPoint::assign_point(&cfg, &CurvePoint::Infinity).err(),
        Some(EccError::UnsatisfiableConstraint)
    );
    assert_eq!(
        AssignedPoint::assign_point(&cfg, &pt(1099511627791, 3)).err(),
        Some(EccError::RangeCheckFailure)
    );
}

#[test]
fn circuit_add_matches_assigned_sum() {
    // add(assign(A), assign(B)) equals assign(A + B) under assert_equal.
    let cfg = cfg();
    let a = AssignedPoint::assign_point(&cfg, &pt(A.0, A.1)).unwrap();
    let b = AssignedPoint::assign_point(&cfg, &pt(B.0, B.1)).unwrap();
    let sum = value_add(&cfg, &pt(A.0, A.1), &pt(B.0, B.1));
    let c0 = AssignedPoint::assign_point(&cfg, &sum).unwrap();
    let c1 = a.add(&cfg, &b).unwrap();
    assert_eq!(c0.assert_equal(&cfg, &c1), Ok(()));
    assert_eq!(c1.x.compute_residue(&cfg), 713153066001);
    assert_eq!(c1.y.compute_residue(&cfg), 333436160111);
}

#[test]
fn circuit_add_detects_perturbed_operand() {
    // Perturbing one coordinate of B by one unit must make the equality
    // assertion against assign(A + B) unsatisfiable.
    let cfg = cfg();
    let a = AssignedPoint::assign_point(&cfg, &pt(A.0, A.1)).unwrap();
    let b_bad = AssignedPoint::assign_point(&cfg, &pt(B.0 + 1, B.1)).unwrap();
    let sum = value_add(&cfg, &pt(A.0, A.1), &pt(B.0, B.1));
    let c0 = AssignedPoint::assign_point(&cfg, &sum).unwrap();
    let c1 = a.add(&cfg, &b_bad).unwrap();
    assert_eq!(
        c0.assert_equal(&cfg, &c1).err(),
        Some(EccError::UnsatisfiableConstraint)
    );
}

#[test]
fn circuit_double_matches_assigned_double() {
    // double(assign(A)) equals assign(A + A) under assert_equal.
    let cfg = cfg();
    let a = AssignedPoint::assign_point(&cfg, &pt(A.0, A.1)).unwrap();
    let dbl = value_add(&cfg, &pt(A.0, A.1), &pt(A.0, A.1));
    let c0 = AssignedPoint::assign_point(&cfg, &dbl).unwrap();
    let c1 = a.double(&cfg).unwrap();
    assert_eq!(c0.assert_equal(&cfg, &c1), Ok(()));
}

#[test]
fn circuit_add_undefined_on_equal_abscissae() {
    let cfg = cfg();
    let a = AssignedPoint::assign_point(&cfg, &pt(A.0, A.1)).unwrap();
    let a2 = AssignedPoint::assign_point(&cfg, &pt(A.0, A.1)).unwrap();
    assert_eq!(a.add(&cfg, &a2).err(), Some(EccError::UnsatisfiableConstraint));
}

#[test]
fn circuit_double_undefined_on_zero_ordinate() {
    let cfg = cfg();
    let a = AssignedPoint::assign_point(&cfg, &pt(4, 0)).unwrap();
    assert_eq!(a.double(&cfg).err(), Some(EccError::UnsatisfiableConstraint));
}
