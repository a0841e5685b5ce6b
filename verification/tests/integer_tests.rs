use ecc::config::CurveConfig;
use ecc::field::sqrt_mod;
use ecc::integer::Fint;
use ecc::EccError;

fn cfg_wide() -> CurveConfig {
    // Four limbs of 68 bits over a small prime field.
    CurveConfig::new(1099511627791, 3, 7, 4, 68, 16).unwrap()
}

fn cfg_narrow() -> CurveConfig {
    // Eight limbs of 8 bits: values split across several limbs.
    CurveConfig::new(1099511627791, 3, 7, 8, 8, 16).unwrap()
}

#[test]
fn config_rejects_composite_modulus() {
    assert!(CurveConfig::new(1099511627790, 3, 7, 4, 68, 16).is_none());
    assert!(CurveConfig::new(1099511627791, 1099511627791, 7, 4, 68, 16).is_none());
    assert!(CurveConfig::new(1099511627791, 3, 7, 0, 68, 16).is_none());
    assert!(CurveConfig::new(1099511627791, 3, 7, 4, 68, 0).is_none());
}

#[test]
fn assign_round_trip() {
    let cfg = cfg_wide();
    let f = Fint::assign(&cfg, 1234).unwrap();
    assert_eq!(f.compute_residue(&cfg), 1234);
    assert_eq!(f.limbs.len(), 4);
    assert_eq!(f.limbs[0], 1234);
    assert_eq!(f.limbs[1], 0);
}

#[test]
fn assign_splits_limbs() {
    let cfg = cfg_narrow();
    let f = Fint::assign(&cfg, 1099511627790).unwrap();
    // 2^40 + 14: the low limb holds 14, the sixth limb holds 1.
    assert_eq!(f.limbs[0], 14);
    assert_eq!(f.limbs[5], 1);
    assert_eq!(f.compute_residue(&cfg), 1099511627790);
}

#[test]
fn assign_rejects_out_of_field() {
    let cfg = cfg_wide();
    assert_eq!(Fint::assign(&cfg, 1099511627791), Err(EccError::RangeCheckFailure));
    assert_eq!(Fint::assign(&cfg, 1099511627999), Err(EccError::RangeCheckFailure));
}

#[test]
fn lazy_add_defers_reduction() {
    let cfg = cfg_wide();
    let a = Fint::assign(&cfg, 9000).unwrap();
    let b = Fint::assign(&cfg, 8000).unwrap();
    let sum = a.add_lazy(&cfg, &b);
    // Limb-wise sum; reduction is deferred and the bound doubled.
    assert_eq!(sum.limbs[0], 17000);
    assert_eq!(sum.limb_bound, a.limb_bound * 2);
    // The denoted element is already the reduced sum.
    assert_eq!(sum.compute_residue(&cfg), 9000 + 8000);
    let reduced = sum.reduce(&cfg);
    assert_eq!(reduced.limbs[0], 9000 + 8000);
    assert_eq!(reduced.compute_residue(&cfg), sum.compute_residue(&cfg));
}

#[test]
fn equality_is_by_residue_not_by_limbs() {
    // A lazy sum that wrapped past the modulus and the canonical form of
    // the same element decompose differently.
    let cfg = cfg_wide();
    let a = Fint::assign(&cfg, 1099511627790).unwrap();
    let b = Fint::assign(&cfg, 5).unwrap();
    let lazy = a.add_lazy(&cfg, &b);
    let canonical = Fint::assign(&cfg, 4).unwrap();
    // Distinct limb decompositions of the same element must compare equal.
    assert_ne!(lazy.limbs, canonical.limbs);
    assert_eq!(lazy.assert_equal(&cfg, &canonical), Ok(()));
}

#[test]
fn mul_exact_value() {
    let cfg = cfg_wide();
    let a = Fint::assign(&cfg, 1234).unwrap();
    let b = Fint::assign(&cfg, 5678).unwrap();
    assert_eq!(a.mul_mod(&cfg, &b).compute_residue(&cfg), 7006652);
}

#[test]
fn sub_exact_value() {
    let cfg = cfg_wide();
    let a = Fint::assign(&cfg, 1234).unwrap();
    let b = Fint::assign(&cfg, 5678).unwrap();
    assert_eq!(a.sub_mod(&cfg, &b).compute_residue(&cfg), 1099511623347);
}

#[test]
fn invert_exact_value() {
    let cfg = cfg_wide();
    let a = Fint::assign(&cfg, 1234).unwrap();
    let inv = a.invert(&cfg).unwrap();
    assert_eq!(inv.compute_residue(&cfg), 250375014108);
    assert_eq!(inv.mul_mod(&cfg, &a).compute_residue(&cfg), 1);
}

#[test]
fn invert_of_zero_is_unsatisfiable() {
    let cfg = cfg_wide();
    let z = Fint::assign(&cfg, 0).unwrap();
    assert_eq!(z.invert(&cfg).err(), Some(EccError::UnsatisfiableConstraint));
}

#[test]
fn tampered_limb_breaks_equality() {
    let cfg = cfg_wide();
    let pristine = Fint::assign(&cfg, 4321).unwrap();
    let mut tampered = Fint::assign(&cfg, 4321).unwrap();
    // Mutating one limb outside the defined operations must make the
    // equality assertion unsatisfiable.
    tampered.limbs[0] += 1;
    assert_eq!(
        pristine.assert_equal(&cfg, &tampered).err(),
        Some(EccError::UnsatisfiableConstraint)
    );
}

#[test]
fn tampered_high_limb_breaks_equality() {
    let cfg = cfg_narrow();
    let pristine = Fint::assign(&cfg, 1099511627790).unwrap();
    let mut tampered = Fint::assign(&cfg, 1099511627790).unwrap();
    tampered.limbs[3] = 1;
    assert_eq!(
        pristine.assert_equal(&cfg, &tampered).err(),
        Some(EccError::UnsatisfiableConstraint)
    );
}

#[test]
fn sqrt_mod_finds_small_roots() {
    assert_eq!(sqrt_mod(9, 1099511627791), Some(3));
    assert_eq!(sqrt_mod(0, 1099511627791), Some(0));
}
