//! Tests of the fixed-point exponential and logarithm: exact values of
//! the deterministic iterations, the domain errors, and the round-trip
//! accuracy bound.

use stoichiometric::decimal::Decimal;
use stoichiometric::decimal_maths::{exp, ln, pow, powi, EULER_NUMBER};

fn d(units: i64) -> Decimal {
    Decimal::from_int(units)
}

fn raw(v: i128) -> Decimal {
    Decimal::from_raw(v)
}

/// About `1e-13`, the round-trip tolerance of the reference system.
fn tolerance() -> Decimal {
    raw(100_000)
}

#[test]
fn test_exp_zero() {
    assert_eq!(exp(&d(0)).unwrap(), d(1));
}

#[test]
fn test_exp_random_pos() {
    // a representative positive argument below e
    let res = exp(&raw(1_500_000_000_000_000_000)).unwrap();
    assert_eq!(res, raw(4_481689070338064806));
    let true_res = raw(4_481689070338064823); // e^1.5 to eighteen digits
    let diff = res.checked_sub(&true_res).unwrap().abs();
    assert!(diff.lt(&tolerance()));
}

#[test]
fn test_exp_random_neg() {
    // a representative negative argument
    let res = exp(&raw(-1_500_000_000_000_000_000)).unwrap();
    assert_eq!(res, raw(223130160148429829));
    let true_res = raw(223130160148429829); // e^-1.5 to eighteen digits
    let diff = res.checked_sub(&true_res).unwrap().abs();
    assert!(diff.lt(&tolerance()));
}

#[test]
fn test_exp_below_cutoff_is_zero() {
    assert_eq!(exp(&d(-44)).unwrap(), d(0));
}

#[test]
#[should_panic]
fn test_ln_neg() {
    let r = ln(&d(-5));
    r.unwrap();
}

#[test]
#[should_panic]
fn test_ln_zero() {
    let r = ln(&d(0));
    r.unwrap();
}

#[test]
fn test_ln_int() {
    // ln(exp(12)) returns to 12 within the tolerance
    let e12 = exp(&d(12)).unwrap();
    let res = ln(&e12).unwrap();
    let diff = res.checked_sub(&d(12)).unwrap().abs();
    assert!(diff.lt(&raw(1_000)));
}

#[test]
fn test_ln_euler() {
    assert_eq!(ln(&raw(EULER_NUMBER)).unwrap(), d(1));
}

#[test]
fn test_ln_random() {
    // a representative argument over one reduction by e
    let res = ln(&raw(1234_567800000000000000)).unwrap();
    assert_eq!(res, raw(7_118476228297786297));
    let true_res = raw(7_118476228297786297); // ln(1234.5678) to eighteen digits
    let diff = res.checked_sub(&true_res).unwrap().abs();
    assert!(diff.lt(&raw(100_000_000_000)));
}

#[test]
fn test_exp_ln_round_trip() {
    for x in [raw(500_000_000_000_000_000), d(1), d(7), d(100), d(12345)] {
        let res = exp(&ln(&x).unwrap()).unwrap();
        let diff = res.checked_sub(&x).unwrap().abs();
        // relative tolerance of about 1e-13
        let bound = x.checked_mul(&raw(100_000)).unwrap().checked_add(&raw(100_000)).unwrap();
        assert!(diff.lt(&bound));
    }
    // the other direction only where the exponential is representable
    for x in [raw(500_000_000_000_000_000), d(1), d(7), d(20), d(40)] {
        let bound = x.checked_mul(&raw(100_000)).unwrap().checked_add(&raw(100_000)).unwrap();
        let res2 = ln(&exp(&x).unwrap()).unwrap();
        let diff2 = res2.checked_sub(&x).unwrap().abs();
        assert!(diff2.lt(&bound));
    }
}

#[test]
fn test_pow_zero_zero_fails() {
    assert!(pow(&d(0), &d(0)).is_err());
}

#[test]
fn test_pow_and_powi_agree_on_small_powers() {
    let base = raw(1_000105411144423293);
    let cube_by_powi = powi(&base, 3).unwrap();
    // base * base * base, truncating at each step
    let sq = base.checked_mul(&base).unwrap();
    let cube = sq.checked_mul(&base).unwrap();
    assert_eq!(cube_by_powi, cube);
}
