use matrix_solver::fraction::Fraction;
use matrix_solver::SolveError;

fn pos(n: u64, d: u64) -> Fraction {
    Fraction::positive(n, d).unwrap()
}

fn neg(n: u64, d: u64) -> Fraction {
    Fraction::negative(n, d).unwrap()
}

#[test]
fn from_nom_denom_pair() {
    assert_eq!(
        Fraction::positive_n(6).div_by(Fraction::positive_n(8)).unwrap(),
        pos(3, 4)
    );
}

#[test]
fn truncate() {
    assert_eq!(
        Fraction::new(true, 7, 14).unwrap().reduced(),
        Fraction::new(true, 1, 2).unwrap()
    );
}

#[test]
fn negate() {
    assert_eq!(
        Fraction::new(false, 1, 2).unwrap().neg(),
        Fraction::new(true, 1, 2).unwrap()
    );
}

#[test]
fn add() {
    assert_eq!(
        pos(1, 2).plus(pos(1, 2)).unwrap(),
        Fraction::new(false, 1, 1).unwrap()
    );
    assert_eq!(pos(1, 2).plus(neg(1, 2)).unwrap().sign(), 0);
}

#[test]
fn fraction_mul() {
    assert_eq!(pos(3, 2).times(neg(1, 3)).unwrap(), neg(1, 2));
}

#[test]
fn div() {
    assert_eq!(pos(3, 2).div_by(pos(3, 1)).unwrap(), pos(1, 2));
}

#[test]
fn div_then_mul_recovers() {
    // (a / b) * b == a, exactly
    let a = pos(3, 4);
    let b = neg(2, 5);
    let q = a.div_by(b).unwrap();
    assert_eq!(q.times(b).unwrap(), a);
}

#[test]
fn mul_then_div_recovers() {
    let a = neg(7, 3);
    let b = pos(5, 9);
    let p = a.times(b).unwrap();
    assert_eq!(p.div_by(b).unwrap(), a);
}

#[test]
fn add_negation_is_zero() {
    let a = neg(9, 13);
    let z = a.plus(a.neg()).unwrap();
    assert_eq!(z.sign(), 0);
    assert!(z.is_zero());
}

#[test]
fn reduce_is_idempotent() {
    let a = pos(24, 36);
    assert_eq!(a.reduced(), a.reduced().reduced());
}

#[test]
fn zero_denominator_is_reported() {
    assert!(matches!(
        Fraction::new(false, 1, 0),
        Err(SolveError::DivisionByZero)
    ));
    assert!(matches!(
        pos(1, 2).div_by(Fraction::zero()),
        Err(SolveError::DivisionByZero)
    ));
}

#[test]
fn overflow_is_reported() {
    let big = Fraction::positive_n(u64::MAX);
    assert!(matches!(
        big.plus(big),
        Err(SolveError::ArithmeticOverflow)
    ));
}

#[test]
fn swap_is_sign_preserving_reciprocal() {
    let a = neg(3, 7);
    let s = a.swapped();
    assert_eq!(s, neg(7, 3));
    assert_eq!(Fraction::zero().swapped(), Fraction::zero());
}

#[test]
fn sign_and_abs() {
    assert_eq!(neg(2, 3).sign(), -1);
    assert_eq!(pos(2, 3).sign(), 1);
    assert_eq!(Fraction::zero().sign(), 0);
    assert_eq!(neg(2, 3).abs(), pos(2, 3));
    assert!(neg(2, 3).is_negative());
    assert!(!pos(2, 3).is_negative());
}
