use matrix_solver::fraction::Fraction;
use matrix_solver::row::Row;

fn f(n: i64) -> Fraction {
    if n < 0 {
        Fraction::negative_n((-n) as u64)
    } else {
        Fraction::positive_n(n as u64)
    }
}

#[test]
fn row_mul() {
    assert_eq!(
        Row::new(vec![Fraction::zero(), f(1), f(2)], vec![f(3), f(4)])
            .times(f(2))
            .unwrap(),
        Row::new(vec![f(0), f(2), f(4)], vec![f(6), f(8)])
    );
}

#[test]
fn sub() {
    assert_eq!(
        Row::new(vec![f(0), f(1), f(2)], vec![f(3), f(4)])
            .minus(&Row::new(vec![f(0), f(1), f(0)], vec![f(0), f(1)]))
            .unwrap(),
        Row::new(vec![f(0), f(0), f(2)], vec![f(3), f(3)])
    );
}

#[test]
fn index() {
    let cut = Row::new(vec![f(0), f(1), f(2)], vec![f(3), f(4)]);
    assert_eq!(cut.at(0), f(0));
    assert_eq!(cut.at(1), f(1));
    assert_eq!(cut.at(2), f(2));
    assert_eq!(cut.at(-1), f(4));
    assert_eq!(cut.at(-2), f(3));
}

#[test]
fn scale_then_divide_recovers() {
    // (r * f) / f == r, elementwise
    let r = Row::new(
        vec![f(2), Fraction::negative(3, 4).unwrap(), f(0)],
        vec![Fraction::positive(5, 6).unwrap()],
    );
    let s = Fraction::negative(7, 2).unwrap();
    let scaled = r.times(s).unwrap();
    let back = scaled.div_by(s).unwrap();
    assert_eq!(back, r);
}
