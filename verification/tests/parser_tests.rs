use matrix_solver::fraction::Fraction;
use matrix_solver::matrix::Matrix;
use matrix_solver::{parse, SolveError};

fn f(n: i64) -> Fraction {
    if n < 0 {
        Fraction::negative_n((-n) as u64)
    } else {
        Fraction::positive_n(n as u64)
    }
}

#[test]
fn simple() {
    assert_eq!(
        parse("(1|2)").unwrap(),
        Matrix::create([[f(1)]], [[f(2)]])
    );
}

#[test]
fn parser_complex() {
    assert_eq!(
        parse("(1;3;2/3|2)\n(2;-4;0|9)\n(0/2;2/4;1/2|5)").unwrap(),
        Matrix::create(
            [
                [f(1), f(3), Fraction::positive(2, 3).unwrap()],
                [f(2), f(-4), f(0)],
                [
                    f(0),
                    Fraction::positive(1, 2).unwrap(),
                    Fraction::positive(1, 2).unwrap()
                ],
            ],
            [[f(2)], [f(9)], [f(5)]],
        )
    );
}

#[test]
fn fails() {
    assert!(parse("1|3").is_err());
    assert!(parse("(2|3").is_err());
    assert!(parse("2|3)").is_err());
    assert!(parse("(2|3)\n(3;4|4)").is_err());
    assert!(parse("(2;3|").is_err());
    assert!(parse("(2;3)").is_err());
}

#[test]
fn parse_error_carries_the_line() {
    assert!(matches!(parse("(2;3)"), Err(SolveError::Parse(_))));
    if let Err(SolveError::Parse(line)) = parse("(1;2|3)\n(4;x|5)") {
        assert_eq!(line, "(4;x|5)");
    } else {
        panic!("expected a parse error carrying the offending line");
    }
}

#[test]
fn zero_denominator_entry_fails() {
    assert!(parse("(1/0|2)").is_err());
}

#[test]
fn trailing_newline_is_tolerated() {
    assert_eq!(
        parse("(1|2)\n").unwrap(),
        Matrix::create([[f(1)]], [[f(2)]])
    );
}

#[test]
fn crlf_line_endings_are_tolerated() {
    assert_eq!(
        parse("(1;2|3)\r\n(0;1|4)\r\n").unwrap(),
        Matrix::create([[f(1), f(2)], [f(0), f(1)]], [[f(3)], [f(4)]])
    );
}

#[test]
fn leading_plus_sign_is_accepted() {
    assert_eq!(
        parse("(+1|+2/+4)").unwrap(),
        Matrix::create([[f(1)]], [[Fraction::positive(1, 2).unwrap()]])
    );
}

#[test]
fn render_then_parse_round_trip() {
    // rendering a matrix and re-parsing yields a matrix with equal rows
    let m = Matrix::create(
        [
            [f(1), f(3), Fraction::positive(2, 3).unwrap()],
            [f(2), f(-4), f(0)],
            [
                f(0),
                Fraction::negative(1, 2).unwrap(),
                Fraction::positive(1, 2).unwrap()
            ],
        ],
        [[f(2)], [f(9)], [Fraction::negative(5, 7).unwrap()]],
    );
    let text = m.to_text();
    let back = parse(text.as_str()).unwrap();
    assert_eq!(back, m);
}

#[test]
fn render_matches_format() {
    let m = Matrix::create(
        [[f(1), Fraction::negative(2, 3).unwrap()], [f(0), f(4)]],
        [[f(5)], [f(-6)]],
    );
    assert_eq!(m.to_text(), "(1;-2/3|5)\n(0;4|-6)");
}
