use matrix_solver::fraction::Fraction;
use matrix_solver::matrix::{Matrix, MatrixState};
use matrix_solver::row::Row;
use matrix_solver::solver::SolveOutcome;
use matrix_solver::{solve, solve_with_history, SolveError};

fn f(n: i64) -> Fraction {
    if n < 0 {
        Fraction::negative_n((-n) as u64)
    } else {
        Fraction::positive_n(n as u64)
    }
}

fn m2(l: [[i64; 2]; 2], r: [i64; 2]) -> Matrix {
    Matrix::create(
        [[f(l[0][0]), f(l[0][1])], [f(l[1][0]), f(l[1][1])]],
        [[f(r[0])], [f(r[1])]],
    )
}

fn m4(l: [[i64; 4]; 4], r: [i64; 4]) -> Matrix {
    Matrix::create(
        [
            [f(l[0][0]), f(l[0][1]), f(l[0][2]), f(l[0][3])],
            [f(l[1][0]), f(l[1][1]), f(l[1][2]), f(l[1][3])],
            [f(l[2][0]), f(l[2][1]), f(l[2][2]), f(l[2][3])],
            [f(l[3][0]), f(l[3][1]), f(l[3][2]), f(l[3][3])],
        ],
        [[f(r[0])], [f(r[1])], [f(r[2])], [f(r[3])]],
    )
}

#[test]
fn leave_if_perfect() {
    let mut cut = m2([[1, 1], [0, 1]], [1, 1]);
    cut.optimize_indeces();
    assert_eq!(cut.row_sequence(), &vec![0usize, 1]);
    assert_eq!(cut.col_sequence(), &vec![0usize, 1]);
}

#[test]
fn switch_cols() {
    let mut cut = m2([[1, 1], [1, 0]], [1, 1]);
    cut.optimize_indeces();
    assert_eq!(cut.row_sequence(), &vec![0usize, 1]);
    assert_eq!(cut.col_sequence(), &vec![1usize, 0]);
}

#[test]
fn switch_rows() {
    let mut cut = m2([[0, 1], [1, 1]], [1, 1]);
    cut.optimize_indeces();
    assert_eq!(cut.row_sequence(), &vec![1usize, 0]);
    assert_eq!(cut.col_sequence(), &vec![0usize, 1]);
}

#[test]
fn matrix_complex() {
    let mut cut = m4(
        [[0, 0, 1, 1], [1, 0, 1, 0], [1, 1, 0, 1], [1, 0, 0, 0]],
        [1, 1, 1, 1],
    );
    cut.optimize_indeces();
    assert_eq!(cut.col_sequence(), &vec![1usize, 3, 2, 0]);
    assert_eq!(cut.row_sequence(), &vec![2usize, 0, 1, 3]);

    let mut cut = m4(
        [[0, 1, 1, 1], [1, 0, 1, 1], [1, 0, 0, 1], [0, 1, 1, 1]],
        [1, 1, 1, 1],
    );
    cut.optimize_indeces();
    assert_eq!(&cut.col_sequence()[..2], &[1usize, 2]);
}

#[test]
fn create_matrix() {
    let cut = Matrix::create(
        [
            [f(1), f(0), f(1)],
            [f(0), f(1), f(1)],
            [f(1), f(0), f(0)],
        ],
        [[f(1)], [f(1)], [f(1)]],
    );
    assert_eq!(cut.col_sequence(), &vec![1usize, 2, 0]);
    assert_eq!(cut.row_sequence(), &vec![1usize, 0, 2]);

    let cut = m4(
        [[2, 1, 7, -2], [0, 0, 2, 1], [2, 2, 1, 0], [0, 0, 1, 1]],
        [5, 3, 1, 2],
    );
    assert_eq!(cut.col_sequence(), &vec![0usize, 1, 2, 3]);
    assert_eq!(cut.row_sequence(), &vec![0usize, 2, 1, 3]);
}

#[test]
fn get_next_matrix() {
    let initial = m4(
        [[0, 1, 0, -1], [1, 1, 4, 2], [0, 2, 1, 1], [1, 0, 1, 0]],
        [1, 3, 5, -1],
    );
    assert_eq!(initial.col_sequence(), &vec![0usize, 2, 1, 3]);
    assert_eq!(initial.row_sequence(), &vec![1usize, 3, 2, 0]);
    assert_eq!(*initial.state(), MatrixState::Null(0));

    let step1 = initial.calculate_next().unwrap().unwrap();
    assert_eq!(
        step1,
        m4(
            [[0, 1, 0, -1], [1, 1, 4, 2], [0, 2, 1, 1], [0, -1, -3, -2]],
            [1, 3, 5, -4],
        )
    );
    assert_eq!(step1.col_sequence(), &vec![0usize, 2, 1, 3]);
    assert_eq!(step1.row_sequence(), &vec![1usize, 2, 3, 0]);
    assert_eq!(*step1.state(), MatrixState::Null(1));

    let step2 = step1.calculate_next().unwrap().unwrap();
    assert_eq!(
        step2,
        m4(
            [[0, 1, 0, -1], [1, 1, 4, 2], [0, 2, 1, 1], [0, 5, 0, 1]],
            [1, 3, 5, 11],
        )
    );
    assert_eq!(step2.col_sequence(), &vec![0usize, 2, 1, 3]);
    assert_eq!(step2.row_sequence(), &vec![1usize, 2, 0, 3]);
    assert_eq!(*step2.state(), MatrixState::Null(2));

    let step3 = step2.calculate_next().unwrap().unwrap();
    assert_eq!(
        step3,
        m4(
            [[0, 1, 0, -1], [1, 1, 4, 2], [0, 2, 1, 1], [0, 0, 0, 6]],
            [1, 3, 5, 6],
        )
    );
    assert_eq!(step3.col_sequence(), &vec![0usize, 2, 1, 3]);
    assert_eq!(step3.row_sequence(), &vec![1usize, 2, 0, 3]);
    assert_eq!(*step3.state(), MatrixState::NormalizeRow(3));

    let step4 = step3.calculate_next().unwrap().unwrap();
    assert_eq!(
        step4,
        m4(
            [[0, 1, 0, -1], [1, 1, 4, 2], [0, 2, 1, 1], [0, 0, 0, 1]],
            [1, 3, 5, 1],
        )
    );
    assert_eq!(step4.col_sequence(), &vec![0usize, 2, 1, 3]);
    assert_eq!(step4.row_sequence(), &vec![1usize, 2, 0, 3]);
    assert_eq!(*step4.state(), MatrixState::ReInsertRow(2));

    let step5 = step4.calculate_next().unwrap().unwrap();
    assert_eq!(
        step5,
        m4(
            [[0, 1, 0, 0], [1, 1, 4, 2], [0, 2, 1, 1], [0, 0, 0, 1]],
            [2, 3, 5, 1],
        )
    );
    assert_eq!(step5.col_sequence(), &vec![0usize, 2, 1, 3]);
    assert_eq!(step5.row_sequence(), &vec![1usize, 2, 0, 3]);
    assert_eq!(*step5.state(), MatrixState::ReInsertRow(1));

    let step6 = step5.calculate_next().unwrap().unwrap();
    assert_eq!(
        step6,
        m4(
            [[0, 1, 0, 0], [1, 1, 4, 2], [0, 0, 1, 0], [0, 0, 0, 1]],
            [2, 3, 0, 1],
        )
    );
    assert_eq!(step6.col_sequence(), &vec![0usize, 2, 1, 3]);
    assert_eq!(step6.row_sequence(), &vec![1usize, 2, 0, 3]);
    assert_eq!(*step6.state(), MatrixState::ReInsertRow(0));

    let step7 = step6.calculate_next().unwrap().unwrap();
    assert_eq!(
        step7,
        m4(
            [[0, 1, 0, 0], [1, 0, 0, 0], [0, 0, 1, 0], [0, 0, 0, 1]],
            [2, -1, 0, 1],
        )
    );
    assert_eq!(step7.col_sequence(), &vec![0usize, 2, 1, 3]);
    assert_eq!(step7.row_sequence(), &vec![1usize, 2, 0, 3]);
    assert_eq!(*step7.state(), MatrixState::Done);

    assert_eq!(solve(initial.clone()), step7);
    assert_eq!(solve_with_history(initial).get(-1), step7);
}

#[test]
fn end_to_end_outcome_is_solved() {
    let initial = m4(
        [[0, 1, 0, -1], [1, 1, 4, 2], [0, 2, 1, 1], [1, 0, 1, 0]],
        [1, 3, 5, -1],
    );
    let s = solve_with_history(initial);
    assert_eq!(s.outcome(), Some(SolveOutcome::Solved));
    let last = s.get(-1);
    assert_eq!(*last.state(), MatrixState::Done);
}

#[test]
fn singular_system_is_reported() {
    // a zero row among the coefficients must fail, not silently finish
    let m = Matrix::create([[f(1), f(0)], [f(0), f(0)]], [[f(1)], [f(1)]]);
    let s = solve_with_history(m);
    assert_eq!(s.outcome(), Some(SolveOutcome::SingularSystem));
    assert_ne!(*s.get(-1).state(), MatrixState::Done);
}

#[test]
fn short_row_is_a_configuration_error() {
    let rows = vec![
        Row::new(vec![f(1)], vec![f(1)]),
        Row::new(vec![f(0), f(1)], vec![f(1)]),
    ];
    assert!(matches!(
        Matrix::new_with_rows(rows),
        Err(SolveError::Configuration)
    ));
}

#[test]
fn new_with_rows_keeps_identity_orders() {
    let rows = vec![
        Row::new(vec![f(1), f(2)], vec![f(3)]),
        Row::new(vec![f(4), f(5)], vec![f(6)]),
    ];
    let m = Matrix::new_with_rows(rows).unwrap();
    assert_eq!(m.row_sequence(), &vec![0usize, 1]);
    assert_eq!(m.col_sequence(), &vec![0usize, 1]);
    assert_eq!(*m.state(), MatrixState::Null(0));
    assert_eq!(m.rows().len(), 2);
}
