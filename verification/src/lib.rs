use vstd::prelude::*;

pub mod fraction;
pub mod matrix;
pub mod parser;
pub mod row;
pub mod solver;

use matrix::{step_spec, Matrix, MatrixModel};
use solver::MatrixSolver;

pub use parser::parse;

verus! {

/// One run of the machine: consecutive snapshots are single steps.
pub open spec fn step_chain(h: Seq<MatrixModel>) -> bool {
    forall|i: int|
        0 <= i < h.len() - 1 ==> step_spec(#[trigger] h[i]) == Ok::<
            Option<MatrixModel>,
            SolveError,
        >(Some(h[i + 1]))
}

/// Solve the system and return the final snapshot: the last matrix of a run
/// that starts at the input and stops where no further step is possible (or,
/// in principle, at the step bound).
pub fn solve(m: Matrix) -> (r: Matrix)
    requires
        m@.wf(),
        !(m@.state is Initial),
    ensures
        r@.wf(),
        !(r@.state is Initial),
        exists|h: Seq<MatrixModel>|
            #[trigger] step_chain(h) && h.len() >= 1 && h[0] == m@ && h.last() == r@ && (!(
            step_spec(r@) matches Ok(Some(_))) || h.len() == usize::MAX),
{
    let s = solve_with_history(m);
    proof {
        let h = s.history();
        assert(step_chain(h));
        assert(h.last() == h[h.len() - 1]);
    }
    s.get(-1)
}

/// Solve the system and return the whole history of snapshots, its outcome
/// recorded.
#[verifier::rlimit(50)]
pub fn solve_with_history(m: Matrix) -> (r: MatrixSolver)
    requires
        m@.wf(),
        !(m@.state is Initial),
    ensures
        r.wf(),
        r.history()[0] == m@,
        r.history().len() >= 1,
        r.outcome is Some,
        ({
            let last = r.history().last();
            match r.outcome {
                Some(crate::solver::SolveOutcome::Solved) => step_spec(last) == Ok::<
                    Option<MatrixModel>,
                    SolveError,
                >(None),
                Some(crate::solver::SolveOutcome::SingularSystem) => step_spec(last) == Err::<
                    Option<MatrixModel>,
                    SolveError,
                >(SolveError::SingularSystem),
                Some(crate::solver::SolveOutcome::ArithmeticOverflow) => step_spec(last) == Err::<
                    Option<MatrixModel>,
                    SolveError,
                >(SolveError::ArithmeticOverflow),
                Some(crate::solver::SolveOutcome::StepLimit) => r.history().len() == usize::MAX,
                None => false,
            }
        }),
{
    let mut s = MatrixSolver::new(m);
    let ghost h0 = s.history();
    s.solve();
    proof {
        assert(h0.is_prefix_of(s.history()));
        assert(h0 =~= s.history().subrange(0, h0.len() as int));
        assert(s.history()[0] == s.history().subrange(0, 1)[0]);
        assert(s.history()[0] == m@);
    }
    s
}

/// Failures the library reports to its callers as explicit values.
#[derive(Debug, Clone, PartialEq, Eq)]
pub enum SolveError {
    /// The coefficient side of a matrix is not square relative to the row count.
    Configuration,
    /// A pivot cell is exactly zero during forward elimination, or a row's
    /// whole coefficient vector becomes zero during normalization.
    SingularSystem,
    /// A fraction with a zero denominator was requested, or a division by the
    /// zero fraction.
    DivisionByZero,
    /// A numerator or denominator magnitude left the fixed-width integer range.
    ArithmeticOverflow,
    /// Malformed matrix text; carries the offending line or token.
    Parse(String),
}

} // verus!
