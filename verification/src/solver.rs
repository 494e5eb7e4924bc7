use vstd::prelude::*;

use crate::matrix::{
    lemma_step_err_kinds, lemma_step_not_initial, step_spec, Matrix, MatrixModel,
};
use crate::SolveError;

verus! {

/// How a solving run ended: distinguishes completion from the two failure
/// signals, and reports separately a run cut off at the step bound.
#[derive(Clone, Copy, Debug, PartialEq, Eq, Structural)]
pub enum SolveOutcome {
    /// The last snapshot is in the terminal state.
    Solved,
    /// A step reported a singular or inconsistent system.
    SingularSystem,
    /// A step reported fixed-width overflow.
    ArithmeticOverflow,
    /// The step bound was reached before the machine came to rest.
    StepLimit,
}

/// Drives the elimination machine to completion and retains every snapshot,
/// index 0 being the initial input.
#[derive(Debug)]
pub struct MatrixSolver {
    pub matrices: Vec<Matrix>,
    pub outcome: Option<SolveOutcome>,
}

impl MatrixSolver {
    /// The ordered snapshots, as mathematical matrices.
    pub open spec fn history(self) -> Seq<MatrixModel> {
        self.matrices@.map_values(|m: Matrix| m@)
    }

    /// Well-formed: at least the initial snapshot, every snapshot well-formed
    /// and past the initial state, and each later snapshot the result of one
    /// step on the one before it.
    pub open spec fn wf(self) -> bool {
        &&& self.history().len() >= 1
        &&& forall|i: int| 0 <= i < self.history().len() ==> (#[trigger] self.history()[i]).wf()
        &&& forall|i: int|
            0 <= i < self.history().len() ==> !((#[trigger] self.history()[i]).state is Initial)
        &&& forall|i: int|
            0 <= i < self.history().len() - 1 ==> step_spec(#[trigger] self.history()[i])
                == Ok::<Option<MatrixModel>, SolveError>(Some(self.history()[i + 1]))
    }

    /// Start a history at the given snapshot.
    pub fn new(initial: Matrix) -> (r: MatrixSolver)
        requires
            initial@.wf(),
            !(initial@.state is Initial),
        ensures
            r.wf(),
            r.history() == seq![initial@],
            r.outcome is None,
    {
        let mut matrices: Vec<Matrix> = Vec::new();
        matrices.push(initial);
        let r = MatrixSolver { matrices, outcome: None };
        proof {
            assert(r.history() =~= seq![initial@]);
        }
        r
    }

    /// Step the most recent snapshot and append the result until no further
    /// step is possible, then say why: the machine came to rest (`Solved`),
    /// a step failed (`SingularSystem`, `ArithmeticOverflow`), or the step
    /// bound was reached.
    pub fn solve(&mut self) -> (r: SolveOutcome)
        requires
            old(self).wf(),
        ensures
            final (self).wf(),
            old(self).history().is_prefix_of(final (self).history()),
            final (self).outcome == Some(r),
            ({
                let last = final (self).history().last();
                match r {
                    SolveOutcome::Solved => step_spec(last) == Ok::<
                        Option<MatrixModel>,
                        SolveError,
                    >(None),
                    SolveOutcome::SingularSystem => step_spec(last) == Err::<
                        Option<MatrixModel>,
                        SolveError,
                    >(SolveError::SingularSystem),
                    SolveOutcome::ArithmeticOverflow => step_spec(last) == Err::<
                        Option<MatrixModel>,
                        SolveError,
                    >(SolveError::ArithmeticOverflow),
                    SolveOutcome::StepLimit => final (self).history().len() == usize::MAX,
                }
            }),
    {
        loop
            invariant
                self.wf(),
                old(self).history().is_prefix_of(self.history()),
            decreases usize::MAX - self.matrices@.len(),
        {
            let idx = self.matrices.len() - 1;
            proof {
                assert(self.history()[idx as int] == self.matrices@[idx as int]@);
            }
            let step = self.matrices[idx].calculate_next();
            match step {
                Ok(None) => {
                    self.outcome = Some(SolveOutcome::Solved);
                    proof {
                        assert(self.history().last() == self.history()[idx as int]);
                    }
                    return SolveOutcome::Solved;
                },
                Ok(Some(next)) => {
                    if self.matrices.len() == usize::MAX {
                        self.outcome = Some(SolveOutcome::StepLimit);
                        return SolveOutcome::StepLimit;
                    }
                    proof {
                        lemma_step_not_initial(self.history()[idx as int]);
                    }
                    let ghost pre = self.history();
                    self.matrices.push(next);
                    proof {
                        assert(self.history() =~= pre.push(next@));
                        assert(pre.is_prefix_of(self.history()));
                    }
                },
                Err(e) => {
                    proof {
                        lemma_step_err_kinds(self.history()[idx as int]);
                        assert(self.history().last() == self.history()[idx as int]);
                    }
                    match e {
                        SolveError::SingularSystem => {
                            self.outcome = Some(SolveOutcome::SingularSystem);
                            return SolveOutcome::SingularSystem;
                        },
                        SolveError::ArithmeticOverflow => {
                            self.outcome = Some(SolveOutcome::ArithmeticOverflow);
                            return SolveOutcome::ArithmeticOverflow;
                        },
                        _ => {
                            proof {
                                assert(false);
                            }
                            self.outcome = Some(SolveOutcome::ArithmeticOverflow);
                            return SolveOutcome::ArithmeticOverflow;
                        },
                    }
                },
            }
        }
    }

    /// How the run recorded by this history ended, if `solve` has run.
    pub fn outcome(&self) -> (r: Option<SolveOutcome>)
        ensures
            r == self.outcome,
    {
        self.outcome
    }

    /// Retrieve a snapshot by position; a negative index counts back from the
    /// end, -1 being the most recent snapshot.
    pub fn get(self, index: isize) -> (r: Matrix)
        requires
            index >= 0 ==> index < self.history().len(),
            index < 0 ==> -(index as int) <= self.history().len(),
        ensures
            index >= 0 ==> r@ == self.history()[index as int],
            index < 0 ==> r@ == self.history()[self.history().len() + index],
    {
        let mut s = self;
        if index < 0 {
            let off = (-(index as i128)) as usize;
            let i = s.matrices.len() - off;
            proof {
                assert(s.matrices@[i as int]@ == s.history()[i as int]);
            }
            s.matrices.remove(i)
        } else {
            proof {
                assert(s.matrices@[index as int]@ == s.history()[index as int]);
            }
            s.matrices.remove(index as usize)
        }
    }
}

} // verus!
