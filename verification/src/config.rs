//! Training configuration and the library's error and result types.

use vstd::prelude::*;
use crate::fixed::{VAL_MAX, DIM_MAX};
use crate::matrix::Matrix;
use crate::post::PostProcessMode;

verus! {

/// Failure conditions of the optimizer core and the error metrics.
#[derive(Clone, Copy, Debug, PartialEq, Eq, Structural)]
pub enum MfError {
    /// No observed entries (or an all-zero normalization term): every error
    /// metric would divide by zero, so the dataset is rejected outright.
    EmptyDataset,
    /// A factor or prediction value left the representable fixed-point range
    /// during training, so continuing would compute with wrapped values.
    NumericOverflow,
}

/// Which population the mean in the masked mean-squared error runs over.
#[derive(Clone, Copy, Debug, PartialEq, Eq, Structural)]
pub enum CountMode {
    /// Divide the squared-error sum by the number of observed entries.
    Observed,
    /// Divide the squared-error sum by the total cell count of the matrix.
    AllCells,
}

/// Explicit configuration of a training run; there are no hidden defaults.
#[derive(Clone, Copy, Debug, PartialEq, Eq, Structural)]
pub struct Config {
    /// Latent dimensionality `k`; positive.
    pub k_latent: usize,
    /// Learning rate, fixed point; positive.
    pub alpha: i64,
    /// Hard cap on steps (batch) or epochs (stochastic); positive.
    pub max_steps: usize,
    /// Convergence error floor, fixed point; non-negative.
    pub threshold: i64,
    /// Constant fill value for the factor matrices, fixed point.
    pub init_value: i64,
    /// How raw predictions are mapped back onto the rating scale.
    pub post_process: PostProcessMode,
    /// Denominator convention of the mean-squared error.
    pub count_mode: CountMode,
}

impl Config {
    /// The configuration respects the documented positivity requirements and
    /// the machine limits of the fixed-point representation.
    pub open spec fn valid(self) -> bool {
        &&& 1 <= self.k_latent <= DIM_MAX
        &&& 0 < self.alpha <= VAL_MAX
        &&& self.max_steps >= 1
        &&& 0 <= self.threshold <= VAL_MAX
        &&& -VAL_MAX <= self.init_value <= VAL_MAX
    }
}

/// Terminal state of the optimizer's state machine: the run either reached
/// the convergence threshold, exhausted its step budget, or left the
/// representable numeric range.
pub ghost enum RunStatus {
    Converged,
    Exhausted,
    Overflowed,
}

/// The mathematical state a training run ends in: the final factor matrices,
/// the number of steps or epochs performed, and the terminal status.
pub ghost struct RunState {
    pub u: Seq<Seq<int>>,
    pub v: Seq<Seq<int>>,
    pub steps: int,
    pub status: RunStatus,
}

/// What a completed training run hands back: the post-processed prediction
/// matrix, the last error metric, the number of iterations actually
/// performed, and whether the threshold was reached before the step budget.
pub struct TrainResult {
    pub prediction: Matrix,
    pub error: i128,
    pub iterations: usize,
    pub converged: bool,
}

} // verus!
