//! Gaps and methods for filling missing values.
use vstd::prelude::*;

verus! {

/// A detected gap in the time series.
#[derive(Debug, Clone)]
pub struct Gap {
    pub after_timestamp: String,
    pub before_timestamp: String,
    pub gap_size: usize,
}

/// Interpolation method for filling gaps.
#[derive(Debug, Clone, Copy, PartialEq, Eq, Structural)]
pub enum FillMethod {
    /// Linear interpolation between neighbors.
    Linear,
    /// Forward-fill (carry last value forward).
    Forward,
    /// Backward-fill (carry next value backward).
    Backward,
    /// Fill with mean of all values.
    Mean,
    /// Fill with zero.
    Zero,
}

/// The name of a fill method.
pub open spec fn fill_method_name(m: FillMethod) -> Seq<char> {
    match m {
        FillMethod::Linear => "linear"@,
        FillMethod::Forward => "forward"@,
        FillMethod::Backward => "backward"@,
        FillMethod::Mean => "mean"@,
        FillMethod::Zero => "zero"@,
    }
}

/// Each fill method has a name of its own.
pub proof fn law_fill_method_names_distinct(a: FillMethod, b: FillMethod)
    ensures
        fill_method_name(a) == fill_method_name(b) ==> a == b,
{
    reveal_strlit("linear");
    reveal_strlit("forward");
    reveal_strlit("backward");
    reveal_strlit("mean");
    reveal_strlit("zero");
    assert("linear"@.len() == 6);
    assert("forward"@.len() == 7);
    assert("backward"@.len() == 8);
    assert("mean"@[0] == 'm');
    assert("zero"@[0] == 'z');
}

impl FillMethod {
    pub fn as_str(&self) -> (s: &'static str)
        ensures
            s@ == fill_method_name(*self),
    {
        match self {
            FillMethod::Linear => "linear",
            FillMethod::Forward => "forward",
            FillMethod::Backward => "backward",
            FillMethod::Mean => "mean",
            FillMethod::Zero => "zero",
        }
    }
}

} // verus!
