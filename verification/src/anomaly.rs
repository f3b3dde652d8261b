//! Anomaly detection methods.
use vstd::prelude::*;

verus! {

/// Detection method used.
#[derive(Debug, Clone, Copy, PartialEq, Eq, Structural)]
pub enum AnomalyMethod {
    ZScore,
    ModifiedZScore,
    Iqr,
}

/// The name of a detection method.
pub open spec fn anomaly_method_name(m: AnomalyMethod) -> Seq<char> {
    match m {
        AnomalyMethod::ZScore => "zscore"@,
        AnomalyMethod::ModifiedZScore => "modified-zscore"@,
        AnomalyMethod::Iqr => "iqr"@,
    }
}

/// Each detection method has a name of its own.
pub proof fn law_anomaly_method_names_distinct(a: AnomalyMethod, b: AnomalyMethod)
    ensures
        anomaly_method_name(a) == anomaly_method_name(b) ==> a == b,
{
    reveal_strlit("zscore");
    reveal_strlit("modified-zscore");
    reveal_strlit("iqr");
    assert("zscore"@.len() == 6);
    assert("modified-zscore"@.len() == 15);
    assert("iqr"@.len() == 3);
}

impl AnomalyMethod {
    pub fn as_str(&self) -> (s: &'static str)
        ensures
            s@ == anomaly_method_name(*self),
    {
        match self {
            AnomalyMethod::ZScore => "zscore",
            AnomalyMethod::ModifiedZScore => "modified-zscore",
            AnomalyMethod::Iqr => "iqr",
        }
    }
}

} // verus!
