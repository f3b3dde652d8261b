//! Trend direction.
use vstd::prelude::*;

verus! {

/// Direction of the trend.
#[derive(Debug, Clone, Copy, PartialEq, Eq, Structural)]
pub enum TrendDirection {
    Increasing,
    Decreasing,
    Flat,
}

/// The name of a trend direction.
pub open spec fn trend_direction_name(d: TrendDirection) -> Seq<char> {
    match d {
        TrendDirection::Increasing => "increasing"@,
        TrendDirection::Decreasing => "decreasing"@,
        TrendDirection::Flat => "flat"@,
    }
}

/// Each trend direction has a name of its own.
pub proof fn law_trend_direction_names_distinct(a: TrendDirection, b: TrendDirection)
    ensures
        trend_direction_name(a) == trend_direction_name(b) ==> a == b,
{
    reveal_strlit("increasing");
    reveal_strlit("decreasing");
    reveal_strlit("flat");
    assert("increasing"@[0] == 'i');
    assert("decreasing"@[0] == 'd');
    assert("flat"@[0] == 'f');
}

impl TrendDirection {
    pub fn as_str(&self) -> (s: &'static str)
        ensures
            s@ == trend_direction_name(*self),
    {
        match self {
            TrendDirection::Increasing => "increasing",
            TrendDirection::Decreasing => "decreasing",
            TrendDirection::Flat => "flat",
        }
    }
}

} // verus!
