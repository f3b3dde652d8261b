//! Aggregations for downsampling.
use vstd::prelude::*;

verus! {

/// Aggregation function for downsampling.
#[derive(Debug, Clone, Copy, PartialEq, Eq, Structural)]
pub enum Aggregation {
    Mean,
    Sum,
    Min,
    Max,
    Median,
    First,
    Last,
    Count,
}

/// The name of an aggregation.
pub open spec fn aggregation_name(a: Aggregation) -> Seq<char> {
    match a {
        Aggregation::Mean => "mean"@,
        Aggregation::Sum => "sum"@,
        Aggregation::Min => "min"@,
        Aggregation::Max => "max"@,
        Aggregation::Median => "median"@,
        Aggregation::First => "first"@,
        Aggregation::Last => "last"@,
        Aggregation::Count => "count"@,
    }
}

/// Each aggregation has a name of its own.
pub proof fn law_aggregation_names_distinct(a: Aggregation, b: Aggregation)
    ensures
        aggregation_name(a) == aggregation_name(b) ==> a == b,
{
    reveal_strlit("mean");
    reveal_strlit("sum");
    reveal_strlit("min");
    reveal_strlit("max");
    reveal_strlit("median");
    reveal_strlit("first");
    reveal_strlit("last");
    reveal_strlit("count");
    assert("mean"@.len() == 4 && "mean"@[0] == 'm');
    assert("sum"@.len() == 3 && "sum"@[0] == 's');
    assert("min"@.len() == 3 && "min"@[1] == 'i');
    assert("max"@.len() == 3 && "max"@[0] == 'm' && "max"@[1] == 'a');
    assert("median"@.len() == 6);
    assert("first"@.len() == 5 && "first"@[0] == 'f');
    assert("last"@.len() == 4 && "last"@[0] == 'l');
    assert("count"@.len() == 5 && "count"@[0] == 'c');
}

impl Aggregation {
    pub fn as_str(&self) -> (s: &'static str)
        ensures
            s@ == aggregation_name(*self),
    {
        match self {
            Aggregation::Mean => "mean",
            Aggregation::Sum => "sum",
            Aggregation::Min => "min",
            Aggregation::Max => "max",
            Aggregation::Median => "median",
            Aggregation::First => "first",
            Aggregation::Last => "last",
            Aggregation::Count => "count",
        }
    }
}

} // verus!
