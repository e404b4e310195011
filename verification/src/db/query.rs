use vstd::prelude::*;
use vstd::std_specs::convert::FromSpecImpl;

verus! {

/// The name of a table or of a column in a query plan.
#[derive(Debug, PartialEq, Clone, Hash)]
pub struct Identifier(pub String);

impl From<String> for Identifier {
    fn from(s: String) -> (id: Self) {
        Identifier(s)
    }
}

impl FromSpecImpl<String> for Identifier {
    open spec fn obeys_from_spec() -> bool {
        true
    }

    open spec fn from_spec(s: String) -> Self {
        Identifier(s)
    }
}

/// A projection: the columns to hand out and the table to take them from.
#[derive(Debug, PartialEq, Clone)]
pub struct QueryPlan {
    pub projection: Vec<Identifier>,
    pub table: Identifier,
}

/// The planner of queries. It holds no state, and `plan` does nothing.
pub struct QueryPlanner {}

impl QueryPlanner {
    /// A planner.
    pub fn new() -> Self {
        QueryPlanner {  }
    }

    /// Does nothing.
    pub fn plan(&self) {
    }
}

} // verus!
