//! Queries, as the parser of the query language hands them over.
use vstd::prelude::*;

use crate::extract::count_stars;
use crate::extract::stars;
use crate::float::at_least_one;
use crate::float::check_at_least_one;

verus! {

/// Which lines a query is about.
#[derive(Debug)]
pub enum Search {
    /// Every line.
    MatchAll,
    /// The lines that contain this text.
    MatchFilter(String),
}

/// A stage that works on each record by itself.
#[derive(Debug)]
pub enum InlineOperator {
    /// Reads the line as a JSON object.
    Json,
    /// Fits a pattern with stars to the line.
    Parse {
        /// The pattern.
        pattern: String,
        /// The names of the fields, one for each star.
        fields: Vec<String>,
    },
}

/// What is computed of a group of records.
#[derive(Debug)]
pub enum AggregateFunction {
    /// The number of records.
    Count,
    /// The sum of a column.
    Sum {
        /// The column.
        column: String,
    },
    /// The average of a column.
    Average {
        /// The column.
        column: String,
    },
    /// A percentile of a column.
    Percentile {
        /// The column.
        column: String,
        /// The bits of the percentile, as a fraction of one.
        percentile: u64,
        /// The percentile as it was written.
        percentile_str: String,
    },
}

/// A stage that groups the records and computes something of each group.
#[derive(Debug)]
pub struct AggregateOperator {
    /// The columns by which the records are grouped.
    pub key_cols: Vec<String>,
    /// What is computed.
    pub aggregate_function: AggregateFunction,
    /// The name of the column that holds the results, where the query gives one.
    pub output_column: Option<String>,
}

/// A stage of a query.
#[derive(Debug)]
pub enum Operator {
    /// One that works on each record by itself.
    Inline(InlineOperator),
    /// One that works on all records.
    Aggregate(AggregateOperator),
}

/// A query: which lines, and what is done with them.
#[derive(Debug)]
pub struct Query {
    /// Which lines.
    pub search: Search,
    /// The stages, in order.
    pub operators: Vec<Operator>,
}

impl InlineOperator {
    /// Whether a stage can be made of it: a pattern needs as many fields as it has stars.
    pub open spec fn convertible(self) -> bool {
        self matches InlineOperator::Parse { pattern, fields } ==> stars(pattern@)
            == fields@.len()
    }
}

impl AggregateOperator {
    /// Whether a stage can be made of it: a percentile is below one.
    pub open spec fn convertible(self) -> bool {
        self.aggregate_function matches AggregateFunction::Percentile { percentile, .. }
            ==> !at_least_one(percentile)
    }

    /// The name of the column that holds the results: the one that the query gives, else one
    /// that says what is computed.
    pub open spec fn output_name(self) -> Seq<char> {
        match self.output_column {
            Some(name) => name@,
            None => match self.aggregate_function {
                AggregateFunction::Count => "_count"@,
                AggregateFunction::Sum { .. } => "_sum"@,
                AggregateFunction::Average { .. } => "_average"@,
                AggregateFunction::Percentile { percentile_str, .. } => "_p"@ + percentile_str@,
            },
        }
    }
}

impl Operator {
    /// Whether a stage can be made of it.
    pub open spec fn convertible(self) -> bool {
        match self {
            Operator::Inline(op) => op.convertible(),
            Operator::Aggregate(op) => op.convertible(),
        }
    }
}

/// Whether the stage at `j` works on each record by itself though one before it works on all.
pub open spec fn misplaced(operators: Seq<Operator>, j: int) -> bool {
    operators[j] is Inline && exists|i: int| 0 <= i < j && (#[trigger] operators[i]) is Aggregate
}

/// Whether no stage up to the one at `j` is misplaced.
pub open spec fn in_order_to(operators: Seq<Operator>, j: int) -> bool {
    forall|i: int| 0 <= i <= j ==> !#[trigger] misplaced(operators, i)
}

impl Query {
    /// Whether a stage can be made of each operator, as far as they are in order.
    pub open spec fn convertible(self) -> bool {
        forall|j: int|
            0 <= j < self.operators@.len() && in_order_to(self.operators@, j) ==> (
            #[trigger] self.operators@[j]).convertible()
    }
}

/// Tells whether a stage can be made of each operator of a query, as far as they are in order.
pub fn is_convertible(query: &Query) -> (ok: bool)
    ensures
        ok == query.convertible(),
{
    let ghost all = query.operators@;
    let mut in_agg: bool = false;
    let mut i: usize = 0;
    while i < query.operators.len()
        invariant
            i <= query.operators.len(),
            all == query.operators@,
            in_agg <==> exists|k: int| 0 <= k < i && (#[trigger] all[k]) is Aggregate,
            in_order_to(all, i - 1),
            forall|j: int| 0 <= j < i ==> (#[trigger] all[j]).convertible(),
        decreases query.operators.len() - i,
    {
        assert(!misplaced(all, i as int) ==> in_order_to(all, i as int));
        let fine: bool = match &query.operators[i] {
            Operator::Inline(op) => {
                if in_agg {
                    assert(misplaced(all, i as int));
                    assert forall|j: int| 0 <= j < all.len() && in_order_to(all, j) implies (
                    #[trigger] all[j]).convertible() by {
                        if j >= i {
                            assert(!misplaced(all, i as int));
                        }
                    }
                    return true;
                }
                match op {
                    InlineOperator::Json => true,
                    InlineOperator::Parse { pattern, fields } => count_stars(pattern.as_str())
                        == fields.len(),
                }
            },
            Operator::Aggregate(op) => {
                in_agg = true;
                assert(all[i as int] is Aggregate);
                match &op.aggregate_function {
                    AggregateFunction::Percentile { percentile, .. } => !check_at_least_one(
                        *percentile,
                    ),
                    _ => true,
                }
            },
        };
        assert(fine == all[i as int].convertible());
        if !fine {
            return false;
        }
        i = i + 1;
    }
    true
}

} // verus!
