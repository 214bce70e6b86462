//! The stages of a pipeline, of whichever kind, and how a query turns into them.
use vstd::prelude::*;

use crate::accumulate::Average;
use crate::accumulate::AverageView;
use crate::accumulate::Count;
use crate::accumulate::Percentile;
use crate::accumulate::PercentileView;
use crate::accumulate::Sum;
use crate::accumulate::SumView;
use crate::data::Aggregate;
use crate::data::AggregateView;
use crate::data::Record;
use crate::data::RecordView;
use crate::data::Row;
use crate::extract::Parse;
use crate::float::Notation;
use crate::float::Numerics;
use crate::grouper::Grouper;
use crate::grouper::Key;
use crate::json::ParseJson;
use crate::lang;
use crate::operator::AggregateFunction;
use crate::operator::AggregateOperator;
use crate::operator::UnaryPreAggOperator;
use crate::text::views;

verus! {

broadcast use vstd::string::group_string_axioms;

/// A stage that works on each record by itself.
pub enum PreAggregate<N: Notation> {
    /// Reads the line as a JSON object.
    Json(ParseJson),
    /// Fits a pattern with stars to the line.
    Parse(Parse<N>),
}

impl<N: Notation> UnaryPreAggOperator for PreAggregate<N> {
    open spec fn accepts(&self, raw: Seq<char>) -> bool {
        match self {
            PreAggregate::Json(json) => json.accepts(raw),
            PreAggregate::Parse(parse) => parse.accepts(raw),
        }
    }

    open spec fn produces(&self, rec: RecordView, next: RecordView) -> bool {
        match self {
            PreAggregate::Json(json) => json.produces(rec, next),
            PreAggregate::Parse(parse) => parse.produces(rec, next),
        }
    }

    fn process(&self, rec: &Record) -> (next: Option<Record>) {
        match self {
            PreAggregate::Json(json) => json.process(rec),
            PreAggregate::Parse(parse) => parse.process(rec),
        }
    }
}

/// Whether this is the stage for an operator that works on each record by itself.
pub open spec fn inline_stage<N: Notation>(
    op: lang::InlineOperator,
    stage: PreAggregate<N>,
) -> bool {
    match op {
        lang::InlineOperator::Json => stage is Json,
        lang::InlineOperator::Parse { pattern, fields } => {
            &&& stage is Parse
            &&& stage->Parse_0.pattern() == pattern@
            &&& stage->Parse_0.fields() == views(fields@)
        },
    }
}

/// A stage that groups the records and computes something of each group.
pub enum Aggregator<N: Numerics> {
    /// The number of records.
    Count(Grouper<Count>),
    /// The sum of a column.
    Sum(Grouper<Sum<N>>),
    /// The average of a column.
    Average(Grouper<Average<N>>),
    /// A percentile of a column.
    Percentile(Grouper<Percentile<N>>),
}

impl<N: Numerics> AggregateOperator for Aggregator<N> {
    open spec fn wf(&self) -> bool {
        match self {
            Aggregator::Count(grouper) => grouper.wf(),
            Aggregator::Sum(grouper) => grouper.wf(),
            Aggregator::Average(grouper) => grouper.wf(),
            Aggregator::Percentile(grouper) => grouper.wf(),
        }
    }

    open spec fn can_take(&self, n: nat) -> bool {
        match self {
            Aggregator::Count(grouper) => grouper.can_take(n),
            Aggregator::Sum(grouper) => grouper.can_take(n),
            Aggregator::Average(grouper) => grouper.can_take(n),
            Aggregator::Percentile(grouper) => grouper.can_take(n),
        }
    }

    open spec fn absorbs(self, rec: RecordView, next: Aggregator<N>) -> bool {
        match (self, next) {
            (Aggregator::Count(g), Aggregator::Count(h)) => g.absorbs(rec, h),
            (Aggregator::Sum(g), Aggregator::Sum(h)) => g.absorbs(rec, h),
            (Aggregator::Average(g), Aggregator::Average(h)) => g.absorbs(rec, h),
            (Aggregator::Percentile(g), Aggregator::Percentile(h)) => g.absorbs(rec, h),
            _ => false,
        }
    }

    open spec fn reports(self, agg: AggregateView) -> bool {
        match self {
            Aggregator::Count(grouper) => grouper.reports(agg),
            Aggregator::Sum(grouper) => grouper.reports(agg),
            Aggregator::Average(grouper) => grouper.reports(agg),
            Aggregator::Percentile(grouper) => grouper.reports(agg),
        }
    }

    proof fn lemma_less_room(self, n: nat) {
        match self {
            Aggregator::Count(grouper) => grouper.lemma_less_room(n),
            Aggregator::Sum(grouper) => grouper.lemma_less_room(n),
            Aggregator::Average(grouper) => grouper.lemma_less_room(n),
            Aggregator::Percentile(grouper) => grouper.lemma_less_room(n),
        }
    }

    fn has_room(&self, n: usize) -> (room: bool) {
        match self {
            Aggregator::Count(grouper) => grouper.has_room(n),
            Aggregator::Sum(grouper) => grouper.has_room(n),
            Aggregator::Average(grouper) => grouper.has_room(n),
            Aggregator::Percentile(grouper) => grouper.has_room(n),
        }
    }

    fn emit(&self) -> (agg: Aggregate) {
        match self {
            Aggregator::Count(grouper) => grouper.emit(),
            Aggregator::Sum(grouper) => grouper.emit(),
            Aggregator::Average(grouper) => grouper.emit(),
            Aggregator::Percentile(grouper) => grouper.emit(),
        }
    }

    fn process(&mut self, row: &Row) {
        match self {
            Aggregator::Count(grouper) => grouper.process(row),
            Aggregator::Sum(grouper) => grouper.process(row),
            Aggregator::Average(grouper) => grouper.process(row),
            Aggregator::Percentile(grouper) => grouper.process(row),
        }
    }
}

/// Whether a grouper has no groups yet and has the columns of this operator.
pub open spec fn fresh_grouper<T: AggregateFunction>(
    op: lang::AggregateOperator,
    grouper: Grouper<T>,
) -> bool {
    &&& grouper.wf()
    &&& grouper.key_cols() == views(op.key_cols@)
    &&& grouper.agg_col() == op.output_name()
    &&& grouper.groups() == Map::<Key, T>::empty()
}

/// Whether this is the stage for an operator that works on all records, before the first of
/// them.
pub open spec fn aggregate_stage<N: Numerics>(
    op: lang::AggregateOperator,
    stage: Aggregator<N>,
) -> bool {
    match op.aggregate_function {
        lang::AggregateFunction::Count => {
            &&& stage is Count
            &&& fresh_grouper(op, stage->Count_0)
            &&& stage->Count_0.initial()@ == 0
        },
        lang::AggregateFunction::Sum { column } => {
            &&& stage is Sum
            &&& fresh_grouper(op, stage->Sum_0)
            &&& stage->Sum_0.initial()@ == (SumView {
                total: 0,
                column: column@,
                warnings: Seq::empty(),
                is_float: false,
            })
        },
        lang::AggregateFunction::Average { column } => {
            &&& stage is Average
            &&& fresh_grouper(op, stage->Average_0)
            &&& stage->Average_0.initial()@ == (AverageView {
                total: 0,
                count: 0,
                column: column@,
                warnings: Seq::empty(),
            })
        },
        lang::AggregateFunction::Percentile { column, percentile, .. } => {
            &&& stage is Percentile
            &&& fresh_grouper(op, stage->Percentile_0)
            &&& stage->Percentile_0.initial()@ == (PercentileView::<N::Sketch> {
                sketch: None,
                column: column@,
                percentile,
                warnings: Seq::empty(),
            })
        },
    }
}

} // verus!
