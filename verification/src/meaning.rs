//! What a query means: from its operators and the lines to the rows that come out.
use vstd::prelude::*;

use crate::accumulate::Average;
use crate::accumulate::Count;
use crate::accumulate::Percentile;
use crate::accumulate::Sum;
use crate::accumulate::added_up;
use crate::accumulate::law_average_divides_the_total;
use crate::accumulate::law_count_is_the_number_of_records;
use crate::accumulate::law_percentile_is_an_answer;
use crate::accumulate::law_sum_adds_up_the_numbers;
use crate::accumulate::numbers;
use crate::accumulate::shown_double;
use crate::accumulate::sketched;
use crate::data::AggregateView;
use crate::data::OutputView;
use crate::data::RecordView;
use crate::data::Row;
use crate::data::RowView;
use crate::data::ValueView;
use crate::extract::Parse;
use crate::extract::best_fit;
use crate::extract::compiles;
use crate::extract::fits;
use crate::extract::law_refused_patterns_are_long;
use crate::extract::law_stars_become_fields;
use crate::extract::pattern_regex;
use crate::extract::stands_for;
use crate::float::Notation;
use crate::float::Numerics;
use crate::grouper::Grouper;
use crate::grouper::Key;
use crate::grouper::agreeing;
use crate::grouper::agrees;
use crate::grouper::law_greatest_result_first;
use crate::grouper::law_report_has_a_row_for_each_group;
use crate::grouper::law_room_before_the_first_record;
use crate::grouper::may_precede;
use crate::grouper::row_of_agreeing;
use crate::json::DocumentView;
use crate::json::ParseJson;
use crate::json::json_document;
use crate::json::law_members_become_fields;
use crate::json::law_which_lines_are_read;
use crate::json::same_value;
use crate::lang;
use crate::lang::InlineOperator;
use crate::lang::Operator;
use crate::lang::Query;
use crate::lang::Search;
use crate::lang::in_order_to;
use crate::lang::misplaced;
use crate::operator::AggregateFunction;
use crate::operator::AggregateOperator;
use crate::operator::UnaryPreAggOperator;
use crate::operator::absorbs_all;
use crate::operator::advances_all;
use crate::pipeline::Pipeline;
use crate::pipeline::aggregate_stages;
use crate::pipeline::chain;
use crate::pipeline::inline_stages;
use crate::pipeline::law_every_row_is_a_report;
use crate::pipeline::law_records_come_out;
use crate::pipeline::output;
use crate::pipeline::outputs;
use crate::pipeline::passed;
use crate::pipeline::query_text;
use crate::pipeline::reports_after;
use crate::stage::Aggregator;
use crate::stage::PreAggregate;
use crate::stage::inline_stage;
use crate::text::law_occurrence;
use crate::text::views;

verus! {

/// Whether a record becomes `next` where its line is read as a JSON object: every member is in
/// the field of its name, and all else is as it was.
pub open spec fn reads_object(rec: RecordView, next: RecordView) -> bool {
    json_document(rec.raw) matches Some(DocumentView::Object(members)) && {
        &&& next.raw == rec.raw
        &&& forall|i: int|
            0 <= i < members.len() ==> next.data.contains_key((#[trigger] members[i]).0)
                && same_value(members[i].1, next.data[members[i].0])
        &&& forall|name: Seq<char>|
            (forall|i: int| 0 <= i < members.len() ==> (#[trigger] members[i]).0 != name) ==> (
            next.data.contains_key(name) <==> #[trigger] rec.data.contains_key(name)) && (
            rec.data.contains_key(name) ==> next.data[name] == rec.data[name])
    }
}

/// Whether a record becomes `next` where these texts are cut out of its line for these fields:
/// under each name is what the last text for it stands for, and all else is as it was.
pub open spec fn holds_cuts<N: Notation>(
    fields: Seq<String>,
    texts: Seq<Seq<char>>,
    rec: RecordView,
    next: RecordView,
) -> bool {
    &&& next.raw == rec.raw
    &&& texts.len() == fields.len()
    &&& forall|i: int|
        0 <= i < fields.len() && (forall|j: int|
            i < j < fields.len() ==> fields[j]@ != fields[i]@) ==> next.data.contains_key(
            #[trigger] fields[i]@,
        ) && stands_for::<N>(texts[i], next.data[fields[i]@])
    &&& forall|name: Seq<char>|
        (forall|i: int| 0 <= i < fields.len() ==> (#[trigger] fields[i]@) != name) ==> (
        next.data.contains_key(name) <==> #[trigger] rec.data.contains_key(name)) && (
        rec.data.contains_key(name) ==> next.data[name] == rec.data[name])
}

/// Whether an operator that works on each record by itself may make `next` of a record.
pub open spec fn turns<N: Notation>(op: InlineOperator, rec: RecordView, next: RecordView) -> bool {
    match op {
        InlineOperator::Json => reads_object(rec, next),
        InlineOperator::Parse { pattern, fields } => exists|texts: Seq<Seq<char>>, at: int|
            #[trigger] best_fit(pattern@, texts, at, rec.raw) && holds_cuts::<N>(
                fields@,
                texts,
                rec,
                next,
            ),
    }
}

/// Whether a line goes through an operator that works on each record by itself.
pub open spec fn lets_through(op: InlineOperator, line: Seq<char>) -> bool {
    match op {
        InlineOperator::Json => json_document(line) matches Some(DocumentView::Object(members))
            && forall|i: int|
            0 <= i < members.len() ==> !((#[trigger] members[i]).1 is Bool || members[i].1 is Array
                || members[i].1 is Object),
        InlineOperator::Parse { pattern, .. } => exists|texts: Seq<Seq<char>>, at: int| #[trigger]
            fits(pattern@, texts, at, line),
    }
}

/// Whether a line is one that a query is about: it has the text of the filter in it, and goes
/// through every operator that works on each record by itself.
pub open spec fn answers_for(query: Query, line: Seq<char>) -> bool {
    &&& query.search matches Search::MatchFilter(filter) ==> exists|
        before: Seq<char>,
        behind: Seq<char>,
    |
        line == #[trigger] (before + filter@ + behind)
    &&& forall|i: int|
        0 <= i < query.operators@.len() && (#[trigger] query.operators@[i]) is Inline
            ==> lets_through(query.operators@[i]->Inline_0, line)
}

/// Whether the operators that work on each record by itself may make `end` of a record, one
/// after the other.
pub open spec fn turns_all<N: Notation>(
    operators: Seq<Operator>,
    start: RecordView,
    end: RecordView,
) -> bool
    decreases operators.len(),
{
    if operators.len() == 0 {
        end == start
    } else {
        match operators.last() {
            Operator::Inline(op) => exists|mid: RecordView|
                turns_all::<N>(operators.drop_last(), start, mid) && #[trigger] turns::<N>(
                    op,
                    mid,
                    end,
                ),
            Operator::Aggregate(_) => turns_all::<N>(operators.drop_last(), start, end),
        }
    }
}

/// Whether these are the records that a query makes of the lines it is about, in order.
pub open spec fn records_of<N: Notation>(
    query: Query,
    lines: Seq<Seq<char>>,
    recs: Seq<RecordView>,
) -> bool
    decreases lines.len(),
{
    if lines.len() == 0 {
        recs.len() == 0
    } else if answers_for(query, lines.last()) {
        &&& recs.len() > 0
        &&& turns_all::<N>(
            query.operators@,
            RecordView { data: Map::empty(), raw: lines.last() },
            recs.last(),
        )
        &&& recs.last().raw == lines.last()
        &&& records_of::<N>(query, lines.drop_last(), recs.drop_last())
    } else {
        records_of::<N>(query, lines.drop_last(), recs)
    }
}

proof fn lemma_stage_lets_through<N: Notation>(
    op: InlineOperator,
    stage: PreAggregate<N>,
    line: Seq<char>,
)
    requires
        inline_stage(op, stage),
    ensures
        stage.accepts(line) <==> lets_through(op, line),
{
    match op {
        InlineOperator::Json => {
            law_which_lines_are_read(stage->Json_0, line);
        },
        InlineOperator::Parse { pattern, .. } => {
            if lets_through(op, line) {
                let (texts, at) = choose|texts: Seq<Seq<char>>, at: int| #[trigger]
                    fits(pattern@, texts, at, line);
                assert(fits(stage->Parse_0.pattern(), texts, at, line));
            }
        },
    }
}

proof fn lemma_stage_turns<N: Notation>(
    op: InlineOperator,
    stage: PreAggregate<N>,
    rec: RecordView,
    next: RecordView,
)
    requires
        inline_stage(op, stage),
        stage.produces(rec, next),
    ensures
        turns::<N>(op, rec, next),
{
    match op {
        InlineOperator::Json => {
            let json: ParseJson = stage->Json_0;
            law_members_become_fields(json, rec, next, Seq::empty());
            let members = json_document(rec.raw)->0->Object_0;
            assert forall|i: int| 0 <= i < members.len() implies next.data.contains_key(
                (#[trigger] members[i]).0,
            ) && same_value(members[i].1, next.data[members[i].0]) by {
                law_members_become_fields(json, rec, next, members[i].0);
            }
            assert forall|name: Seq<char>|
                (forall|i: int| 0 <= i < members.len() ==> (#[trigger] members[i]).0 != name) implies (
            next.data.contains_key(name) <==> #[trigger] rec.data.contains_key(name)) && (
            rec.data.contains_key(name) ==> next.data[name] == rec.data[name]) by {
                law_members_become_fields(json, rec, next, name);
            }
        },
        InlineOperator::Parse { pattern, fields } => {
            let parse: Parse<N> = stage->Parse_0;
            let (texts, at) = law_stars_become_fields(parse, rec, next);
            let names = views(fields@);
            assert(names.len() == fields@.len());
            assert forall|i: int|
                0 <= i < fields@.len() && (forall|j: int|
                    i < j < fields@.len() ==> fields@[j]@ != fields@[i]@) implies next.data.contains_key(
                #[trigger] fields@[i]@,
            ) && stands_for::<N>(texts[i], next.data[fields@[i]@]) by {
                assert(parse.fields()[i] == fields@[i]@);
                assert forall|j: int| i < j < texts.len() implies parse.fields()[j]
                    != parse.fields()[i] by {
                    assert(parse.fields()[j] == fields@[j]@);
                }
            }
            assert forall|name: Seq<char>|
                (forall|i: int| 0 <= i < fields@.len() ==> (#[trigger] fields@[i]@) != name) implies (
            next.data.contains_key(name) <==> #[trigger] rec.data.contains_key(name)) && (
            rec.data.contains_key(name) ==> next.data[name] == rec.data[name]) by {
                assert forall|i: int| 0 <= i < parse.fields().len() implies parse.fields()[i]
                    != name by {
                    assert(parse.fields()[i] == fields@[i]@);
                }
                assert(!parse.fields().contains(name));
            }
            assert(holds_cuts::<N>(fields@, texts, rec, next));
            assert(best_fit(pattern@, texts, at, rec.raw));
        },
    }
}

proof fn lemma_stages_accept<N: Notation>(
    operators: Seq<Operator>,
    stages: Seq<PreAggregate<N>>,
    line: Seq<char>,
)
    requires
        inline_stages(operators, stages),
    ensures
        (forall|i: int| 0 <= i < stages.len() ==> (#[trigger] stages[i]).accepts(line)) <==> (
        forall|i: int|
            0 <= i < operators.len() && (#[trigger] operators[i]) is Inline ==> lets_through(
                operators[i]->Inline_0,
                line,
            )),
    decreases operators.len(),
{
    if operators.len() > 0 {
        let front = operators.drop_last();
        let last = operators.len() - 1;
        let all = forall|i: int| 0 <= i < stages.len() ==> (#[trigger] stages[i]).accepts(line);
        let through = forall|i: int|
            0 <= i < operators.len() && (#[trigger] operators[i]) is Inline ==> lets_through(
                operators[i]->Inline_0,
                line,
            );
        match operators.last() {
            Operator::Inline(op) => {
                let before = stages.drop_last();
                lemma_stages_accept(front, before, line);
                lemma_stage_lets_through(op, stages.last(), line);
                if all {
                    assert forall|i: int| 0 <= i < before.len() implies (
                    #[trigger] before[i]).accepts(line) by {
                        assert(stages[i].accepts(line));
                    }
                    assert(stages[stages.len() - 1].accepts(line));
                    assert forall|i: int|
                        0 <= i < operators.len() && (
                        #[trigger] operators[i]) is Inline implies lets_through(
                        operators[i]->Inline_0,
                        line,
                    ) by {
                        if i < last {
                            assert(front[i] == operators[i]);
                        }
                    }
                }
                if through {
                    assert forall|i: int|
                        0 <= i < front.len() && (#[trigger] front[i]) is Inline implies lets_through(
                        front[i]->Inline_0,
                        line,
                    ) by {
                        assert(operators[i] is Inline);
                    }
                    assert(operators[last] is Inline);
                    assert forall|i: int| 0 <= i < stages.len() implies (
                    #[trigger] stages[i]).accepts(line) by {
                        if i < before.len() {
                            assert(before[i].accepts(line));
                        }
                    }
                }
            },
            Operator::Aggregate(_) => {
                lemma_stages_accept(front, stages, line);
                if all {
                    assert forall|i: int|
                        0 <= i < operators.len() && (
                        #[trigger] operators[i]) is Inline implies lets_through(
                        operators[i]->Inline_0,
                        line,
                    ) by {
                        assert(i < last);
                        assert(front[i] == operators[i]);
                    }
                }
                if through {
                    assert forall|i: int|
                        0 <= i < front.len() && (#[trigger] front[i]) is Inline implies lets_through(
                        front[i]->Inline_0,
                        line,
                    ) by {
                        assert(operators[i] is Inline);
                    }
                }
            },
        }
    }
}

proof fn lemma_chain_turns<N: Notation>(
    operators: Seq<Operator>,
    stages: Seq<PreAggregate<N>>,
    start: RecordView,
    end: RecordView,
)
    requires
        inline_stages(operators, stages),
        chain(stages, start, end),
    ensures
        turns_all::<N>(operators, start, end),
    decreases operators.len(),
{
    if operators.len() > 0 {
        match operators.last() {
            Operator::Inline(op) => {
                let mid = choose|mid: RecordView|
                    chain(stages.drop_last(), start, mid) && #[trigger] stages.last().produces(
                        mid,
                        end,
                    );
                lemma_chain_turns(operators.drop_last(), stages.drop_last(), start, mid);
                lemma_stage_turns(op, stages.last(), mid, end);
                assert(turns::<N>(op, mid, end));
            },
            Operator::Aggregate(_) => {
                lemma_chain_turns(operators.drop_last(), stages, start, end);
            },
        }
    }
}

/// A query that was put to work takes exactly the lines that it is about: those with the text of
/// the filter in them that go through all operators that work on each record by itself.
pub proof fn law_which_lines_count<N: Numerics>(
    query: Query,
    pipeline: Pipeline<N>,
    line: Seq<char>,
)
    requires
        Pipeline::<N>::builds(Ok(query), Ok(pipeline)),
    ensures
        pipeline.passes(line) <==> answers_for(query, line),
{
    lemma_stages_accept(query.operators@, pipeline.stages(), line);
    if let Search::MatchFilter(filter) = query.search {
        law_occurrence(filter@, line);
    }
}

proof fn lemma_records_of<N: Numerics>(
    query: Query,
    pipeline: Pipeline<N>,
    lines: Seq<Seq<char>>,
    recs: Seq<RecordView>,
)
    requires
        Pipeline::<N>::builds(Ok(query), Ok(pipeline)),
        passed(pipeline, lines, recs),
    ensures
        records_of::<N>(query, lines, recs),
    decreases lines.len(),
{
    if lines.len() > 0 {
        let line = lines.last();
        law_which_lines_count(query, pipeline, line);
        if pipeline.passes(line) {
            lemma_chain_turns(
                query.operators@,
                pipeline.stages(),
                RecordView { data: Map::empty(), raw: line },
                recs.last(),
            );
            lemma_records_of(query, pipeline, lines.drop_last(), recs.drop_last());
        } else {
            lemma_records_of(query, pipeline, lines.drop_last(), recs);
        }
    }
}

proof fn lemma_no_aggregates<N: Numerics>(operators: Seq<Operator>, stages: Seq<Aggregator<N>>)
    requires
        aggregate_stages(operators, stages),
        forall|i: int| 0 <= i < operators.len() ==> (#[trigger] operators[i]) is Inline,
    ensures
        stages.len() == 0,
    decreases operators.len(),
{
    if operators.len() > 0 {
        let front = operators.drop_last();
        assert(operators[operators.len() - 1] is Inline);
        assert forall|i: int| 0 <= i < front.len() implies (#[trigger] front[i]) is Inline by {
            assert(operators[i] is Inline);
        }
        lemma_no_aggregates(front, stages);
    }
}

/// A query without operators that work on all records gives out the records that it makes of the
/// lines it is about, one row for each, in order.
pub proof fn law_query_gives_out_records<N: Numerics>(
    query: Query,
    start: Pipeline<N>,
    lines: Seq<Seq<char>>,
    rows: Seq<OutputView>,
    end: Pipeline<N>,
) -> (recs: Seq<RecordView>)
    requires
        Pipeline::<N>::builds(Ok(query), Ok(start)),
        forall|i: int|
            0 <= i < query.operators@.len() ==> (#[trigger] query.operators@[i]) is Inline,
        start.runs(lines, rows, end),
    ensures
        records_of::<N>(query, lines, recs),
        rows.len() == recs.len(),
        forall|k: int| 0 <= k < rows.len() ==> #[trigger] rows[k] == OutputView::Record(recs[k]),
{
    lemma_no_aggregates(query.operators@, start.aggregators());
    let recs = law_records_come_out(start, lines, rows, end);
    lemma_records_of(query, start, lines, recs);
    recs
}

/// Whether `value` is the sum of these numbers.
pub open spec fn is_sum<N: Numerics>(
    recs: Seq<RecordView>,
    column: Seq<char>,
    xs: Seq<u64>,
    total: u64,
    value: ValueView,
) -> bool {
    &&& numbers::<N>(recs, column, xs)
    &&& added_up::<N>(xs, total)
    &&& value is Int
    &&& call_ensures(N::to_int, (total,), value->Int_0)
}

/// Whether `value` is the average of these numbers.
pub open spec fn is_average<N: Numerics>(
    recs: Seq<RecordView>,
    column: Seq<char>,
    xs: Seq<u64>,
    total: u64,
    count: u64,
    mean: u64,
    value: ValueView,
) -> bool {
    &&& numbers::<N>(recs, column, xs)
    &&& added_up::<N>(xs, total)
    &&& xs.len() <= i64::MAX
    &&& call_ensures(N::of_int, (xs.len() as i64,), count)
    &&& call_ensures(N::over, (total, count), mean)
    &&& shown_double::<N>(mean, value)
}

/// Whether `value` is what a sketch of these numbers answers for a percentile.
pub open spec fn is_percentile<N: Numerics>(
    recs: Seq<RecordView>,
    column: Seq<char>,
    percentile: u64,
    xs: Seq<u64>,
    value: ValueView,
) -> bool {
    &&& numbers::<N>(recs, column, xs)
    &&& xs.len() == 0 ==> value is Null
    &&& xs.len() > 0 ==> exists|sketch: N::Sketch, answer: Option<u64>|
        {
            &&& sketched::<N>(xs, sketch)
            &&& #[trigger] call_ensures(N::quantile, (&sketch, percentile), answer)
            &&& answer is None ==> value is Null
            &&& answer is Some ==> shown_double::<N>(answer->0, value)
        }
}

/// Whether `value` is what a function of a query makes of these records.
pub open spec fn is_result<N: Numerics>(
    function: lang::AggregateFunction,
    recs: Seq<RecordView>,
    value: ValueView,
) -> bool {
    match function {
        lang::AggregateFunction::Count => value is Int && value->Int_0 == recs.len(),
        lang::AggregateFunction::Sum { column } => exists|xs: Seq<u64>, total: u64| #[trigger]
            is_sum::<N>(recs, column@, xs, total, value),
        lang::AggregateFunction::Average { column } => exists|
            xs: Seq<u64>,
            total: u64,
            count: u64,
            mean: u64,
        | #[trigger]
            is_average::<N>(recs, column@, xs, total, count, mean, value),
        lang::AggregateFunction::Percentile { column, percentile, .. } => exists|xs: Seq<u64>| #[trigger]
            is_percentile::<N>(recs, column@, percentile, xs, value),
    }
}

/// The name of the column of results that an operator asks for, or the one that goes with its
/// function.
pub open spec fn result_name(op: lang::AggregateOperator) -> Seq<char> {
    match (op.output_column, op.aggregate_function) {
        (Some(name), _) => name@,
        (None, lang::AggregateFunction::Count) => "_count"@,
        (None, lang::AggregateFunction::Sum { .. }) => "_sum"@,
        (None, lang::AggregateFunction::Average { .. }) => "_average"@,
        (None, lang::AggregateFunction::Percentile { percentile_str, .. }) => "_p"@ + percentile_str@,
    }
}

/// Whether a row is one of the report that an operator asks for over these records: it has the
/// key columns and no others, what its records say there, and what the function makes of them.
pub open spec fn is_report_row<N: Numerics>(
    op: lang::AggregateOperator,
    recs: Seq<RecordView>,
    row: RowView,
) -> bool {
    &&& forall|column: Seq<char>| #[trigger]
        row.0.contains_key(column) <==> exists|k: int|
            0 <= k < op.key_cols@.len() && #[trigger] op.key_cols@[k]@ == column
    &&& agreeing(recs, views(op.key_cols@), row.0).len() > 0
    &&& is_result::<N>(
        op.aggregate_function,
        agreeing(recs, views(op.key_cols@), row.0),
        row.1,
    )
}

/// Whether a report is the one that an operator asks for over these records: a row for each
/// combination of what the records say in the key columns, the greatest result first.
pub open spec fn is_report<N: Numerics>(
    op: lang::AggregateOperator,
    recs: Seq<RecordView>,
    agg: AggregateView,
) -> bool {
    &&& agg.key_columns == views(op.key_cols@)
    &&& agg.agg_column == result_name(op)
    &&& forall|i: int|
        0 <= i < agg.data.len() ==> is_report_row::<N>(op, recs, #[trigger] agg.data[i])
    &&& forall|j: int|
        0 <= j < recs.len() ==> exists|i: int|
            0 <= i < agg.data.len() && agrees(
                #[trigger] recs[j],
                views(op.key_cols@),
                (#[trigger] agg.data[i]).0,
            )
    &&& forall|i: int, j: int|
        0 <= i < j < agg.data.len() ==> (#[trigger] agg.data[i]).0 != (#[trigger] agg.data[j]).0
            && may_precede(agg.data[i].1, agg.data[j].1)
}

proof fn lemma_stage_kind<N: Numerics>(
    start: Aggregator<N>,
    recs: Seq<RecordView>,
    end: Aggregator<N>,
)
    requires
        absorbs_all(start, recs, end),
    ensures
        start is Count ==> end is Count && absorbs_all(start->Count_0, recs, end->Count_0),
        start is Sum ==> end is Sum && absorbs_all(start->Sum_0, recs, end->Sum_0),
        start is Average ==> end is Average && absorbs_all(
            start->Average_0,
            recs,
            end->Average_0,
        ),
        start is Percentile ==> end is Percentile && absorbs_all(
            start->Percentile_0,
            recs,
            end->Percentile_0,
        ),
    decreases recs.len(),
{
    if recs.len() > 0 {
        let mid = choose|mid: Aggregator<N>|
            #[trigger] mid.absorbs(recs.last(), end) && absorbs_all(start, recs.drop_last(), mid);
        lemma_stage_kind(start, recs.drop_last(), mid);
        match mid {
            Aggregator::Count(g) => {
                assert(g.absorbs(recs.last(), end->Count_0));
            },
            Aggregator::Sum(g) => {
                assert(g.absorbs(recs.last(), end->Sum_0));
            },
            Aggregator::Average(g) => {
                assert(g.absorbs(recs.last(), end->Average_0));
            },
            Aggregator::Percentile(g) => {
                assert(g.absorbs(recs.last(), end->Percentile_0));
            },
        }
    }
}

proof fn lemma_columns(op: lang::AggregateOperator, column: Seq<char>)
    ensures
        views(op.key_cols@).contains(column) <==> exists|k: int|
            0 <= k < op.key_cols@.len() && #[trigger] op.key_cols@[k]@ == column,
{
    let cols = views(op.key_cols@);
    if cols.contains(column) {
        let k = choose|k: int| 0 <= k < cols.len() && cols[k] == column;
        assert(op.key_cols@[k]@ == column);
    }
    if exists|k: int| 0 <= k < op.key_cols@.len() && #[trigger] op.key_cols@[k]@ == column {
        let k = choose|k: int| 0 <= k < op.key_cols@.len() && #[trigger] op.key_cols@[k]@ == column;
        assert(cols[k] == column);
    }
}

proof fn lemma_count_report<N: Numerics>(
    op: lang::AggregateOperator,
    start: Grouper<Count>,
    recs: Seq<RecordView>,
    end: Grouper<Count>,
    agg: AggregateView,
)
    requires
        op.aggregate_function is Count,
        start.groups() == Map::<Key, Count>::empty(),
        start.key_cols() == views(op.key_cols@),
        start.agg_col() == result_name(op),
        start.initial()@ == 0,
        absorbs_all(start, recs, end),
        end.reports(agg),
    ensures
        is_report::<N>(op, recs, agg),
{
    law_report_has_a_row_for_each_group(start, recs, end, agg);
    law_greatest_result_first(end, agg);
    assert forall|i: int| 0 <= i < agg.data.len() implies is_report_row::<N>(
        op,
        recs,
        #[trigger] agg.data[i],
    ) by {
        let row = agg.data[i];
        assert(row_of_agreeing(start.initial(), start.key_cols(), recs, row));
        let own = agreeing(recs, start.key_cols(), row.0);
        let (first, last) = choose|first: Count, last: Count|
            {
                &&& #[trigger] cloned(start.initial(), first)
                &&& advances_all(first, own, last)
                &&& #[trigger] last.yields(row.1)
            };
        assert(first@ == 0);
        law_count_is_the_number_of_records(first, own, last, row.1);
        assert forall|column: Seq<char>| #[trigger] row.0.contains_key(column) <==> exists|k: int|
            0 <= k < op.key_cols@.len() && #[trigger] op.key_cols@[k]@ == column by {
            lemma_columns(op, column);
        }
    }
}

proof fn lemma_sum_report<N: Numerics>(
    op: lang::AggregateOperator,
    start: Grouper<Sum<N>>,
    recs: Seq<RecordView>,
    end: Grouper<Sum<N>>,
    agg: AggregateView,
)
    requires
        op.aggregate_function is Sum,
        start.groups() == Map::<Key, Sum<N>>::empty(),
        start.key_cols() == views(op.key_cols@),
        start.agg_col() == result_name(op),
        start.initial()@.total == 0,
        start.initial()@.column == op.aggregate_function->Sum_column@,
        absorbs_all(start, recs, end),
        end.reports(agg),
    ensures
        is_report::<N>(op, recs, agg),
{
    law_report_has_a_row_for_each_group(start, recs, end, agg);
    law_greatest_result_first(end, agg);
    assert forall|i: int| 0 <= i < agg.data.len() implies is_report_row::<N>(
        op,
        recs,
        #[trigger] agg.data[i],
    ) by {
        let row = agg.data[i];
        assert(row_of_agreeing(start.initial(), start.key_cols(), recs, row));
        let own = agreeing(recs, start.key_cols(), row.0);
        let (first, last) = choose|first: Sum<N>, last: Sum<N>|
            {
                &&& #[trigger] cloned(start.initial(), first)
                &&& advances_all(first, own, last)
                &&& #[trigger] last.yields(row.1)
            };
        assert(first@ == start.initial()@);
        let (xs, total) = law_sum_adds_up_the_numbers(first, own, last, row.1);
        assert(is_sum::<N>(own, op.aggregate_function->Sum_column@, xs, total, row.1));
        assert forall|column: Seq<char>| #[trigger] row.0.contains_key(column) <==> exists|k: int|
            0 <= k < op.key_cols@.len() && #[trigger] op.key_cols@[k]@ == column by {
            lemma_columns(op, column);
        }
    }
}

proof fn lemma_average_report<N: Numerics>(
    op: lang::AggregateOperator,
    start: Grouper<Average<N>>,
    recs: Seq<RecordView>,
    end: Grouper<Average<N>>,
    agg: AggregateView,
)
    requires
        op.aggregate_function is Average,
        start.groups() == Map::<Key, Average<N>>::empty(),
        start.key_cols() == views(op.key_cols@),
        start.agg_col() == result_name(op),
        start.initial()@.total == 0,
        start.initial()@.count == 0,
        start.initial()@.column == op.aggregate_function->Average_column@,
        absorbs_all(start, recs, end),
        end.reports(agg),
    ensures
        is_report::<N>(op, recs, agg),
{
    law_report_has_a_row_for_each_group(start, recs, end, agg);
    law_greatest_result_first(end, agg);
    assert forall|i: int| 0 <= i < agg.data.len() implies is_report_row::<N>(
        op,
        recs,
        #[trigger] agg.data[i],
    ) by {
        let row = agg.data[i];
        assert(row_of_agreeing(start.initial(), start.key_cols(), recs, row));
        let own = agreeing(recs, start.key_cols(), row.0);
        let (first, last) = choose|first: Average<N>, last: Average<N>|
            {
                &&& #[trigger] cloned(start.initial(), first)
                &&& advances_all(first, own, last)
                &&& #[trigger] last.yields(row.1)
            };
        assert(first@ == start.initial()@);
        let (xs, total, count, mean) = law_average_divides_the_total(first, own, last, row.1);
        assert(is_average::<N>(
            own,
            op.aggregate_function->Average_column@,
            xs,
            total,
            count,
            mean,
            row.1,
        ));
        assert forall|column: Seq<char>| #[trigger] row.0.contains_key(column) <==> exists|k: int|
            0 <= k < op.key_cols@.len() && #[trigger] op.key_cols@[k]@ == column by {
            lemma_columns(op, column);
        }
    }
}

proof fn lemma_percentile_report<N: Numerics>(
    op: lang::AggregateOperator,
    start: Grouper<Percentile<N>>,
    recs: Seq<RecordView>,
    end: Grouper<Percentile<N>>,
    agg: AggregateView,
)
    requires
        op.aggregate_function is Percentile,
        start.groups() == Map::<Key, Percentile<N>>::empty(),
        start.key_cols() == views(op.key_cols@),
        start.agg_col() == result_name(op),
        start.initial()@.sketch is None,
        start.initial()@.column == op.aggregate_function->Percentile_column@,
        start.initial()@.percentile == op.aggregate_function->percentile,
        absorbs_all(start, recs, end),
        end.reports(agg),
    ensures
        is_report::<N>(op, recs, agg),
{
    law_report_has_a_row_for_each_group(start, recs, end, agg);
    law_greatest_result_first(end, agg);
    assert forall|i: int| 0 <= i < agg.data.len() implies is_report_row::<N>(
        op,
        recs,
        #[trigger] agg.data[i],
    ) by {
        let row = agg.data[i];
        assert(row_of_agreeing(start.initial(), start.key_cols(), recs, row));
        let own = agreeing(recs, start.key_cols(), row.0);
        let (first, last) = choose|first: Percentile<N>, last: Percentile<N>|
            {
                &&& #[trigger] cloned(start.initial(), first)
                &&& advances_all(first, own, last)
                &&& #[trigger] last.yields(row.1)
            };
        assert(first@ == start.initial()@);
        let xs = law_percentile_is_an_answer(first, own, last, row.1);
        assert(is_percentile::<N>(
            own,
            op.aggregate_function->Percentile_column@,
            op.aggregate_function->percentile,
            xs,
            row.1,
        ));
        assert forall|column: Seq<char>| #[trigger] row.0.contains_key(column) <==> exists|k: int|
            0 <= k < op.key_cols@.len() && #[trigger] op.key_cols@[k]@ == column by {
            lemma_columns(op, column);
        }
    }
}

/// A query with one operator that works on all records, at its end, gives out a row for each
/// line that it is about. The row is the report that the operator asks for, of its function, its
/// column and its percentile, by its key columns, over the records of this line and all lines
/// before it.
pub proof fn law_query_reports<N: Numerics>(
    query: Query,
    op: lang::AggregateOperator,
    start: Pipeline<N>,
    lines: Seq<Seq<char>>,
    rows: Seq<OutputView>,
    end: Pipeline<N>,
) -> (recs: Seq<RecordView>)
    requires
        Pipeline::<N>::builds(Ok(query), Ok(start)),
        query.operators@.len() > 0,
        query.operators@.last() == Operator::Aggregate(op),
        forall|i: int|
            0 <= i < query.operators@.len() - 1 ==> (#[trigger] query.operators@[i]) is Inline,
        start.runs(lines, rows, end),
    ensures
        records_of::<N>(query, lines, recs),
        rows.len() == recs.len(),
        forall|k: int|
            0 <= k < rows.len() ==> (#[trigger] rows[k]) is Aggregate && is_report::<N>(
                op,
                recs.take(k + 1),
                rows[k]->Aggregate_0,
            ),
{
    let front = query.operators@.drop_last();
    assert forall|i: int| 0 <= i < front.len() implies (#[trigger] front[i]) is Inline by {
        assert(query.operators@[i] is Inline);
    }
    lemma_no_aggregates(front, start.aggregators().drop_last());
    assert(start.aggregators().len() == 1);
    let stage = start.aggregators()[0];
    assert(stage == start.aggregators().last());
    let recs = law_every_row_is_a_report(start, lines, rows, end);
    lemma_records_of(query, start, lines, recs);
    assert forall|k: int| 0 <= k < rows.len() implies (#[trigger] rows[k]) is Aggregate
        && is_report::<N>(op, recs.take(k + 1), rows[k]->Aggregate_0) by {
        let so_far = recs.take(k + 1);
        assert(reports_after(stage, so_far, rows[k]));
        let last = choose|last: Aggregator<N>|
            #[trigger] crate::pipeline::reported(last, rows[k]) && absorbs_all(
                stage,
                so_far,
                last,
            );
        let agg = rows[k]->Aggregate_0;
        lemma_stage_kind(stage, so_far, last);
        match op.aggregate_function {
            lang::AggregateFunction::Count => {
                lemma_count_report::<N>(op, stage->Count_0, so_far, last->Count_0, agg);
            },
            lang::AggregateFunction::Sum { .. } => {
                lemma_sum_report(op, stage->Sum_0, so_far, last->Sum_0, agg);
            },
            lang::AggregateFunction::Average { .. } => {
                lemma_average_report(op, stage->Average_0, so_far, last->Average_0, agg);
            },
            lang::AggregateFunction::Percentile { .. } => {
                lemma_percentile_report(op, stage->Percentile_0, so_far, last->Percentile_0, agg);
            },
        }
    }
    recs
}

/// The parser of the query language is given the text of the query with an exclamation mark
/// behind it. Its complaint is passed on as a whole.
pub proof fn law_parser_is_heard<N: Numerics>(
    text: Seq<char>,
    complaint: String,
    res: Result<Pipeline<N>, String>,
)
    ensures
        query_text(text) == text + seq!['!'],
        Pipeline::<N>::builds(Err(complaint), res) ==> res is Err && res->Err_0@
            == "Could not parse query: "@ + complaint@,
{
    assert(query_text(text) =~= text + seq!['!']);
}

/// Whether an operator is a pattern whose regular expression may be refused.
pub open spec fn does_not_compile(op: Operator) -> bool {
    op matches Operator::Inline(InlineOperator::Parse { pattern, .. }) && exists|
        re: &str,
        error: regex::Error,
    |
        re@ == pattern_regex(pattern@) && #[trigger] call_ensures(
            regex::Regex::new,
            (re,),
            Err(error),
        )
}

/// Whether an operator is a pattern of more than a thousand characters.
pub open spec fn is_long_pattern(op: Operator) -> bool {
    op matches Operator::Inline(InlineOperator::Parse { pattern, .. }) && pattern@.len() > 1000
}

/// A query is refused where an operator that works on each record by itself comes behind one
/// that works on all. Else it is put to work, unless a pattern in it has a regular expression
/// that is refused, which takes more than a thousand characters.
pub proof fn law_order_of_operators<N: Numerics>(
    query: Query,
    res: Result<Pipeline<N>, String>,
)
    requires
        Pipeline::<N>::builds(Ok(query), res),
    ensures
        (exists|i: int, j: int|
            0 <= i < j < query.operators@.len() && (#[trigger] query.operators@[i]) is Aggregate
                && (#[trigger] query.operators@[j]) is Inline) ==> res is Err,
        res is Err ==> res->Err_0@ == "non aggregate cannot follow aggregate"@ || res->Err_0@
            == "Pattern too large"@,
        res is Err && res->Err_0@ == "Pattern too large"@ ==> exists|j: int|
            0 <= j < query.operators@.len() && does_not_compile(#[trigger] query.operators@[j]),
        res is Err && (forall|j: int|
            0 <= j < query.operators@.len() ==> !does_not_compile(#[trigger] query.operators@[j])) ==> res->Err_0@ == "non aggregate cannot follow aggregate"@,
        res is Err && !(exists|i: int, j: int|
            0 <= i < j < query.operators@.len() && (#[trigger] query.operators@[i]) is Aggregate
                && (#[trigger] query.operators@[j]) is Inline) ==> exists|j: int|
            0 <= j < query.operators@.len() && does_not_compile(#[trigger] query.operators@[j]),
        res is Err ==> (exists|i: int, j: int|
            0 <= i < j < query.operators@.len() && (#[trigger] query.operators@[i]) is Aggregate
                && (#[trigger] query.operators@[j]) is Inline) || exists|j: int|
            0 <= j < query.operators@.len() && is_long_pattern(#[trigger] query.operators@[j]),
        res matches Ok(pipeline) ==> pipeline.config().floating_points == 2
            && pipeline.config().min_buffer == 4 && pipeline.config().max_buffer == 8,
{
    let ops = query.operators@;
    if exists|i: int, j: int|
        0 <= i < j < ops.len() && (#[trigger] ops[i]) is Aggregate && (
        #[trigger] ops[j]) is Inline {
        let (i, j) = choose|i: int, j: int|
            0 <= i < j < ops.len() && (#[trigger] ops[i]) is Aggregate && (
            #[trigger] ops[j]) is Inline;
        assert(misplaced(ops, j));
        assert(!in_order_to(ops, ops.len() - 1));
    }
    if let Err(message) = res {
        let j = choose|j: int| #[trigger]
            crate::pipeline::refused_at(ops, j, message@);
        lemma_messages_differ();
        if misplaced(ops, j) {
            let i = choose|i: int| 0 <= i < j && (#[trigger] ops[i]) is Aggregate;
            assert(ops[i] is Aggregate && ops[j] is Inline);
        } else {
            let pattern = ops[j]->Inline_0->pattern@;
            let error = choose|error: regex::Error| #[trigger]
                compiles(pattern_regex(pattern), Err(error));
            let re = choose|re: &str|
                re@ == pattern_regex(pattern) && #[trigger] call_ensures(
                    regex::Regex::new,
                    (re,),
                    Err(error),
                );
            assert(does_not_compile(ops[j]));
            law_refused_patterns_are_long(pattern);
            assert(is_long_pattern(ops[j]));
        }
    }
}

proof fn lemma_messages_differ()
    ensures
        "non aggregate cannot follow aggregate"@ != "Pattern too large"@,
{
    reveal_strlit("non aggregate cannot follow aggregate");
    reveal_strlit("Pattern too large");
    assert("non aggregate cannot follow aggregate"@.len() != "Pattern too large"@.len());
}

/// A query that was put to work has a stage for each of its operators, in their order.
pub proof fn law_stage_for_each_operator<N: Numerics>(
    query: Query,
    pipeline: Pipeline<N>,
    i: int,
)
    requires
        Pipeline::<N>::builds(Ok(query), Ok(pipeline)),
        0 <= i < query.operators@.len(),
        forall|k: int|
            0 <= k < query.operators@.len() ==> (#[trigger] query.operators@[k]) is Inline,
    ensures
        pipeline.stages().len() == query.operators@.len(),
        query.operators@[i]->Inline_0 is Json <==> pipeline.stages()[i] is Json,
        query.operators@[i]->Inline_0 matches InlineOperator::Parse { pattern, fields } ==> {
            &&& pipeline.stages()[i] is Parse
            &&& pipeline.stages()[i]->Parse_0.pattern() == pattern@
            &&& pipeline.stages()[i]->Parse_0.fields().len() == fields@.len()
            &&& forall|k: int|
                0 <= k < fields@.len() ==> #[trigger] pipeline.stages()[i]->Parse_0.fields()[k]
                    == fields@[k]@
        },
{
    lemma_stage_of_operator(query.operators@, pipeline.stages(), i);
}

proof fn lemma_stage_of_operator<N: Notation>(
    operators: Seq<Operator>,
    stages: Seq<PreAggregate<N>>,
    i: int,
)
    requires
        inline_stages(operators, stages),
        0 <= i < operators.len(),
        forall|k: int| 0 <= k < operators.len() ==> (#[trigger] operators[k]) is Inline,
    ensures
        stages.len() == operators.len(),
        inline_stage(operators[i]->Inline_0, stages[i]),
    decreases operators.len(),
{
    let last = operators.len() - 1;
    let front = operators.drop_last();
    assert(operators[last] is Inline);
    assert forall|k: int| 0 <= k < front.len() implies (#[trigger] front[k]) is Inline by {
        assert(operators[k] is Inline);
    }
    assert(inline_stages(front, stages.drop_last()));
    if i < last {
        lemma_stage_of_operator(front, stages.drop_last(), i);
    } else if last > 0 {
        lemma_stage_of_operator(front, stages.drop_last(), 0);
    }
}

/// A query can be converted exactly where, as far as its operators are in order, every pattern
/// has as many fields as stars and every percentile is below one.
pub proof fn law_what_can_be_converted(op: Operator)
    ensures
        op matches Operator::Inline(InlineOperator::Json) ==> op.convertible(),
        op matches Operator::Inline(InlineOperator::Parse { pattern, fields }) ==> (
        op.convertible() <==> crate::extract::stars(pattern@) == fields@.len()),
        op matches Operator::Aggregate(agg) ==> match agg.aggregate_function {
            lang::AggregateFunction::Percentile { percentile, .. } => op.convertible() <==> !(
            0x3FF0_0000_0000_0000 <= percentile <= 0x7FF0_0000_0000_0000),
            _ => op.convertible(),
        },
{
}

/// A query that was just put to work, with one operator at most that works on all records, takes
/// any number of lines that a 64-bit counter can count.
pub proof fn law_room_at_the_start<N: Numerics>(
    query: Query,
    pipeline: Pipeline<N>,
    lines: Seq<Seq<char>>,
    n: nat,
)
    requires
        Pipeline::<N>::builds(Ok(query), Ok(pipeline)),
        forall|i: int|
            0 <= i < query.operators@.len() - 1 ==> (#[trigger] query.operators@[i]) is Inline,
        n <= 0x7FFF_FFFF_FFFF_FFFF,
    ensures
        pipeline.handles(lines),
        pipeline.can_take(n),
{
    let ops = query.operators@;
    if ops.len() > 0 {
        let front = ops.drop_last();
        assert forall|i: int| 0 <= i < front.len() implies (#[trigger] front[i]) is Inline by {
            assert(ops[i] is Inline);
        }
        match ops.last() {
            Operator::Inline(_) => {
                lemma_no_aggregates(front, pipeline.aggregators());
            },
            Operator::Aggregate(_) => {
                lemma_no_aggregates(front, pipeline.aggregators().drop_last());
                let stage = pipeline.aggregators()[0];
                assert(stage == pipeline.aggregators().last());
                match stage {
                    Aggregator::Count(g) => {
                        law_room_before_the_first_record(g, n);
                        assert(g.initial().can_take(n));
                    },
                    Aggregator::Sum(g) => {
                        law_room_before_the_first_record(g, n);
                        assert(g.initial().can_take(n));
                    },
                    Aggregator::Average(g) => {
                        law_room_before_the_first_record(g, n);
                        assert(g.initial().can_take(n));
                    },
                    Aggregator::Percentile(g) => {
                        law_room_before_the_first_record(g, n);
                        assert(g.initial().can_take(n));
                    },
                }
                assert(stage.can_take(n));
            },
        }
    } else {
        lemma_no_aggregates(ops, pipeline.aggregators());
    }
}

/// A query can be converted exactly where every operator can that has no operator that works on
/// each record by itself, up to and with itself, behind one that works on all.
pub proof fn law_what_queries_can_be_converted(query: Query)
    ensures
        query.convertible() <==> forall|j: int|
            0 <= j < query.operators@.len() && (forall|i: int, k: int|
                0 <= i < k <= j && (#[trigger] query.operators@[i]) is Aggregate ==> (
                #[trigger] query.operators@[k]) is Aggregate) ==> (
            #[trigger] query.operators@[j]).convertible(),
{
    let ops = query.operators@;
    assert forall|j: int| 0 <= j < ops.len() implies (in_order_to(ops, j) <==> forall|
        i: int,
        k: int,
    |
        0 <= i < k <= j && (#[trigger] ops[i]) is Aggregate ==> (
        #[trigger] ops[k]) is Aggregate) by {
        if in_order_to(ops, j) {
            assert forall|i: int, k: int|
                0 <= i < k <= j && (#[trigger] ops[i]) is Aggregate implies (
            #[trigger] ops[k]) is Aggregate by {
                assert(!misplaced(ops, k));
            }
        }
        if forall|i: int, k: int|
            0 <= i < k <= j && (#[trigger] ops[i]) is Aggregate ==> (
            #[trigger] ops[k]) is Aggregate {
            assert forall|k: int| 0 <= k <= j implies !#[trigger] misplaced(ops, k) by {
                if misplaced(ops, k) {
                    let i = choose|i: int| 0 <= i < k && (#[trigger] ops[i]) is Aggregate;
                    assert(ops[k] is Aggregate);
                }
            }
        }
    }
}

/// What comes out is listed row by row and in order.
pub proof fn law_rows_in_order(rows: Seq<Row>)
    ensures
        outputs(rows).len() == rows.len(),
        forall|i: int| 0 <= i < rows.len() ==> #[trigger] outputs(rows)[i] == rows[i]@,
        forall|row: Row| #[trigger] output(Some(row)) == Some(row@),
        output(None) is None,
{
}

} // verus!
