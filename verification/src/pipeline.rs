//! Queries at work: lines go in, rows come out.
use vstd::prelude::*;

use crate::accumulate::Average;
use crate::accumulate::Count;
use crate::accumulate::Percentile;
use crate::accumulate::Sum;
use crate::data::OutputView;
use crate::data::Record;
use crate::data::RecordView;
use crate::data::Row;
use crate::extract::Parse;
use crate::extract::SHORT_PATTERN;
use crate::extract::compiles;
use crate::extract::law_refused_patterns_are_long;
use crate::extract::pattern_regex;
use crate::extract::refused;
use crate::float::Notation;
use crate::float::Numerics;
use crate::grouper::Grouper;
use crate::grouper::Key;
use crate::grouper::law_count_report;
use crate::grouper::law_counts_are_tallies;
use crate::grouper::lists_tallies;
use crate::grouper::rows_descend;
use crate::grouper::str_views;
use crate::json::ParseJson;
use crate::lang;
use crate::lang::Operator;
use crate::lang::Query;
use crate::lang::Search;
use crate::lang::in_order_to;
use crate::lang::misplaced;
use crate::operator::AggregateOperator;
use crate::operator::UnaryPreAggOperator;
use crate::operator::absorbs_all;
use crate::render::RenderConfig;
use crate::stage::Aggregator;
use crate::stage::PreAggregate;
use crate::stage::aggregate_stage;
use crate::stage::inline_stage;
use crate::text::contains;
use crate::text::occurs_in;
use crate::text::views;

verus! {

broadcast use vstd::string::group_string_axioms;

/// A query at work: which lines it is about, the stages that work on each record by itself,
/// and behind them those that work on all records.
pub struct Pipeline<N: Numerics> {
    filter: Search,
    pre_aggregates: Vec<PreAggregate<N>>,
    aggregators: Vec<Aggregator<N>>,
    render: RenderConfig,
}

/// The text that the parser of the query language is given for a query.
pub open spec fn query_text(pipeline: Seq<char>) -> Seq<char> {
    pipeline.push('!')
}

/// Whether a line is one that a query is about.
pub open spec fn selected(search: Search, line: Seq<char>) -> bool {
    match search {
        Search::MatchAll => true,
        Search::MatchFilter(filter) => occurs_in(filter@, line),
    }
}

/// Whether `end` may be what the stages make of a record, one after the other.
pub open spec fn chain<N: Notation>(
    stages: Seq<PreAggregate<N>>,
    start: RecordView,
    end: RecordView,
) -> bool
    decreases stages.len(),
{
    if stages.len() == 0 {
        end == start
    } else {
        exists|mid: RecordView|
            chain(stages.drop_last(), start, mid) && #[trigger] stages.last().produces(mid, end)
    }
}

/// A line as a record in which no field was found yet.
pub open spec fn bare(line: Seq<char>) -> RecordView {
    RecordView { data: Map::empty(), raw: line }
}

/// The stages that work on each record by itself are those of the operators of that kind, in
/// order.
pub open spec fn inline_stages<N: Notation>(
    operators: Seq<Operator>,
    stages: Seq<PreAggregate<N>>,
) -> bool
    decreases operators.len(),
{
    if operators.len() == 0 {
        stages.len() == 0
    } else {
        match operators.last() {
            Operator::Inline(op) => stages.len() > 0 && inline_stage(op, stages.last())
                && inline_stages(operators.drop_last(), stages.drop_last()),
            Operator::Aggregate(_) => inline_stages(operators.drop_last(), stages),
        }
    }
}

/// The stages that work on all records are those of the operators of that kind, in order.
pub open spec fn aggregate_stages<N: Numerics>(
    operators: Seq<Operator>,
    stages: Seq<Aggregator<N>>,
) -> bool
    decreases operators.len(),
{
    if operators.len() == 0 {
        stages.len() == 0
    } else {
        match operators.last() {
            Operator::Inline(_) => aggregate_stages(operators.drop_last(), stages),
            Operator::Aggregate(op) => stages.len() > 0 && aggregate_stage(op, stages.last())
                && aggregate_stages(operators.drop_last(), stages.drop_last()),
        }
    }
}

/// Whether this is a pattern whose regular expression is refused.
pub open spec fn not_compiled(op: lang::InlineOperator) -> bool {
    op matches lang::InlineOperator::Parse { pattern, .. } && refused(pattern_regex(pattern@))
}

/// Whether this is no pattern, or one that is short.
pub open spec fn is_short(op: lang::InlineOperator) -> bool {
    op matches lang::InlineOperator::Parse { pattern, .. } ==> pattern@.len() <= SHORT_PATTERN
}

/// Why a query is refused at the operator at `j`: it works on each record by itself though one
/// before it works on all, or it is a pattern whose regular expression is refused.
pub open spec fn refused_at(operators: Seq<Operator>, j: int, message: Seq<char>) -> bool {
    &&& 0 <= j < operators.len()
    &&& in_order_to(operators, j - 1)
    &&& if misplaced(operators, j) {
        message == "non aggregate cannot follow aggregate"@
    } else {
        &&& operators[j] matches Operator::Inline(op)
        &&& not_compiled(op)
        &&& message == "Pattern too large"@
    }
}

/// What the rows hold.
pub open spec fn outputs(rows: Seq<Row>) -> Seq<OutputView> {
    Seq::new(rows.len(), |i: int| rows[i]@)
}

/// What a row holds, where there is one.
pub open spec fn output(row: Option<Row>) -> Option<OutputView> {
    match row {
        Some(r) => Some(r@),
        None => None,
    }
}

/// A list of the row, where there is one.
pub open spec fn listed(out: Option<OutputView>) -> Seq<OutputView> {
    match out {
        Some(o) => seq![o],
        None => Seq::empty(),
    }
}

fn slices(texts: &Vec<String>) -> (res: Vec<&str>)
    ensures
        str_views(res@) == views(texts@),
{
    let mut res: Vec<&str> = Vec::new();
    let mut i: usize = 0;
    while i < texts.len()
        invariant
            i <= texts.len(),
            res.len() == i,
            forall|j: int| 0 <= j < i ==> #[trigger] res@[j]@ == texts@[j]@,
        decreases texts.len() - i,
    {
        res.push(texts[i].as_str());
        i = i + 1;
    }
    assert(str_views(res@) =~= views(texts@));
    res
}

impl<N: Numerics> Pipeline<N> {
    /// Which lines the query is about.
    pub closed spec fn filter(self) -> Search {
        self.filter
    }

    /// The stages that work on each record by itself.
    pub closed spec fn stages(self) -> Seq<PreAggregate<N>> {
        self.pre_aggregates@
    }

    /// The stages that work on all records.
    pub closed spec fn aggregators(self) -> Seq<Aggregator<N>> {
        self.aggregators@
    }

    /// How the rows are to be shown.
    pub closed spec fn config(self) -> RenderConfig {
        self.render
    }

    /// Whether all stages are in order.
    pub open spec fn wf(self) -> bool {
        forall|i: int| 0 <= i < self.aggregators().len() ==> (#[trigger] self.aggregators()[i]).wf()
    }

    /// Whether this is the same query, though maybe after other lines.
    pub open spec fn same_query(self, other: Pipeline<N>) -> bool {
        &&& self.filter() == other.filter()
        &&& self.stages() == other.stages()
        &&& self.config() == other.config()
        &&& self.aggregators().len() == other.aggregators().len()
    }

    /// Whether there is room for this many lines more.
    pub open spec fn can_take(self, n: nat) -> bool {
        forall|i: int|
            0 <= i < self.aggregators().len() ==> (#[trigger] self.aggregators()[i]).can_take(n)
    }

    /// Whether a line makes it through the filter and the stages that work on each record by
    /// itself.
    pub open spec fn passes(self, line: Seq<char>) -> bool {
        &&& selected(self.filter(), line)
        &&& forall|i: int|
            0 <= i < self.stages().len() ==> (#[trigger] self.stages()[i]).accepts(line)
    }

    /// Whether the query may be at work as `next` after a line, for which `out` came out.
    ///
    /// A line that does not pass changes nothing. Of one that passes the record comes out, or,
    /// where a stage works on all records, the report of that stage.
    pub open spec fn steps(self, line: Seq<char>, out: Option<OutputView>, next: Pipeline<N>) -> bool {
        &&& next.filter() == self.filter()
        &&& next.stages() == self.stages()
        &&& next.config() == self.config()
        &&& if self.passes(line) {
            exists|rec: RecordView|
                {
                    &&& #[trigger] chain(self.stages(), bare(line), rec)
                    &&& rec.raw == line
                    &&& self.collects(rec, out, next)
                }
        } else {
            out is None && next.aggregators() == self.aggregators()
        }
    }

    /// Whether `out` may be what comes out for a record that got as far as the stages that
    /// work on all records, of which there is one at most, and `next` their state after it.
    pub open spec fn collects(
        self,
        rec: RecordView,
        out: Option<OutputView>,
        next: Pipeline<N>,
    ) -> bool {
        &&& next.aggregators().len() == self.aggregators().len()
        &&& if self.aggregators().len() == 0 {
            out == Some(OutputView::Record(rec))
        } else {
            &&& out matches Some(OutputView::Aggregate(agg))
            &&& self.aggregators()[0].absorbs(rec, next.aggregators()[0])
            &&& next.aggregators()[0].reports(agg)
        }
    }

    /// Whether the query may be at work as `next` after these lines, for which these rows came
    /// out.
    pub open spec fn runs(
        self,
        lines: Seq<Seq<char>>,
        rows: Seq<OutputView>,
        next: Pipeline<N>,
    ) -> bool
        decreases lines.len(),
    {
        if lines.len() == 0 {
            rows.len() == 0 && next == self
        } else {
            exists|mid: Pipeline<N>, out: Option<OutputView>|
                {
                    &&& #[trigger] mid.steps(lines.last(), out, next)
                    &&& listed(out).is_suffix_of(rows)
                    &&& self.runs(
                        lines.drop_last(),
                        rows.take(rows.len() - listed(out).len()),
                        mid,
                    )
                }
        }
    }

    /// Whether `res` is what is made of what the parser of the query language gave back.
    pub open spec fn builds(
        parsed: Result<Query, String>,
        res: Result<Pipeline<N>, String>,
    ) -> bool {
        match parsed {
            Err(complaint) => {
                &&& res is Err
                &&& res->Err_0@ == "Could not parse query: "@ + complaint@
            },
            Ok(query) => match res {
                Ok(pipeline) => {
                    &&& in_order_to(query.operators@, query.operators@.len() - 1)
                    &&& pipeline.filter() == query.search
                    &&& inline_stages(query.operators@, pipeline.stages())
                    &&& aggregate_stages(query.operators@, pipeline.aggregators())
                    &&& pipeline.config() == (RenderConfig {
                        floating_points: 2,
                        min_buffer: 4,
                        max_buffer: 8,
                    })
                    &&& pipeline.wf()
                },
                Err(message) => exists|j: int| #[trigger]
                    refused_at(query.operators@, j, message@),
            },
        }
    }

    /// Makes the stage for an operator that works on each record by itself. It fails only
    /// where the regular expression of a pattern is refused.
    pub fn convert_inline(op: lang::InlineOperator) -> (res: Result<PreAggregate<N>, String>)
        requires
            op.convertible(),
        ensures
            match res {
                Ok(stage) => inline_stage(op, stage),
                Err(message) => not_compiled(op) && message@ == "Pattern too large"@,
            },
            is_short(op) ==> res is Ok,
    {
        match op {
            lang::InlineOperator::Json => Ok(PreAggregate::Json(ParseJson {  })),
            lang::InlineOperator::Parse { pattern, fields } => {
                let made = Parse::new(pattern.as_str(), fields);
                proof {
                    let compiled = choose|compiled: Result<regex::Regex, regex::Error>| #[trigger]
                        compiles(pattern_regex(pattern@), compiled) && Parse::made_from(
                            pattern@,
                            views(fields@),
                            compiled,
                            made,
                        );
                    assert(compiled matches Err(error) ==> compiles(
                        pattern_regex(pattern@),
                        Err(error),
                    ));
                }
                match made {
                    Ok(parse) => Ok(PreAggregate::Parse(parse)),
                    Err(message) => Err(message),
                }
            },
        }
    }

    /// Makes the stage for an operator that works on all records.
    pub fn convert_agg(op: lang::AggregateOperator) -> (stage: Aggregator<N>)
        requires
            op.convertible(),
        ensures
            aggregate_stage(op, stage),
            stage.wf(),
    {
        let key_cols = slices(&op.key_cols);
        match op.aggregate_function {
            lang::AggregateFunction::Count => {
                let name = op.output_column.unwrap_or("_count".to_string());
                Aggregator::Count(Grouper::new(key_cols, name.as_str(), Count::new()))
            },
            lang::AggregateFunction::Average { column } => {
                let name = op.output_column.unwrap_or("_average".to_string());
                Aggregator::Average(Grouper::new(key_cols, name.as_str(), Average::empty(column)))
            },
            lang::AggregateFunction::Sum { column } => {
                let name = op.output_column.unwrap_or("_sum".to_string());
                Aggregator::Sum(Grouper::new(key_cols, name.as_str(), Sum::empty(column)))
            },
            lang::AggregateFunction::Percentile { column, percentile, percentile_str } => {
                let mut column_name = "_p".to_string();
                column_name.append(percentile_str.as_str());
                let name = op.output_column.unwrap_or(column_name);
                Aggregator::Percentile(
                    Grouper::new(key_cols, name.as_str(), Percentile::empty(column, percentile)),
                )
            },
        }
    }

    /// Puts a query to work. The query is written in the language that `parse_query` reads,
    /// which is given the text with an exclamation mark behind it.
    pub fn new<F: FnOnce(&str) -> Result<Query, String>>(pipeline: &str, parse_query: F) -> (res:
        Result<Pipeline<N>, String>)
        requires
            forall|text: &str|
                text@ == query_text(pipeline@) ==> #[trigger] call_requires(parse_query, (text,)),
            forall|text: &str, query: Query|
                text@ == query_text(pipeline@) && #[trigger] call_ensures(
                    parse_query,
                    (text,),
                    Ok(query),
                ) ==> query.convertible(),
        ensures
            exists|text: &str, parsed: Result<Query, String>|
                {
                    &&& text@ == query_text(pipeline@)
                    &&& #[trigger] call_ensures(parse_query, (text,), parsed)
                    &&& Pipeline::<N>::builds(parsed, res)
                },
    {
        let mut text = pipeline.to_string();
        text.push('!');
        let parsed = parse_query(text.as_str());
        Pipeline::from_parsed(parsed)
    }

    /// Puts a query to work, or passes on the complaint of the parser of the query language.
    pub fn from_parsed(parsed: Result<Query, String>) -> (res: Result<Pipeline<N>, String>)
        requires
            parsed matches Ok(query) ==> query.convertible(),
        ensures
            Pipeline::<N>::builds(parsed, res),
    {
        let query = match parsed {
            Ok(query) => query,
            Err(complaint) => {
                let mut message = "Could not parse query: ".to_string();
                message.append(complaint.as_str());
                return Err(message);
            },
        };
        let ghost whole = query;
        let ghost all = query.operators@;
        let mut in_agg: bool = false;
        let mut pre_agg: Vec<PreAggregate<N>> = Vec::new();
        let mut post_agg: Vec<Aggregator<N>> = Vec::new();
        for op in it: query.operators
            invariant
                it.seq() == all,
                forall|j: int|
                    0 <= j < all.len() && in_order_to(all, j) ==> (
                    #[trigger] all[j]).convertible(),
                parsed == Ok::<Query, String>(whole),
                whole.operators@ == all,
                in_order_to(all, it.index() - 1),
                in_agg <==> exists|i: int| 0 <= i < it.index() && (#[trigger] all[i]) is Aggregate,
                inline_stages(all.take(it.index()), pre_agg@),
                aggregate_stages(all.take(it.index()), post_agg@),
                forall|i: int| 0 <= i < post_agg@.len() ==> (#[trigger] post_agg@[i]).wf(),
        {
            let ghost at = it.index();
            assert(op == all[at]);
            assert(all.take(at + 1).drop_last() =~= all.take(at));
            assert(all.take(at + 1).last() == op);
            assert(!misplaced(all, at) ==> in_order_to(all, at));
            match op {
                Operator::Inline(inline_op) => {
                    if !in_agg {
                        match Pipeline::convert_inline(inline_op) {
                            Ok(stage) => {
                                let ghost before = pre_agg@;
                                pre_agg.push(stage);
                                assert(pre_agg@.drop_last() =~= before);
                            },
                            Err(message) => {
                                let res: Result<Pipeline<N>, String> = Err(message);
                                assert(refused_at(parsed->Ok_0.operators@, at, res->Err_0@));
                                return res;
                            },
                        }
                    } else {
                        let message = "non aggregate cannot follow aggregate".to_string();
                        assert(misplaced(all, at));
                        let res: Result<Pipeline<N>, String> = Err(message);
                        assert(refused_at(parsed->Ok_0.operators@, at, res->Err_0@));
                        return res;
                    }
                },
                Operator::Aggregate(agg_op) => {
                    in_agg = true;
                    let ghost before = post_agg@;
                    post_agg.push(Pipeline::convert_agg(agg_op));
                    assert(post_agg@.drop_last() =~= before);
                    assert(all[at] is Aggregate);
                },
            }
        }
        assert(all.take(all.len() as int) =~= all);
        Ok(
            Pipeline {
                filter: query.search,
                pre_aggregates: pre_agg,
                aggregators: post_agg,
                render: RenderConfig { floating_points: 2, min_buffer: 4, max_buffer: 8 },
            },
        )
    }

    /// How the rows are to be shown.
    pub fn render_config(&self) -> (config: RenderConfig)
        ensures
            config == self.config(),
    {
        self.render
    }

    /// Tells whether a record is of a line that the query is about.
    pub fn matches(&self, rec: &Record) -> (yes: bool)
        ensures
            yes == selected(self.filter(), rec@.raw),
    {
        match &self.filter {
            Search::MatchAll => true,
            Search::MatchFilter(filter) => contains(rec.raw.as_str(), filter.as_str()),
        }
    }

    /// The record of a line, behind the stages that work on each record by itself, where the
    /// line passes.
    pub fn prepare(&self, line: &str) -> (prepared: Option<Record>)
        ensures
            prepared is Some <==> self.passes(line@),
            prepared matches Some(rec) ==> {
                &&& chain(self.stages(), bare(line@), rec@)
                &&& rec@.raw == line@
            },
    {
        let mut rec = Record::new(line);
        if !self.matches(&rec) {
            return None;
        }
        let mut i: usize = 0;
        assert(self.stages().take(0) =~= Seq::empty());
        while i < self.pre_aggregates.len()
            invariant
                i <= self.pre_aggregates.len(),
                selected(self.filter(), line@),
                chain(self.stages().take(i as int), bare(line@), rec@),
                rec@.raw == line@,
                forall|j: int| 0 <= j < i ==> (#[trigger] self.stages()[j]).accepts(line@),
            decreases self.pre_aggregates.len() - i,
        {
            assert(self.stages().take(i + 1).drop_last() =~= self.stages().take(i as int));
            assert(self.stages()[i as int] == self.pre_aggregates@[i as int]);
            assert(self.stages().take(i + 1).last() == self.stages()[i as int]);
            let ghost mid = rec@;
            assert(chain(self.stages().take(i + 1).drop_last(), bare(line@), mid));
            match self.pre_aggregates[i].process(&rec) {
                Some(next_rec) => {
                    rec = next_rec;
                },
                None => {
                    assert(!self.stages()[i as int].accepts(line@));
                    return None;
                },
            }
            i = i + 1;
        }
        assert(self.stages().take(i as int) =~= self.stages());
        Some(rec)
    }

    /// Takes a line and gives out the row to be shown for it, if any.
    pub fn proc_str(&mut self, line: &str) -> (row: Option<Row>)
        requires
            old(self).wf(),
            old(self).passes(line@) ==> old(self).aggregators().len() <= 1 && old(self).can_take(
                1,
            ),
        ensures
            final(self).wf(),
            old(self).steps(line@, output(row), *final(self)),
            forall|n: nat| #[trigger] old(self).can_take(n + 1) ==> final(self).can_take(n),
    {
        let prepared = self.prepare(line);
        let ghost before = *self;
        let rec = match prepared {
            Some(rec) => rec,
            None => {
                proof {
                    self.lemma_less_room();
                }
                return None;
            },
        };
        let ghost view = rec@;
        let mut row = Row::Record(rec);
        let mut i: usize = 0;
        while i < self.aggregators.len()
            invariant
                i <= self.aggregators@.len() <= 1,
                self.wf(),
                self.filter == before.filter,
                self.pre_aggregates == before.pre_aggregates,
                self.render == before.render,
                i == 0 ==> *self == before && row == Row::Record(rec) && before.can_take(1),
                i > 0 ==> before.collects(view, Some(row@), *self),
                self.aggregators@.len() == before.aggregators@.len(),
                rec@ == view,
                i > 0 ==> forall|n: nat| #[trigger] before.can_take(n + 1) ==> self.can_take(n),
            decreases self.aggregators.len() - i,
        {
            assert(self.aggregators()[0].can_take(1));
            assert(self.aggregators()[0].wf());
            self.aggregators[i].process(&row);
            let agg = self.aggregators[i].emit();
            row = Row::Aggregate(agg);
            proof {
                assert forall|n: nat| #[trigger] before.can_take(n + 1) implies self.can_take(n) by {
                    assert(before.aggregators()[0].can_take(n + 1));
                }
            }
            i = i + 1;
        }
        Some(row)
    }

    /// Takes lines and gives out the rows to be shown for them, in order.
    pub fn process(&mut self, lines: &Vec<String>) -> (rows: Vec<Row>)
        requires
            old(self).wf(),
            old(self).handles(views(lines@)),
            old(self).can_take(lines@.len()),
        ensures
            final(self).wf(),
            old(self).runs(views(lines@), outputs(rows@), *final(self)),
            final(self).same_query(*old(self)),
            forall|n: nat| #[trigger]
                old(self).can_take(n + lines@.len()) ==> final(self).can_take(n),
    {
        let ghost before = *self;
        let ghost texts = views(lines@);
        let mut rows: Vec<Row> = Vec::new();
        let mut i: usize = 0;
        assert(before.runs(texts.take(0), outputs(rows@), *self));
        while i < lines.len()
            invariant
                i <= lines.len(),
                texts == views(lines@),
                self.wf(),
                before.handles(texts),
                self.same_query(before),
                before.can_take(lines@.len()),
                forall|n: nat| #[trigger]
                    before.can_take(n + lines@.len()) ==> self.can_take(
                        n + (lines@.len() - i) as nat,
                    ),
                before.runs(texts.take(i as int), outputs(rows@), *self),
            decreases lines.len() - i,
        {
            let ghost mid = *self;
            let ghost done = outputs(rows@);
            proof {
                assert(texts[i as int] == lines@[i as int]@);
                assert(self.passes(texts[i as int]) == before.passes(texts[i as int]));
                let left = (lines.len() - i - 1) as nat;
                assert(before.can_take(0nat + lines@.len()));
                assert(self.can_take(left + 1));
                assert(self.can_take(1)) by {
                    self.lemma_room_for(1, left + 1);
                }
            }
            let row = self.proc_str(lines[i].as_str());
            let ghost out = output(row);
            match row {
                Some(r) => {
                    rows.push(r);
                },
                None => {},
            }
            proof {
                let next = texts.take(i + 1);
                let all = outputs(rows@);
                assert(next.drop_last() =~= texts.take(i as int));
                assert(next.last() == texts[i as int]);
                assert(mid.steps(next.last(), out, *self));
                assert(all =~= done + listed(out));
                assert(all.take(all.len() - listed(out).len()) =~= done);
                assert(listed(out).is_suffix_of(all)) by {
                    assert(listed(out) =~= all.subrange(
                        all.len() - listed(out).len(),
                        all.len() as int,
                    ));
                }
                assert(before.runs(next, all, *self));
                assert forall|n: nat| #[trigger] before.can_take(
                    n + lines@.len(),
                ) implies self.can_take(n + (lines@.len() - i - 1) as nat) by {
                    let rest = n + (lines@.len() - i - 1) as nat;
                    assert(mid.can_take(rest + 1));
                }
            }
            i = i + 1;
        }
        assert(texts.take(i as int) =~= texts);
        rows
    }

    /// Takes lines as [`Pipeline::process`] does. Where a stage that works on all records would
    /// get the report of another one, or a count would become too large, nothing is done.
    pub fn checked_process(&mut self, lines: &Vec<String>) -> (rows: Option<Vec<Row>>)
        requires
            old(self).wf(),
        ensures
            final(self).wf(),
            match rows {
                Some(rows) => old(self).runs(views(lines@), outputs(rows@), *final(self)),
                None => *final(self) == *old(self),
            },
            rows is Some <==> old(self).handles(views(lines@)) && old(self).can_take(lines@.len()),
            final(self).same_query(*old(self)),
            rows is Some ==> forall|n: nat| #[trigger]
                old(self).can_take(n + lines@.len()) ==> final(self).can_take(n),
    {
        let mut i: usize = 0;
        while i < self.aggregators.len()
            invariant
                i <= self.aggregators.len(),
                self.wf(),
                forall|j: int|
                    0 <= j < i ==> (#[trigger] self.aggregators()[j]).can_take(lines@.len()),
            decreases self.aggregators.len() - i,
        {
            assert(self.aggregators()[i as int].wf());
            if !self.aggregators[i].has_room(lines.len()) {
                assert(!self.aggregators()[i as int].can_take(lines@.len()));
                return None;
            }
            i = i + 1;
        }
        if self.aggregators.len() > 1 {
            let mut k: usize = 0;
            while k < lines.len()
                invariant
                    k <= lines.len(),
                    self.wf(),
                    self.aggregators().len() > 1,
                    forall|j: int| 0 <= j < k ==> !self.passes(#[trigger] views(lines@)[j]),
                decreases lines.len() - k,
            {
                if self.prepare(lines[k].as_str()).is_some() {
                    assert(self.passes(views(lines@)[k as int]));
                    return None;
                }
                k = k + 1;
            }
        }
        Some(self.process(lines))
    }

    /// Whether none of the lines gets as far as a second stage that works on all records: such
    /// a stage can take records only, and would get the report of the first one.
    pub open spec fn handles(self, lines: Seq<Seq<char>>) -> bool {
        self.aggregators().len() <= 1 || forall|i: int|
            0 <= i < lines.len() ==> !self.passes(#[trigger] lines[i])
    }

    proof fn lemma_room_for(self, few: nat, many: nat)
        requires
            few <= many,
            self.can_take(many),
        ensures
            self.can_take(few),
        decreases many - few,
    {
        if few < many {
            self.lemma_less_room();
            assert(self.can_take((many - 1) as nat + 1));
            self.lemma_room_for(few, (many - 1) as nat);
        }
    }

    proof fn lemma_less_room(self)
        ensures
            forall|n: nat| #[trigger] self.can_take(n + 1) ==> self.can_take(n),
    {
        assert forall|n: nat| #[trigger] self.can_take(n + 1) implies self.can_take(n) by {
            assert forall|i: int| 0 <= i < self.aggregators().len() implies (
            #[trigger] self.aggregators()[i]).can_take(n) by {
                self.aggregators()[i].lemma_less_room(n);
            }
        }
    }
}

/// Lines may come in pieces: to run on some lines and then on others is to run on all of them,
/// and the rows are the same.
pub proof fn law_runs_compose<N: Numerics>(
    start: Pipeline<N>,
    first: Seq<Seq<char>>,
    first_rows: Seq<OutputView>,
    mid: Pipeline<N>,
    second: Seq<Seq<char>>,
    second_rows: Seq<OutputView>,
    end: Pipeline<N>,
)
    requires
        start.runs(first, first_rows, mid),
        mid.runs(second, second_rows, end),
    ensures
        start.runs(first + second, first_rows + second_rows, end),
    decreases second.len(),
{
    if second.len() == 0 {
        assert(first + second =~= first);
        assert(first_rows + second_rows =~= first_rows);
    } else {
        let lines = first + second;
        let rows = first_rows + second_rows;
        let (late, out) = choose|late: Pipeline<N>, out: Option<OutputView>|
            {
                &&& #[trigger] late.steps(second.last(), out, end)
                &&& listed(out).is_suffix_of(second_rows)
                &&& mid.runs(
                    second.drop_last(),
                    second_rows.take(second_rows.len() - listed(out).len()),
                    late,
                )
            };
        let n = listed(out).len();
        let front = second_rows.take(second_rows.len() - n);
        law_runs_compose(start, first, first_rows, mid, second.drop_last(), front, late);
        assert(lines.drop_last() =~= first + second.drop_last());
        assert(lines.last() == second.last());
        assert(late.steps(lines.last(), out, end));
        assert(rows.take(rows.len() - n) =~= first_rows + front);
        assert(rows.subrange(rows.len() - n, rows.len() as int) =~= second_rows.subrange(
            second_rows.len() - n,
            second_rows.len() as int,
        ));
        assert(listed(out).is_suffix_of(rows));
    }
}

/// What runs on many lines has run on the first of them, and then on the others.
pub proof fn law_runs_split<N: Numerics>(
    start: Pipeline<N>,
    first: Seq<Seq<char>>,
    second: Seq<Seq<char>>,
    rows: Seq<OutputView>,
    end: Pipeline<N>,
) -> (parts: (Pipeline<N>, int))
    requires
        start.runs(first + second, rows, end),
    ensures
        0 <= parts.1 <= rows.len(),
        start.runs(first, rows.take(parts.1), parts.0),
        parts.0.runs(second, rows.skip(parts.1), end),
    decreases second.len(),
{
    if second.len() == 0 {
        assert(first + second =~= first);
        assert(rows.take(rows.len() as int) =~= rows);
        (end, rows.len() as int)
    } else {
        let lines = first + second;
        let (late, out) = choose|late: Pipeline<N>, out: Option<OutputView>|
            {
                &&& #[trigger] late.steps(lines.last(), out, end)
                &&& listed(out).is_suffix_of(rows)
                &&& start.runs(
                    lines.drop_last(),
                    rows.take(rows.len() - listed(out).len()),
                    late,
                )
            };
        let n = listed(out).len();
        let front = rows.take(rows.len() - n);
        assert(lines.drop_last() =~= first + second.drop_last());
        assert(lines.last() == second.last());
        let parts = law_runs_split(start, first, second.drop_last(), front, late);
        let rest = rows.skip(parts.1);
        assert(rows.take(parts.1) =~= front.take(parts.1));
        assert(rest.take(rest.len() - n) =~= front.skip(parts.1));
        assert(rest.subrange(rest.len() - n, rest.len() as int) =~= rows.subrange(
            rows.len() - n,
            rows.len() as int,
        ));
        assert(listed(out).is_suffix_of(rest));
        assert(late.steps(second.last(), out, end));
        parts
    }
}

/// Lines that do not pass leave no trace: no row comes out, and the stages that work on all
/// records stay as they are.
pub proof fn law_dropped_lines_leave_no_trace<N: Numerics>(
    start: Pipeline<N>,
    lines: Seq<Seq<char>>,
    rows: Seq<OutputView>,
    end: Pipeline<N>,
)
    requires
        start.runs(lines, rows, end),
        forall|i: int| 0 <= i < lines.len() ==> !start.passes(#[trigger] lines[i]),
    ensures
        rows.len() == 0,
        end.aggregators() == start.aggregators(),
        end.filter() == start.filter(),
        end.stages() == start.stages(),
    decreases lines.len(),
{
    if lines.len() > 0 {
        let (late, out) = choose|late: Pipeline<N>, out: Option<OutputView>|
            {
                &&& #[trigger] late.steps(lines.last(), out, end)
                &&& listed(out).is_suffix_of(rows)
                &&& start.runs(
                    lines.drop_last(),
                    rows.take(rows.len() - listed(out).len()),
                    late,
                )
            };
        let front = lines.drop_last();
        assert forall|i: int| 0 <= i < front.len() implies !start.passes(#[trigger] front[i]) by {
            assert(front[i] == lines[i]);
        }
        law_dropped_lines_leave_no_trace(
            start,
            front,
            rows.take(rows.len() - listed(out).len()),
            late,
        );
        assert(!start.passes(lines[lines.len() - 1]));
        assert(!late.passes(lines.last()));
    }
}

/// A line yields one row at most, and exactly one where it passes.
pub proof fn law_one_row_per_passing_line<N: Numerics>(
    pipeline: Pipeline<N>,
    line: Seq<char>,
    out: Option<OutputView>,
    next: Pipeline<N>,
)
    requires
        pipeline.steps(line, out, next),
    ensures
        out is Some <==> pipeline.passes(line),
{
}

/// Whether these are records of the lines that pass, in order, as they are behind the stages
/// that work on each record by itself.
pub open spec fn passed<N: Numerics>(
    pipeline: Pipeline<N>,
    lines: Seq<Seq<char>>,
    recs: Seq<RecordView>,
) -> bool
    decreases lines.len(),
{
    if lines.len() == 0 {
        recs.len() == 0
    } else if pipeline.passes(lines.last()) {
        &&& recs.len() > 0
        &&& chain(pipeline.stages(), bare(lines.last()), recs.last())
        &&& recs.last().raw == lines.last()
        &&& passed(pipeline, lines.drop_last(), recs.drop_last())
    } else {
        passed(pipeline, lines.drop_last(), recs)
    }
}

/// Without a stage that works on all records, the rows are the records of the lines that pass,
/// in order.
pub proof fn law_records_come_out<N: Numerics>(
    start: Pipeline<N>,
    lines: Seq<Seq<char>>,
    rows: Seq<OutputView>,
    end: Pipeline<N>,
) -> (recs: Seq<RecordView>)
    requires
        start.runs(lines, rows, end),
        start.aggregators().len() == 0,
    ensures
        passed(start, lines, recs),
        rows == Seq::new(recs.len(), |i: int| OutputView::Record(recs[i])),
        end.filter() == start.filter(),
        end.stages() == start.stages(),
        end.aggregators() == start.aggregators(),
    decreases lines.len(),
{
    if lines.len() == 0 {
        assert(rows =~= Seq::empty());
        assert(rows =~= Seq::new(0, |i: int| OutputView::Record(Seq::<RecordView>::empty()[i])));
        Seq::empty()
    } else {
        let (late, out) = choose|late: Pipeline<N>, out: Option<OutputView>|
            {
                &&& #[trigger] late.steps(lines.last(), out, end)
                &&& listed(out).is_suffix_of(rows)
                &&& start.runs(
                    lines.drop_last(),
                    rows.take(rows.len() - listed(out).len()),
                    late,
                )
            };
        let front = rows.take(rows.len() - listed(out).len());
        let before = law_records_come_out(start, lines.drop_last(), front, late);
        let line = lines.last();
        assert(late.passes(line) == start.passes(line));
        assert(end.aggregators() =~= start.aggregators());
        if start.passes(line) {
            let rec = choose|rec: RecordView|
                {
                    &&& #[trigger] chain(late.stages(), bare(line), rec)
                    &&& rec.raw == line
                    &&& late.collects(rec, out, end)
                };
            let recs = before.push(rec);
            assert(recs.drop_last() =~= before);
            assert(rows.last() == listed(out)[0]);
            assert(rows =~= front.push(rows.last()));
            assert(rows =~= Seq::new(recs.len(), |i: int| OutputView::Record(recs[i])));
            recs
        } else {
            assert(front =~= rows);
            before
        }
    }
}

/// A stage that works on all records has taken the records of all lines that pass, in order.
/// Each of these lines yields a row, and the last row is what the stage reports at the end.
pub proof fn law_aggregate_takes_passing_lines<N: Numerics>(
    start: Pipeline<N>,
    lines: Seq<Seq<char>>,
    rows: Seq<OutputView>,
    end: Pipeline<N>,
) -> (recs: Seq<RecordView>)
    requires
        start.runs(lines, rows, end),
        start.aggregators().len() == 1,
    ensures
        passed(start, lines, recs),
        rows.len() == recs.len(),
        end.filter() == start.filter(),
        end.stages() == start.stages(),
        end.aggregators().len() == 1,
        absorbs_all(start.aggregators()[0], recs, end.aggregators()[0]),
        rows.len() > 0 ==> reported(end.aggregators()[0], rows.last()),
    decreases lines.len(),
{
    if lines.len() == 0 {
        Seq::empty()
    } else {
        let (late, out) = choose|late: Pipeline<N>, out: Option<OutputView>|
            {
                &&& #[trigger] late.steps(lines.last(), out, end)
                &&& listed(out).is_suffix_of(rows)
                &&& start.runs(
                    lines.drop_last(),
                    rows.take(rows.len() - listed(out).len()),
                    late,
                )
            };
        let front = rows.take(rows.len() - listed(out).len());
        let before = law_aggregate_takes_passing_lines(start, lines.drop_last(), front, late);
        let line = lines.last();
        assert(late.passes(line) == start.passes(line));
        if start.passes(line) {
            let rec = choose|rec: RecordView|
                {
                    &&& #[trigger] chain(late.stages(), bare(line), rec)
                    &&& rec.raw == line
                    &&& late.collects(rec, out, end)
                };
            let recs = before.push(rec);
            assert(recs.drop_last() =~= before);
            assert(rows.last() == listed(out)[0]);
            assert(late.aggregators()[0].absorbs(recs.last(), end.aggregators()[0]));
            recs
        } else {
            assert(front =~= rows);
            before
        }
    }
}

/// Whether a row may be the report of a stage that works on all records, once it has taken these.
pub open spec fn reports_after<N: Numerics>(
    start: Aggregator<N>,
    recs: Seq<RecordView>,
    row: OutputView,
) -> bool {
    exists|stage: Aggregator<N>| #[trigger]
        reported(stage, row) && absorbs_all(start, recs, stage)
}

/// Every row is the report of the stage that works on all records, over the records of the line
/// that the row is for and of all lines before it that pass.
pub proof fn law_every_row_is_a_report<N: Numerics>(
    start: Pipeline<N>,
    lines: Seq<Seq<char>>,
    rows: Seq<OutputView>,
    end: Pipeline<N>,
) -> (recs: Seq<RecordView>)
    requires
        start.runs(lines, rows, end),
        start.aggregators().len() == 1,
    ensures
        passed(start, lines, recs),
        rows.len() == recs.len(),
        end.filter() == start.filter(),
        end.stages() == start.stages(),
        end.aggregators().len() == 1,
        absorbs_all(start.aggregators()[0], recs, end.aggregators()[0]),
        forall|k: int|
            0 <= k < rows.len() ==> reports_after(
                start.aggregators()[0],
                recs.take(k + 1),
                #[trigger] rows[k],
            ),
    decreases lines.len(),
{
    if lines.len() == 0 {
        Seq::empty()
    } else {
        let (late, out) = choose|late: Pipeline<N>, out: Option<OutputView>|
            {
                &&& #[trigger] late.steps(lines.last(), out, end)
                &&& listed(out).is_suffix_of(rows)
                &&& start.runs(
                    lines.drop_last(),
                    rows.take(rows.len() - listed(out).len()),
                    late,
                )
            };
        let front = rows.take(rows.len() - listed(out).len());
        let before = law_every_row_is_a_report(start, lines.drop_last(), front, late);
        let line = lines.last();
        assert(late.passes(line) == start.passes(line));
        if start.passes(line) {
            let rec = choose|rec: RecordView|
                {
                    &&& #[trigger] chain(late.stages(), bare(line), rec)
                    &&& rec.raw == line
                    &&& late.collects(rec, out, end)
                };
            let recs = before.push(rec);
            let stage = start.aggregators()[0];
            assert(recs.drop_last() =~= before);
            assert(rows.last() == listed(out)[0]);
            assert(late.aggregators()[0].absorbs(recs.last(), end.aggregators()[0]));
            assert(absorbs_all(stage, recs, end.aggregators()[0]));
            assert forall|k: int| 0 <= k < rows.len() implies reports_after(
                stage,
                recs.take(k + 1),
                #[trigger] rows[k],
            ) by {
                if k < front.len() {
                    assert(front[k] == rows[k]);
                    assert(recs.take(k + 1) =~= before.take(k + 1));
                } else {
                    assert(recs.take(k + 1) =~= recs);
                    assert(reported(end.aggregators()[0], rows[k]));
                }
            }
            recs
        } else {
            assert(front =~= rows);
            before
        }
    }
}

/// Whether a row is the report of a stage that works on all records.
pub open spec fn reported<N: Numerics>(stage: Aggregator<N>, row: OutputView) -> bool {
    row matches OutputView::Aggregate(agg) && stage.reports(agg)
}

proof fn lemma_count_stage<N: Numerics>(
    start: Aggregator<N>,
    recs: Seq<RecordView>,
    end: Aggregator<N>,
)
    requires
        start is Count,
        absorbs_all(start, recs, end),
    ensures
        end is Count,
        absorbs_all(start->Count_0, recs, end->Count_0),
    decreases recs.len(),
{
    if recs.len() > 0 {
        let mid = choose|mid: Aggregator<N>|
            #[trigger] mid.absorbs(recs.last(), end) && absorbs_all(start, recs.drop_last(), mid);
        lemma_count_stage(start, recs.drop_last(), mid);
        assert(mid->Count_0.absorbs(recs.last(), end->Count_0));
    }
}

/// Whether a row lists the groups of these records with the number of records in each, the
/// greatest number first.
pub open spec fn counts(
    key_cols: Seq<Seq<char>>,
    recs: Seq<RecordView>,
    row: OutputView,
) -> bool {
    &&& row is Aggregate
    &&& row->Aggregate_0.key_columns == key_cols
    &&& exists|keys: Seq<Key>| #[trigger]
        lists_tallies(key_cols, recs, keys, row->Aggregate_0.data)
    &&& rows_descend(row->Aggregate_0.data)
}

/// A query that counts yields a row for each line that passes, and the last row has the number
/// of the records in each group.
pub proof fn law_count_query<N: Numerics>(
    start: Pipeline<N>,
    lines: Seq<Seq<char>>,
    rows: Seq<OutputView>,
    end: Pipeline<N>,
) -> (recs: Seq<RecordView>)
    requires
        start.runs(lines, rows, end),
        start.aggregators().len() == 1,
        start.aggregators()[0] is Count,
        start.aggregators()[0]->Count_0.groups() == Map::<Key, Count>::empty(),
        start.aggregators()[0]->Count_0.initial()@ == 0,
    ensures
        passed(start, lines, recs),
        rows.len() == recs.len(),
        rows.len() > 0 ==> counts(
            start.aggregators()[0]->Count_0.key_cols(),
            recs,
            rows.last(),
        ),
{
    let recs = law_aggregate_takes_passing_lines(start, lines, rows, end);
    lemma_count_stage(start.aggregators()[0], recs, end.aggregators()[0]);
    if rows.len() > 0 {
        let first = start.aggregators()[0]->Count_0;
        let last = end.aggregators()[0]->Count_0;
        law_counts_are_tallies(first, recs, last, Seq::empty());
        law_count_report(first, recs, last, rows.last()->Aggregate_0);
    }
    recs
}

/// A query is put to work only where the operators that work on all records come last: up to
/// some point there are stages for each record by itself, behind it only the others.
pub proof fn law_aggregates_come_last<N: Numerics>(query: Query, pipeline: Pipeline<N>)
    requires
        Pipeline::<N>::builds(Ok(query), Ok(pipeline)),
    ensures
        pipeline.stages().len() + pipeline.aggregators().len() == query.operators@.len(),
        forall|i: int|
            0 <= i < query.operators@.len() ==> ((#[trigger] query.operators@[i]) is Inline <==> i
                < pipeline.stages().len()),
{
    lemma_stage_counts(query.operators@, pipeline.stages(), pipeline.aggregators());
}

proof fn lemma_stage_counts<N: Numerics>(
    operators: Seq<Operator>,
    stages: Seq<PreAggregate<N>>,
    aggregators: Seq<Aggregator<N>>,
)
    requires
        in_order_to(operators, operators.len() - 1),
        inline_stages(operators, stages),
        aggregate_stages(operators, aggregators),
    ensures
        stages.len() + aggregators.len() == operators.len(),
        forall|i: int|
            0 <= i < operators.len() ==> ((#[trigger] operators[i]) is Inline <==> i
                < stages.len()),
    decreases operators.len(),
{
    if operators.len() > 0 {
        let front = operators.drop_last();
        let last = operators.len() - 1;
        assert forall|i: int| 0 <= i <= front.len() - 1 implies !#[trigger] misplaced(front, i) by {
            assert(!misplaced(operators, i));
            if misplaced(front, i) {
                let k = choose|k: int| 0 <= k < i && (#[trigger] front[k]) is Aggregate;
                assert(operators[k] is Aggregate);
            }
        }
        match operators.last() {
            Operator::Inline(_) => {
                lemma_stage_counts(front, stages.drop_last(), aggregators);
                assert(!misplaced(operators, last));
                if aggregators.len() > 0 {
                    let k = stages.len() - 1;
                    assert(front[k] is Aggregate);
                    assert(operators[k] is Aggregate);
                }
            },
            Operator::Aggregate(_) => {
                lemma_stage_counts(front, stages, aggregators.drop_last());
            },
        }
        assert forall|i: int| 0 <= i < operators.len() implies ((
        #[trigger] operators[i]) is Inline <==> i < stages.len()) by {
            if i < last {
                assert(front[i] == operators[i]);
            }
        }
    }
}

/// A query whose patterns are short is always answered in the same way: it is put to work where
/// the operators that work on all records come last, and refused otherwise.
pub proof fn law_refused_exactly_when_out_of_order<N: Numerics>(
    query: Query,
    res: Result<Pipeline<N>, String>,
)
    requires
        Pipeline::<N>::builds(Ok(query), res),
        forall|i: int|
            0 <= i < query.operators@.len() && (#[trigger] query.operators@[i]) is Inline
                ==> is_short(query.operators@[i]->Inline_0),
    ensures
        res is Ok <==> in_order_to(query.operators@, query.operators@.len() - 1),
        res matches Err(message) ==> message@ == "non aggregate cannot follow aggregate"@,
{
    if let Err(message) = res {
        let j = choose|j: int| #[trigger] refused_at(query.operators@, j, message@);
        if !misplaced(query.operators@, j) {
            let op = query.operators@[j]->Inline_0;
            assert(query.operators@[j] is Inline);
            law_refused_patterns_are_long(op->pattern@);
        }
    }
}

} // verus!
