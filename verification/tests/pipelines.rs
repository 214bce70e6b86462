use angle_grinder::data::{Record, Row, Value};
use angle_grinder::float::{Float, Notation, Numerics};
use angle_grinder::lang::{
    is_convertible, AggregateFunction, AggregateOperator, InlineOperator, Operator, Query, Search,
};
use angle_grinder::pipeline::Pipeline;
use angle_grinder::render::RenderConfig;
use angle_grinder::stage::{Aggregator, PreAggregate};

struct Double;

impl Notation for Double {
    fn read(text: &str) -> Option<Float> {
        let x = text.parse::<f64>().ok()?;
        Some(Float { bits: x.to_bits(), text: x.to_string() })
    }
}

impl Numerics for Double {
    type Sketch = Vec<u64>;

    fn plus(a: u64, b: u64) -> u64 {
        (f64::from_bits(a) + f64::from_bits(b)).to_bits()
    }

    fn over(a: u64, b: u64) -> u64 {
        (f64::from_bits(a) / f64::from_bits(b)).to_bits()
    }

    fn of_int(i: i64) -> u64 {
        (i as f64).to_bits()
    }

    fn to_int(x: u64) -> i64 {
        f64::from_bits(x) as i64
    }

    fn show(x: u64) -> String {
        f64::from_bits(x).to_string()
    }

    fn sketch(_error: u64) -> Vec<u64> {
        Vec::new()
    }

    fn observe(mut sketch: Vec<u64>, x: u64) -> Vec<u64> {
        sketch.push(x);
        sketch
    }

    fn quantile(sketch: &Vec<u64>, _q: u64) -> Option<u64> {
        sketch.last().cloned()
    }
}

fn lines(list: &[&str]) -> Vec<String> {
    list.iter().map(|s| s.to_string()).collect()
}

fn aggregate(function: AggregateFunction, key_cols: &[&str], name: Option<&str>) -> Operator {
    Operator::Aggregate(AggregateOperator {
        key_cols: lines(key_cols),
        aggregate_function: function,
        output_column: name.map(|n| n.to_string()),
    })
}

fn parse(pattern: &str, fields: &[&str]) -> Operator {
    Operator::Inline(InlineOperator::Parse { pattern: pattern.to_string(), fields: lines(fields) })
}

fn build(search: Search, operators: Vec<Operator>) -> Result<Pipeline<Double>, String> {
    Pipeline::new("query", |_| Ok(Query { search, operators }))
}

fn values(row: &Row) -> Vec<Value> {
    match row {
        Row::Aggregate(agg) => agg.data.iter().map(|r| r.1.clone()).collect(),
        Row::Record(rec) => panic!("{:?}", rec),
    }
}

#[test]
fn parser_gets_the_query_with_a_mark_behind_it() {
    let res = Pipeline::<Double>::new("* | count", |text| {
        assert_eq!(text, "* | count!");
        Ok(Query { search: Search::MatchAll, operators: Vec::new() })
    });
    let pipeline = res.ok().unwrap();
    assert_eq!(
        pipeline.render_config(),
        RenderConfig { floating_points: 2, min_buffer: 4, max_buffer: 8 }
    );
}

#[test]
fn complaint_of_the_parser_is_passed_on() {
    let res = Pipeline::<Double>::new("oops", |text| Err(format!("Error at {}", text)));
    assert_eq!(res.err().unwrap(), "Could not parse query: Error at oops!");
}

#[test]
fn inline_operator_behind_an_aggregate_is_refused() {
    let res = build(
        Search::MatchAll,
        vec![
            Operator::Inline(InlineOperator::Json),
            aggregate(AggregateFunction::Count, &[], None),
            Operator::Inline(InlineOperator::Json),
        ],
    );
    assert_eq!(res.err().unwrap(), "non aggregate cannot follow aggregate");
    let res = build(
        Search::MatchAll,
        vec![
            aggregate(AggregateFunction::Count, &[], None),
            parse("* *", &["too few"]),
        ],
    );
    assert_eq!(res.err().unwrap(), "non aggregate cannot follow aggregate");
    let res = build(
        Search::MatchAll,
        vec![
            aggregate(AggregateFunction::Count, &[], None),
            aggregate(AggregateFunction::Count, &[], None),
        ],
    );
    assert!(res.is_ok());
}

#[test]
fn pattern_that_is_too_large_refuses_the_query() {
    let fields: Vec<String> = (0..200_000).map(|i| i.to_string()).collect();
    let pattern = "*".repeat(200_000);
    let res = build(
        Search::MatchAll,
        vec![Operator::Inline(InlineOperator::Parse { pattern, fields })],
    );
    assert_eq!(res.err().unwrap(), "Pattern too large");
}

#[test]
fn operators_become_stages() {
    match Pipeline::<Double>::convert_inline(InlineOperator::Json) {
        Ok(PreAggregate::Json(_)) => {}
        _ => panic!("not the JSON stage"),
    }
    let op = InlineOperator::Parse { pattern: "a*".to_string(), fields: lines(&["x"]) };
    match Pipeline::<Double>::convert_inline(op) {
        Ok(PreAggregate::Parse(_)) => {}
        _ => panic!("not the pattern stage"),
    }
    let op = AggregateOperator {
        key_cols: lines(&["k"]),
        aggregate_function: AggregateFunction::Average { column: "x".to_string() },
        output_column: None,
    };
    match Pipeline::<Double>::convert_agg(op) {
        Aggregator::Average(_) => {}
        _ => panic!("not the average"),
    }
}

#[test]
fn results_have_a_name() {
    let column = "x".to_string();
    for (function, name, expected) in [
        (AggregateFunction::Count, None, "_count"),
        (AggregateFunction::Sum { column: column.clone() }, None, "_sum"),
        (AggregateFunction::Average { column: column.clone() }, None, "_average"),
        (
            AggregateFunction::Percentile {
                column: column.clone(),
                percentile: 0.95f64.to_bits(),
                percentile_str: "95".to_string(),
            },
            None,
            "_p95",
        ),
        (AggregateFunction::Count, Some("total"), "total"),
    ] {
        let mut pipeline =
            build(Search::MatchAll, vec![aggregate(function, &[], name)]).ok().unwrap();
        match pipeline.proc_str("line") {
            Some(Row::Aggregate(agg)) => assert_eq!(agg.agg_column, expected),
            other => panic!("{:?}", other),
        }
    }
}

#[test]
fn without_aggregates_records_come_out() {
    let filter = Search::MatchFilter("GET".to_string());
    let mut pipeline = build(filter, vec![parse("GET *", &["path"])]).ok().unwrap();
    let rows = pipeline.process(&lines(&["GET /a", "POST /b", "xGET /c d", "GET"]));
    assert_eq!(rows.len(), 2);
    let path = "path".to_string();
    match (&rows[0], &rows[1]) {
        (Row::Record(a), Row::Record(b)) => {
            assert_eq!(a.data.get(&path), Some(&Value::Str("/a".to_string())));
            assert_eq!(b.data.get(&path), Some(&Value::Str("/c d".to_string())));
            assert_eq!(b.raw, "xGET /c d");
        }
        other => panic!("{:?}", other),
    }
}

#[test]
fn filter_selects_lines_that_contain_it() {
    let pipeline = build(Search::MatchFilter("b c".to_string()), Vec::new()).ok().unwrap();
    assert!(pipeline.matches(&Record::new("a b c d")));
    assert!(pipeline.matches(&Record::new("b c")));
    assert!(!pipeline.matches(&Record::new("b  c")));
    assert!(!pipeline.matches(&Record::new("")));
    let pipeline = build(Search::MatchFilter(String::new()), Vec::new()).ok().unwrap();
    assert!(pipeline.matches(&Record::new("")));
    let pipeline = build(Search::MatchAll, Vec::new()).ok().unwrap();
    assert!(pipeline.matches(&Record::new("anything")));
}

#[test]
fn every_passing_line_yields_the_results_so_far() {
    let operators = vec![
        Operator::Inline(InlineOperator::Json),
        aggregate(AggregateFunction::Sum { column: "n".to_string() }, &[], None),
    ];
    let mut pipeline = build(Search::MatchAll, operators).ok().unwrap();
    let rows = pipeline.process(&lines(&[
        r#"{"n": 1}"#, "junk", r#"{"n": 2}"#, r#"{"n": 0.5}"#, r#"{"m": 7}"#, r#"{"n": []}"#,
    ]));
    let totals: Vec<Vec<Value>> = rows.iter().map(|row| values(row)).collect();
    assert_eq!(
        totals,
        vec![
            vec![Value::Int(1)],
            vec![Value::Int(3)],
            vec![Value::Int(3)],
            vec![Value::Int(3)],
        ]
    );
}

#[test]
fn lines_may_come_in_pieces() {
    let all = lines(&["a 1", "b 2", "a 3", "c", "b 5"]);
    let operators = || {
        vec![
            parse("* *", &["k", "n"]),
            aggregate(AggregateFunction::Sum { column: "n".to_string() }, &["k"], None),
        ]
    };
    let mut whole = build(Search::MatchAll, operators()).ok().unwrap();
    let mut pieces = build(Search::MatchAll, operators()).ok().unwrap();
    let at_once: Vec<Vec<Value>> = whole.process(&all).iter().map(|row| values(row)).collect();
    let mut bit_by_bit: Vec<Vec<Value>> = Vec::new();
    for line in &all {
        for row in pieces.process(&vec![line.clone()]) {
            bit_by_bit.push(values(&row));
        }
    }
    assert_eq!(at_once, bit_by_bit);
    assert_eq!(at_once.len(), 4);
    assert_eq!(at_once[3], vec![Value::Int(7), Value::Int(4)]);
}

#[test]
fn percentile_stage_reports_what_the_sketch_answers() {
    let function = AggregateFunction::Percentile {
        column: "n".to_string(),
        percentile: 0.5f64.to_bits(),
        percentile_str: "50".to_string(),
    };
    let operators = vec![parse("n=*", &["n"]), aggregate(function, &[], None)];
    let mut pipeline = build(Search::MatchAll, operators).ok().unwrap();
    let rows = pipeline.process(&lines(&["n=abc", "n=4", "n=2.5"]));
    assert_eq!(values(&rows[0]), vec![Value::Null]);
    assert_eq!(values(&rows[1])[0].to_string(), "4");
    assert_eq!(values(&rows[2])[0].to_string(), "2.5");
}

#[test]
fn second_aggregate_can_take_no_report() {
    let operators = || {
        vec![
            Operator::Inline(InlineOperator::Json),
            aggregate(AggregateFunction::Count, &[], None),
            aggregate(AggregateFunction::Count, &[], None),
        ]
    };
    let mut pipeline = build(Search::MatchAll, operators()).ok().unwrap();
    assert!(pipeline.checked_process(&lines(&["junk", "{}"])).is_none());
    assert_eq!(pipeline.checked_process(&lines(&["junk"])).unwrap().len(), 0);
    let mut single =
        build(Search::MatchAll, vec![aggregate(AggregateFunction::Count, &[], None)]).ok().unwrap();
    let rows = single.checked_process(&lines(&["a", "b"])).unwrap();
    assert_eq!(values(&rows[1]), vec![Value::Int(2)]);
}

#[test]
fn prepared_record_has_gone_through_all_stages() {
    let operators = vec![Operator::Inline(InlineOperator::Json), parse("\"a\":*,", &["text"])];
    let pipeline = build(Search::MatchAll, operators).ok().unwrap();
    let rec = pipeline.prepare("{\"a\":1,\"b\":2}").unwrap();
    assert_eq!(rec.data.entries().len(), 3);
    assert_eq!(rec.data.get(&"text".to_string()), Some(&Value::Int(1)));
    assert!(pipeline.prepare("{\"a\":1}").is_none());
    assert!(pipeline.prepare("\"a\":1,").is_none());
}

#[test]
fn counting_query_counts_the_passing_lines_of_each_group() {
    let operators = || {
        vec![
            parse("user=* ", &["user"]),
            aggregate(AggregateFunction::Count, &["user"], None),
        ]
    };
    let filter = || Search::MatchFilter("login".to_string());
    let all = lines(&[
        "user=ann login", "user=bob login", "user=ann logout", "noise", "user=bob login",
        "login without a name",
    ]);
    let some = lines(&["user=ann login", "user=bob login", "user=bob login"]);
    let mut pipeline = build(filter(), operators()).ok().unwrap();
    let rows = pipeline.process(&all);
    assert_eq!(rows.len(), 3);
    match &rows[2] {
        Row::Aggregate(agg) => {
            let user = "user".to_string();
            assert_eq!(agg.key_columns, vec![user.clone()]);
            assert_eq!(agg.data.len(), 2);
            assert_eq!(agg.data[0].0.get(&user), Some(&"bob".to_string()));
            assert_eq!(agg.data[0].1, Value::Int(2));
            assert_eq!(agg.data[1].0.get(&user), Some(&"ann".to_string()));
            assert_eq!(agg.data[1].1, Value::Int(1));
        }
        other => panic!("{:?}", other),
    }
    let mut without_dropped = build(filter(), operators()).ok().unwrap();
    let fewer: Vec<Vec<Value>> =
        without_dropped.process(&some).iter().map(|row| values(row)).collect();
    let same: Vec<Vec<Value>> = rows.iter().map(|row| values(row)).collect();
    assert_eq!(same, fewer);
}

#[test]
fn dropped_lines_leave_no_trace() {
    let operators = vec![
        Operator::Inline(InlineOperator::Json),
        aggregate(AggregateFunction::Count, &[], None),
    ];
    let mut pipeline = build(Search::MatchAll, operators).ok().unwrap();
    assert_eq!(pipeline.process(&lines(&["junk", "[]", ""])).len(), 0);
    let rows = pipeline.process(&lines(&["{}"]));
    assert_eq!(values(&rows[0]), vec![Value::Int(1)]);
}

#[test]
fn convertible_queries_are_told_apart() {
    let convertible = |operators: Vec<Operator>| {
        is_convertible(&Query { search: Search::MatchAll, operators })
    };
    let percentile = |x: f64| {
        let function = AggregateFunction::Percentile {
            column: "x".to_string(),
            percentile: x.to_bits(),
            percentile_str: "p".to_string(),
        };
        aggregate(function, &[], None)
    };
    assert!(convertible(Vec::new()));
    assert!(convertible(vec![Operator::Inline(InlineOperator::Json), parse("*", &["a"])]));
    assert!(!convertible(vec![parse("*", &[])]));
    assert!(!convertible(vec![parse("a", &["a"])]));
    assert!(convertible(vec![percentile(0.99)]));
    assert!(!convertible(vec![percentile(1.0)]));
    assert!(!convertible(vec![percentile(0.5), percentile(2.0)]));
    assert!(convertible(vec![percentile(0.5), parse("*", &[])]));
    assert!(convertible(vec![percentile(0.5), parse("*", &["a"]), percentile(2.0)]));
}
