use std::collections::HashMap;

use angle_grinder::accumulate::{
    Average, Count, Percentile, Sum, EXACT_LIMIT, SKETCH_ERROR,
};
use angle_grinder::data::{Aggregate, Record, Row, Value};
use angle_grinder::extract::{count_stars, regex_text, Parse, SHORT_PATTERN};
use angle_grinder::float::{Float, IntegersOnly, Notation, Numerics};
use angle_grinder::grouper::Grouper;
use angle_grinder::json::{Document, Member, ParseJson};
use angle_grinder::operator::{AggregateFunction, AggregateOperator, UnaryPreAggOperator};
use angle_grinder::table::Table;
use quantiles::ckms::CKMS;

struct Double;

impl Notation for Double {
    fn read(text: &str) -> Option<Float> {
        let x = text.parse::<f64>().ok()?;
        Some(Float { bits: x.to_bits(), text: x.to_string() })
    }
}

impl Numerics for Double {
    type Sketch = CKMS<f64>;

    fn plus(a: u64, b: u64) -> u64 {
        (f64::from_bits(a) + f64::from_bits(b)).to_bits()
    }

    fn over(a: u64, b: u64) -> u64 {
        (f64::from_bits(a) / f64::from_bits(b)).to_bits()
    }

    fn of_int(i: i64) -> u64 {
        (i as f64).to_bits()
    }

    fn to_int(x: u64) -> i64 {
        f64::from_bits(x) as i64
    }

    fn show(x: u64) -> String {
        f64::from_bits(x).to_string()
    }

    fn sketch(error: u64) -> CKMS<f64> {
        CKMS::new(f64::from_bits(error))
    }

    fn observe(mut sketch: CKMS<f64>, x: u64) -> CKMS<f64> {
        sketch.insert(f64::from_bits(x));
        sketch
    }

    fn quantile(sketch: &CKMS<f64>, q: u64) -> Option<u64> {
        sketch.query(f64::from_bits(q)).map(|(_, x)| x.to_bits())
    }
}

fn float(x: f64) -> Value {
    Value::Float(Float { bits: x.to_bits(), text: x.to_string() })
}

fn text(s: &str) -> Value {
    Value::Str(s.to_string())
}

fn fields(rec: &Record) -> HashMap<String, Value> {
    rec.data.entries().iter().cloned().collect()
}

fn columns(table: &Table<String>) -> HashMap<String, String> {
    table.entries().iter().cloned().collect()
}

fn rows(agg: &Aggregate) -> Vec<(HashMap<String, String>, Value)> {
    agg.data.iter().map(|row| (columns(&row.0), row.1.clone())).collect()
}

fn pair(key: &str, value: &str) -> HashMap<String, String> {
    let mut map = HashMap::new();
    map.insert(key.to_string(), value.to_string());
    map
}

fn names(list: &[&str]) -> Vec<String> {
    list.iter().map(|s| s.to_string()).collect()
}

#[test]
fn test_json() {
    let rec = Record::new(r#"{"k1": 5, "k2": 5.5, "k3": "str", "k4": null}"#);
    let parser = ParseJson {};
    let rec = parser.process(&rec).unwrap();
    let mut expected = HashMap::new();
    expected.insert("k1".to_string(), Value::Int(5));
    expected.insert("k2".to_string(), float(5.5));
    expected.insert("k3".to_string(), text("str"));
    expected.insert("k4".to_string(), Value::Null);
    assert_eq!(fields(&rec), expected);
}

#[test]
fn test_parse() {
    let rec = Record::new("17:12:14.214111 IP 10.0.2.243.53938 > taotie.canonical.com.http: Flags [.], ack 56575, win 2375, options [nop,nop,TS val 13651369 ecr 169698010], length 99");
    let parser = Parse::<Double>::new(
        "IP * > *: * length *",
        vec![
            "sender".to_string(),
            "recip".to_string(),
            "ignore".to_string(),
            "length".to_string(),
        ],
    )
    .unwrap();
    let rec = parser.process(&rec).unwrap();
    assert_eq!(
        rec.data.get(&"sender".to_string()).unwrap(),
        &Value::Str("10.0.2.243.53938".to_string())
    );
    assert_eq!(rec.data.get(&"length".to_string()).unwrap(), &Value::Int(99));
    assert_eq!(
        rec.data.get(&"recip".to_string()).unwrap(),
        &Value::Str("taotie.canonical.com.http".to_string())
    )
}

#[test]
fn test_count_no_groups() {
    let mut count_agg = Grouper::<Count>::new(Vec::new(), "_count", Count::new());
    for n in 0..10 {
        count_agg.process(&Row::Record(Record::new(&n.to_string())));
    }
    let agg = count_agg.emit();
    assert_eq!(agg.key_columns.len(), 0);
    assert_eq!(agg.agg_column, "_count");
    assert_eq!(rows(&agg), vec![(HashMap::new(), Value::Int(10))]);
    for n in 0..10 {
        count_agg.process(&Row::Record(Record::new(&n.to_string())));
    }
    assert_eq!(rows(&count_agg.emit()), vec![(HashMap::new(), Value::Int(20))]);
}

#[test]
fn test_count_groups() {
    let mut count_agg = Grouper::<Count>::new(vec!["k1"], "_count", Count::new());
    for n in 0..10 {
        let rec = Record::new(&n.to_string());
        let rec = rec.put("k1", Value::Str("ok".to_string()));
        count_agg.process(&Row::Record(rec));
    }
    for n in 0..25 {
        let rec = Record::new(&n.to_string());
        let rec = rec.put("k1", Value::Str("not ok".to_string()));
        count_agg.process(&Row::Record(rec));
    }
    for n in 0..3 {
        let rec = Record::new(&n.to_string());
        count_agg.process(&Row::Record(rec));
    }
    let agg = count_agg.emit();
    assert_eq!(
        rows(&agg),
        vec![
            (pair("k1", "not ok"), Value::Int(25)),
            (pair("k1", "ok"), Value::Int(10)),
            (pair("k1", "$None$"), Value::Int(3)),
        ]
    );
}

#[test]
fn json_drops_lines_that_are_no_objects_of_simple_members() {
    let parser = ParseJson {};
    for line in [
        "not json",
        "[1, 2]",
        "5",
        "\"text\"",
        "null",
        r#"{"a": 1, "b": [2]}"#,
        r#"{"a": 1, "b": {"c": 2}}"#,
        r#"{"a": 1, "b": true}"#,
        "",
    ] {
        assert!(parser.process(&Record::new(line)).is_none(), "{}", line);
    }
}

#[test]
fn json_keeps_the_line_and_the_other_fields() {
    let line = r#"{"a": -3, "b": 18446744073709551615}"#;
    let rec = Record::new(line).put("a", Value::Int(1)).put("z", text("kept"));
    let rec = ParseJson {}.process(&rec).unwrap();
    assert_eq!(rec.raw, line);
    let found = fields(&rec);
    assert_eq!(found.len(), 3);
    assert_eq!(found["a"], Value::Int(-3));
    assert_eq!(found["b"], float(18446744073709551615.0));
    assert_eq!(found["z"], text("kept"));
}

#[test]
fn json_of_an_empty_object_adds_nothing() {
    let rec = ParseJson {}.process(&Record::new("{}")).unwrap();
    assert_eq!(rec.data.entries().len(), 0);
}

#[test]
fn json_document_is_applied_member_by_member() {
    let rec = Record::new("line");
    let members = vec![
        ("a".to_string(), Member::Number(Some(2), None)),
        ("b".to_string(), Member::Text("t".to_string())),
        ("c".to_string(), Member::Null),
    ];
    let next = ParseJson {}.apply(&rec, Some(Document::Object(members))).unwrap();
    let found = fields(&next);
    assert_eq!(found["a"], Value::Int(2));
    assert_eq!(found["b"], text("t"));
    assert_eq!(found["c"], Value::Null);
    assert!(ParseJson {}.apply(&rec, Some(Document::Other)).is_none());
    assert!(ParseJson {}.apply(&rec, None).is_none());
    let odd = vec![("a".to_string(), Member::Bool(true))];
    assert!(ParseJson {}.apply(&rec, Some(Document::Object(odd))).is_none());
    let nested = vec![("a".to_string(), Member::Array)];
    assert!(ParseJson {}.apply(&rec, Some(Document::Object(nested))).is_none());
    let object = vec![("a".to_string(), Member::Object)];
    assert!(ParseJson {}.apply(&rec, Some(Document::Object(object))).is_none());
}

#[test]
fn pattern_becomes_a_regular_expression() {
    assert_eq!(regex_text("IP * > *: * length *"), "IP (.*?) > (.*?): (.*?) length (.*?)$");
    assert_eq!(regex_text("a.b*c"), "a\\.b(.*?)c");
    assert_eq!(regex_text("\\*"), "\\\\(.*?)$");
    assert_eq!(regex_text("[x] (y)? {z} ^$|+#"), "\\[x\\] \\(y\\)\\? \\{z\\} \\^\\$\\|\\+\\#");
    assert_eq!(regex_text(""), "");
    assert_eq!(count_stars("IP * > *: * length *"), 4);
    assert_eq!(count_stars(""), 0);
}

#[test]
fn pattern_needs_a_field_for_each_star() {
    let res = Parse::<Double>::new("a * b *", names(&["x"]));
    assert_eq!(res.err().unwrap(), "Wrong number of extractions");
    let res = Parse::<Double>::new("a", names(&["x"]));
    assert_eq!(res.err().unwrap(), "Wrong number of extractions");
    assert!(Parse::<Double>::new("a * b *", names(&["x", "y"])).is_ok());
}

#[test]
fn pattern_too_large_is_refused() {
    let pattern = "*".repeat(200_000);
    let fields: Vec<String> = (0..200_000).map(|i| i.to_string()).collect();
    let res = Parse::<Double>::new(&pattern, fields);
    assert_eq!(res.err().unwrap(), "Pattern too large");
}

#[test]
fn refused_regular_expression_is_reported() {
    let refused = regex::Regex::new("(");
    let res = Parse::<Double>::from_compiled("a", Vec::new(), refused);
    assert_eq!(res.err().unwrap(), "Pattern too large");
    let compiled = regex::Regex::new("a");
    assert!(Parse::<Double>::from_compiled("a", Vec::new(), compiled).is_ok());
}

#[test]
fn pattern_is_fitted_as_far_left_and_as_short_as_possible() {
    let parse = Parse::<Double>::new("a*b*c", names(&["x", "y"])).unwrap();
    let rec = parse.process(&Record::new("zzaa1b2b3c4c")).unwrap();
    assert_eq!(rec.data.get(&"x".to_string()), Some(&text("a1")));
    assert_eq!(rec.data.get(&"y".to_string()), Some(&text("2b3")));
}

#[test]
fn last_star_reads_to_the_end() {
    let parse = Parse::<Double>::new("to *", names(&["rest"])).unwrap();
    let rec = parse.process(&Record::new("from here to there to stay")).unwrap();
    assert_eq!(rec.data.get(&"rest".to_string()), Some(&text("there to stay")));
    let parse = Parse::<Double>::new("to * ", names(&["word"])).unwrap();
    let rec = parse.process(&Record::new("from here to there to stay")).unwrap();
    assert_eq!(rec.data.get(&"word".to_string()), Some(&text("there")));
}

#[test]
fn star_does_not_cross_a_line_break() {
    let parse = Parse::<Double>::new("a*b", names(&["x"])).unwrap();
    assert!(parse.process(&Record::new("a\nb")).is_none());
    assert!(parse.process(&Record::new("a b")).is_some());
}

#[test]
fn pattern_without_stars_selects_lines() {
    let parse = Parse::<Double>::new("a.c", Vec::new()).unwrap();
    assert!(parse.process(&Record::new("xa.cx")).is_some());
    assert!(parse.process(&Record::new("xabcx")).is_none());
}

#[test]
fn extracted_texts_are_read_as_values() {
    let parse = Parse::<Double>::new("*,*,*", names(&["a", "b", "c"])).unwrap();
    let rec = parse.process(&Record::new("-7,2.50,x y")).unwrap();
    let found = fields(&rec);
    assert_eq!(found["a"], Value::Int(-7));
    assert_eq!(found["b"], float(2.5));
    assert_eq!(found["b"].to_string(), "2.5");
    assert_eq!(found["c"], text("x y"));
    assert_eq!(rec.raw, "-7,2.50,x y");
}

#[test]
fn later_field_of_the_same_name_wins() {
    let parse = Parse::<Double>::new("*,*", names(&["a", "a"])).unwrap();
    let rec = parse.process(&Record::new("1,2")).unwrap();
    assert_eq!(rec.data.entries().len(), 1);
    assert_eq!(rec.data.get(&"a".to_string()), Some(&Value::Int(2)));
}

#[test]
fn count_counts_every_record() {
    let mut count = Count::new();
    assert_eq!(count.emit(), Value::Int(0));
    count.process(&Record::new("a"));
    count.process(&Record::new("b").put("x", Value::Null));
    assert_eq!(count.emit(), Value::Int(2));
    assert!(count.has_room(1));
}

#[test]
fn sum_adds_numbers_and_skips_the_rest() {
    let mut sum = Sum::<Double>::empty("x".to_string());
    assert_eq!(sum.emit(), Value::Int(0));
    sum.process(&Record::new("a").put("x", Value::Int(3)));
    sum.process(&Record::new("b").put("x", float(1.75)));
    sum.process(&Record::new("c").put("x", text("10")));
    sum.process(&Record::new("d").put("x", Value::Null));
    sum.process(&Record::new("e").put("y", Value::Int(100)));
    sum.process(&Record::new("f").put("x", Value::Int(-1)));
    assert_eq!(sum.emit(), Value::Int(3));
    let copy = sum.clone();
    sum.process(&Record::new("g").put("x", Value::Int(1)));
    assert_eq!(sum.emit(), Value::Int(4));
    assert_eq!(copy.emit(), Value::Int(3));
}

#[test]
fn average_counts_numbers_only() {
    let mut average = Average::<Double>::empty("x".to_string());
    average.process(&Record::new("a").put("x", Value::Int(1)));
    average.process(&Record::new("b").put("x", float(2.5)));
    average.process(&Record::new("c").put("x", text("10")));
    average.process(&Record::new("d"));
    assert_eq!(average.emit(), float(1.75));
    assert_eq!(average.emit().to_string(), "1.75");
}

#[test]
fn average_of_nothing_is_no_number() {
    let average = Average::<Double>::empty("x".to_string());
    match average.emit() {
        Value::Float(f) => assert!(f64::from_bits(f.bits).is_nan()),
        other => panic!("{:?}", other),
    }
}

#[test]
fn percentile_of_a_column() {
    assert_eq!(f64::from_bits(SKETCH_ERROR), 0.001);
    let mut median = Percentile::<Double>::empty("x".to_string(), 0.5f64.to_bits());
    assert_eq!(median.emit(), Value::Null);
    median.process(&Record::new("none"));
    median.process(&Record::new("text").put("x", text("t")));
    assert_eq!(median.emit(), Value::Null);
    let mut expected: CKMS<f64> = CKMS::new(0.001);
    for i in 1..101 {
        median.process(&Record::new("n").put("x", Value::Int(i)));
        expected.insert(i as f64);
    }
    median.process(&Record::new("f").put("x", float(0.5)));
    expected.insert(0.5);
    assert_eq!(median.emit(), float(expected.query(0.5).unwrap().1));
    let copy = median.clone();
    assert_eq!(copy.emit(), median.emit());
}

#[test]
fn groups_are_kept_apart_and_listed_from_the_greatest() {
    let mut sums = Grouper::new(vec!["a", "b"], "total", Sum::<Double>::empty("x".to_string()));
    for (a, b, x) in [(1, 1, 5), (1, 2, 7), (1, 1, 4), (2, 1, -3)] {
        let rec = Record::new("r")
            .put("a", Value::Int(a))
            .put("b", Value::Int(b))
            .put("x", Value::Int(x));
        sums.process(&Row::Record(rec));
    }
    let agg = sums.emit();
    assert_eq!(agg.key_columns, names(&["a", "b"]));
    assert_eq!(agg.agg_column, "total");
    let mut key = pair("a", "1");
    key.insert("b".to_string(), "1".to_string());
    let listed = rows(&agg);
    assert_eq!(listed[0], (key, Value::Int(9)));
    assert_eq!(listed[1].1, Value::Int(7));
    assert_eq!(listed[2].1, Value::Int(-3));
    assert_eq!(listed.len(), 3);
}

#[test]
fn averages_are_listed_with_no_number_first() {
    let mut means = Grouper::new(vec!["k"], "mean", Average::<Double>::empty("x".to_string()));
    for (k, x) in [("low", -2.5), ("zero", 0.0), ("high", 3.5)] {
        let rec = Record::new("r").put("k", text(k)).put("x", float(x));
        means.process(&Row::Record(rec));
    }
    means.process(&Row::Record(Record::new("r").put("k", text("nothing"))));
    let listed: Vec<String> = rows(&means.emit()).iter().map(|row| row.0["k"].clone()).collect();
    assert_eq!(listed, names(&["nothing", "high", "zero", "low"]));
}

#[test]
fn missing_null_and_its_text_share_a_group() {
    let mut counts = Grouper::new(vec!["k"], "n", Count::new());
    counts.process(&Row::Record(Record::new("a")));
    counts.process(&Row::Record(Record::new("b").put("k", Value::Null)));
    counts.process(&Row::Record(Record::new("c").put("k", text("$None$"))));
    assert_eq!(rows(&counts.emit()), vec![(pair("k", "$None$"), Value::Int(3))]);
}

#[test]
fn integer_and_text_of_the_same_look_share_a_group() {
    let mut counts = Grouper::new(vec!["k"], "n", Count::new());
    counts.process(&Row::Record(Record::new("a").put("k", Value::Int(5))));
    counts.process(&Row::Record(Record::new("b").put("k", text("5"))));
    counts.process(&Row::Record(Record::new("c").put("k", float(5.0))));
    assert_eq!(rows(&counts.emit()), vec![(pair("k", "5"), Value::Int(3))]);
}

#[test]
fn column_that_occurs_twice_is_listed_once() {
    let mut counts = Grouper::new(vec!["k", "k"], "n", Count::new());
    counts.process(&Row::Record(Record::new("a").put("k", Value::Int(5))));
    let agg = counts.emit();
    assert_eq!(agg.key_columns.len(), 2);
    assert_eq!(rows(&agg), vec![(pair("k", "5"), Value::Int(1))]);
}

#[test]
fn no_records_no_rows() {
    let counts = Grouper::new(vec!["k"], "n", Count::new());
    assert_eq!(counts.emit().data.len(), 0);
    assert!(counts.has_room(usize::MAX >> 1));
    assert!(!counts.has_room(usize::MAX));
}

#[test]
fn shown_integer_is_read_back() {
    for i in [0, -7, 42, i64::MAX, i64::MIN] {
        let value = Value::Int(i);
        assert_eq!(Value::from_string::<Double>(&value.to_string()), value);
    }
    assert_eq!(Value::from_string::<Double>("1e3"), float(1000.0));
    assert_eq!(Value::from_string::<Double>("ten"), text("ten"));
    assert_eq!(Value::from_bits::<Double>(0.5f64.to_bits()).to_string(), "0.5");
}

#[test]
fn same_texts_are_cut_out_each_time() {
    let parse = Parse::<Double>::new("*a*", names(&["x", "y"])).unwrap();
    let rec = Record::new("banana");
    let first = fields(&parse.process(&rec).unwrap());
    assert_eq!(first["x"], text("b"));
    assert_eq!(first["y"], text("nana"));
    assert_eq!(fields(&parse.process(&rec).unwrap()), first);
}

#[test]
fn break_before_the_match_does_not_hide_it() {
    let parse = Parse::<Double>::new("b*aba", names(&["x"])).unwrap();
    let rec = parse.process(&Record::new("z\nababa")).unwrap();
    assert_eq!(rec.data.get(&"x".to_string()), Some(&text("")));
}

#[test]
fn leftmost_match_is_taken_behind_a_break() {
    let parse = Parse::<Double>::new("x*y*abc", names(&["x", "y"])).unwrap();
    let rec = parse.process(&Record::new("z\nxabc 2 x3y4abc")).unwrap();
    assert_eq!(rec.data.get(&"x".to_string()), Some(&text("abc 2 x3")));
    assert_eq!(rec.data.get(&"y".to_string()), Some(&Value::Int(4)));
}

#[test]
fn long_text_behind_the_last_star_is_found() {
    let tail = "a".repeat(300);
    let parse = Parse::<Double>::new(&format!("b*{}", tail), names(&["x"])).unwrap();
    let rec = parse.process(&Record::new(&format!("bq{}", tail))).unwrap();
    assert_eq!(rec.data.get(&"x".to_string()), Some(&text("q")));
    assert!(parse.process(&Record::new(&format!("bq{}", "a".repeat(299)))).is_none());
}

#[test]
fn last_star_needs_the_last_line() {
    let parse = Parse::<Double>::new("a*", names(&["x"])).unwrap();
    let rec = parse.process(&Record::new("a1\na2")).unwrap();
    assert_eq!(rec.data.get(&"x".to_string()), Some(&Value::Int(2)));
    assert!(parse.process(&Record::new("a1\nb2")).is_none());
    let parse = Parse::<Double>::new("*", names(&["x"])).unwrap();
    let rec = parse.process(&Record::new("\u{e9}\n")).unwrap();
    assert_eq!(rec.data.get(&"x".to_string()), Some(&text("")));
}

#[test]
fn characters_of_several_bytes_are_matched_whole() {
    let parse = Parse::<Double>::new("\u{e9}*\u{1f600}*", names(&["x", "y"])).unwrap();
    let rec = parse.process(&Record::new("a\u{e9}\u{10348}\u{1f600}\u{e8}")).unwrap();
    assert_eq!(rec.data.get(&"x".to_string()), Some(&text("\u{10348}")));
    assert_eq!(rec.data.get(&"y".to_string()), Some(&text("\u{e8}")));
    assert!(parse.process(&Record::new("\u{e8}\u{1f600}")).is_none());
}

#[test]
fn short_patterns_are_never_refused() {
    for pattern in ["*", "\u{10348}", "*.", "\\"] {
        let times = SHORT_PATTERN / pattern.chars().count();
        let long = pattern.repeat(times);
        let fields: Vec<String> = (0..count_stars(&long)).map(|i| i.to_string()).collect();
        assert!(Parse::<Double>::new(&long, fields).is_ok());
    }
}

#[test]
fn second_pass_changes_nothing() {
    let parse = Parse::<Double>::new("*=*;*", names(&["k", "v", "k"])).unwrap();
    let rec = Record::new("a=1.5;b").put("z", Value::Int(1));
    let once = parse.process(&rec).unwrap();
    let twice = parse.process(&once).unwrap();
    assert_eq!(fields(&once), fields(&twice));
    assert_eq!(fields(&once).len(), 3);
    assert_eq!(fields(&once)["k"], text("b"));
    assert_eq!(twice.raw, rec.raw);
}

#[test]
fn integer_sums_are_exact_in_any_order() {
    let half = EXACT_LIMIT / 2;
    for terms in [[half, -half + 1, 1], [1, half, -half + 1], [-half + 1, 1, half]] {
        let mut sum = Sum::<Double>::empty("x".to_string());
        for i in terms {
            sum.process(&Record::new("r").put("x", Value::Int(i)));
            sum.process(&Record::new("other").put("y", Value::Int(5)));
        }
        assert_eq!(sum.emit(), Value::Int(2));
    }
}

#[test]
fn percentile_is_one_of_the_numbers() {
    let numbers = [3, -8, 15, 15, 99, 0, 7];
    for q in [0.0f64, 0.1, 0.5, 0.9, 0.999] {
        let mut percentile = Percentile::<Double>::empty("x".to_string(), q.to_bits());
        for i in numbers {
            percentile.process(&Record::new("r").put("x", Value::Int(i)));
        }
        let answer = percentile.emit();
        assert!(numbers.iter().any(|i| answer == float(*i as f64)), "{:?}", answer);
    }
}

#[test]
fn counts_sum_up_to_all_records_in_any_order() {
    let mut keys = vec![1, 2, 2, 3, 1, 2, 9];
    let mut reports = Vec::new();
    for _ in 0..2 {
        let mut counts = Grouper::new(vec!["k"], "n", Count::new());
        for k in &keys {
            counts.process(&Row::Record(Record::new("r").put("k", Value::Int(*k))));
        }
        let listed = rows(&counts.emit());
        let total: i64 = listed
            .iter()
            .map(|row| match row.1 {
                Value::Int(n) => n,
                _ => panic!("{:?}", row),
            })
            .sum();
        assert_eq!(total, 7);
        let values: Vec<Value> = listed.iter().map(|row| row.1.clone()).collect();
        reports.push(values);
        keys.reverse();
    }
    assert_eq!(reports[0], reports[1]);
}

#[test]
fn group_holds_what_its_own_records_make() {
    let mut sums = Grouper::new(vec!["k"], "s", Sum::<Double>::empty("x".to_string()));
    let mut alone = Sum::<Double>::empty("x".to_string());
    for (k, x) in [("a", 4), ("b", 1), ("a", -9), ("b", 2), ("a", 100)] {
        let rec = Record::new("r").put("k", text(k)).put("x", Value::Int(x));
        if k == "a" {
            alone.process(&rec);
        }
        sums.process(&Row::Record(rec));
    }
    let listed = rows(&sums.emit());
    assert_eq!(listed[0], (pair("k", "a"), alone.emit()));
    assert_eq!(listed[1], (pair("k", "b"), Value::Int(3)));
}

#[test]
fn second_reading_of_json_changes_nothing() {
    let rec = Record::new("{\"a\": 1.25, \"b\": \"x\", \"c\": null}").put("a", Value::Int(1));
    let once = ParseJson {}.process(&rec).unwrap();
    let twice = ParseJson {}.process(&once).unwrap();
    assert_eq!(fields(&once), fields(&twice));
    assert_eq!(fields(&twice)["a"], float(1.25));
    assert_eq!(twice.raw, rec.raw);
}

#[test]
fn notation_without_doubles_reads_texts() {
    assert_eq!(Value::from_string::<IntegersOnly>("-3"), Value::Int(-3));
    assert_eq!(Value::from_string::<IntegersOnly>("1.5"), text("1.5"));
    let parse = Parse::<IntegersOnly>::new("*/*", names(&["a", "b"])).unwrap();
    let found = fields(&parse.process(&Record::new("7/0.5")).unwrap());
    assert_eq!(found["a"], Value::Int(7));
    assert_eq!(found["b"], text("0.5"));
}

#[test]
fn json_double_is_shown_like_any_other() {
    let rec = ParseJson {}.process(&Record::new("{\"a\": 1e3}")).unwrap();
    let value = rec.data.get(&"a".to_string()).unwrap();
    assert_eq!(value.to_string(), Value::from_bits::<Double>(1000f64.to_bits()).to_string());
    assert_eq!(value, &float(1000.0));
}
