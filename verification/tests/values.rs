use angle_grinder::data::{Record, Value};
use angle_grinder::float::{check_at_least_one, check_nan, unsigned_rank, Float, INFINITY, ONE};
use angle_grinder::numeral::{read_int, show_int};
use angle_grinder::order::descending;
use angle_grinder::table::Table;
use angle_grinder::text::{chars_of, contains, replace, same_texts, string_of, text_less};

fn float(x: f64) -> Value {
    Value::Float(Float { bits: x.to_bits(), text: x.to_string() })
}

#[test]
fn integers_are_read_as_std_reads_them() {
    for text in [
        "0", "99", "-1", "+7", "-0", "007", "9223372036854775807", "-9223372036854775808",
        "9223372036854775808", "-9223372036854775809", "", "-", "+", "1.5", " 1", "1 ", "--1",
        "99999999999999999999999999999999999999999999999999", "12a", "\u{0661}",
    ] {
        assert_eq!(read_int(text), text.parse::<i64>().ok(), "{:?}", text);
    }
}

#[test]
fn integers_are_shown_as_std_shows_them() {
    for i in [0, 7, 10, -1, -10, 1234567890, i64::MAX, i64::MIN] {
        assert_eq!(show_int(i), i.to_string());
        assert_eq!(read_int(&show_int(i)), Some(i));
    }
}

#[test]
fn doubles_are_compared_by_their_bits() {
    let numbers = [
        f64::NEG_INFINITY, -1e300, -1.0, -f64::MIN_POSITIVE, -0.0, 0.0, 1e-310, 0.5, 1.0, 1.5,
        f64::INFINITY,
    ];
    for a in numbers {
        assert!(!check_nan(a.to_bits()));
        assert_eq!(check_at_least_one(a.to_bits()), a >= 1.0);
        for b in numbers {
            assert_eq!(unsigned_rank(a.to_bits()) < unsigned_rank(b.to_bits()), a < b);
            assert_eq!(float(a) == float(b), a == b);
        }
    }
    assert!(check_nan(f64::NAN.to_bits()));
    assert!(check_nan((-f64::NAN).to_bits()));
    assert!(!check_at_least_one(f64::NAN.to_bits()));
    assert!(float(f64::NAN) != float(f64::NAN));
    assert_eq!(f64::from_bits(ONE), 1.0);
    assert_eq!(f64::from_bits(INFINITY), f64::INFINITY);
}

#[test]
fn values_are_shown() {
    assert_eq!(Value::Str("a b".to_string()).to_string(), "a b");
    assert_eq!(Value::Int(-12).to_string(), "-12");
    assert_eq!(float(2.5).to_string(), "2.5");
    assert_eq!(Value::Null.to_string(), "$None$");
}

#[test]
fn greatest_value_comes_first() {
    let values = vec![
        Value::Int(3),
        Value::Str("b".to_string()),
        float(-1.0),
        Value::Null,
        float(f64::NAN),
        Value::Int(-5),
        Value::Str("abc".to_string()),
        float(7.5),
        Value::Str("ab".to_string()),
        Value::Int(i64::MAX),
        Value::Int(i64::MIN),
    ];
    assert_eq!(descending(&values), vec![4, 3, 7, 2, 9, 0, 5, 10, 1, 6, 8]);
    assert_eq!(descending(&Vec::new()), Vec::<usize>::new());
}

#[test]
fn equal_values_are_all_listed() {
    let values = vec![Value::Int(1), Value::Int(2), Value::Int(1), Value::Int(2)];
    let mut order = descending(&values);
    assert_eq!(order.len(), 4);
    assert_eq!(values[order[0]], Value::Int(2));
    assert_eq!(values[order[1]], Value::Int(2));
    order.sort();
    assert_eq!(order, vec![0, 1, 2, 3]);
}

#[test]
fn texts_are_ordered_as_std_orders_them() {
    let texts = ["", "a", "ab", "abc", "b", "B", "\u{e9}", "\u{10348}", "z", "a\u{0}"];
    for a in texts {
        for b in texts {
            assert_eq!(text_less(a, b), a < b, "{:?} {:?}", a, b);
        }
    }
}

#[test]
fn texts_are_replaced_as_std_replaces_them() {
    for (text, from, to) in [
        ("aXbXc", "X", "--"),
        ("aaaa", "aa", "b"),
        ("aaa", "aa", "b"),
        ("\\*\\*", "\\*", "(.*?)"),
        ("none", "x", "y"),
        ("", "x", "y"),
        ("x", "xx", "y"),
        ("h\u{e9}h", "\u{e9}", ""),
    ] {
        assert_eq!(replace(text, from, to), text.replace(from, to));
    }
}

#[test]
fn characters_make_up_a_text() {
    let chars = chars_of("a\u{e9}\u{10348}");
    assert_eq!(chars, vec!['a', '\u{e9}', '\u{10348}']);
    assert_eq!(string_of(&chars), "a\u{e9}\u{10348}");
    let a = vec!["x".to_string(), "y".to_string()];
    let b = vec!["x".to_string(), "z".to_string()];
    assert!(same_texts(&a, &a));
    assert!(!same_texts(&a, &b));
    assert!(!same_texts(&a, &Vec::new()));
}

#[test]
fn table_holds_one_value_for_each_name() {
    let table = Table::new()
        .insert("a".to_string(), Value::Int(1))
        .insert("b".to_string(), Value::Int(2))
        .insert("a".to_string(), Value::Int(3));
    assert_eq!(table.entries().len(), 2);
    assert_eq!(table.get(&"a".to_string()), Some(&Value::Int(3)));
    assert_eq!(table.get(&"b".to_string()), Some(&Value::Int(2)));
    assert_eq!(table.get(&"c".to_string()), None);
}

#[test]
fn record_and_its_copy_go_their_own_ways() {
    let rec = Record::new("line").put("a", Value::Int(1));
    let copy = rec.clone().put("a", Value::Int(2));
    assert_eq!(rec.field(&"a".to_string()), Some(&Value::Int(1)));
    assert_eq!(copy.field(&"a".to_string()), Some(&Value::Int(2)));
    assert_eq!(copy.raw, "line");
    assert_eq!(rec.field(&"b".to_string()), None);
}

#[test]
fn texts_are_found_as_std_finds_them() {
    let texts = ["", "a", "b", "ab", "aab", "aabaab", "ba", "\u{e9}", "x\u{e9}a", "aa"];
    for hay in texts {
        for needle in texts {
            assert_eq!(contains(hay, needle), hay.contains(needle), "{:?} {:?}", hay, needle);
        }
    }
}
