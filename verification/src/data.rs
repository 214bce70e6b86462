//! Values, records and the rows that a pipeline gives out.
use vstd::prelude::*;

use crate::float::Float;
use crate::float::FloatView;
use crate::float::Notation;
use crate::float::Numerics;
use crate::numeral::decimal;
use crate::numeral::int_value;
use crate::numeral::law_numeral_read_back;
use crate::numeral::read_int;
use crate::numeral::show_int;
use crate::table::Table;
use crate::table::entries_map;
use crate::table::names_distinct;
use crate::table::named;
use crate::text::views;

verus! {

broadcast use vstd::string::group_string_axioms;

/// The value of one field.
#[derive(Debug, PartialEq)]
pub enum Value {
    /// A text.
    Str(String),
    /// An integer.
    Int(i64),
    /// A double.
    Float(Float),
    /// No value.
    Null,
}

/// What a [`Value`] holds.
pub enum ValueView {
    Str(Seq<char>),
    Int(i64),
    Float(FloatView),
    Null,
}

impl View for Value {
    type V = ValueView;

    open spec fn view(&self) -> ValueView {
        match self {
            Value::Str(s) => ValueView::Str(s@),
            Value::Int(i) => ValueView::Int(*i),
            Value::Float(f) => ValueView::Float(f@),
            Value::Null => ValueView::Null,
        }
    }
}

impl Clone for Value {
    fn clone(&self) -> (copy: Value)
        ensures
            copy@ == self@,
    {
        match self {
            Value::Str(s) => Value::Str(s.clone()),
            Value::Int(i) => Value::Int(*i),
            Value::Float(f) => Value::Float(f.clone()),
            Value::Null => Value::Null,
        }
    }
}

/// What stands for a value that is not there.
pub open spec fn none_text() -> Seq<char> {
    "$None$"@
}

/// The text that a value is shown as.
pub open spec fn shown(value: ValueView) -> Seq<char> {
    match value {
        ValueView::Str(s) => s,
        ValueView::Int(i) => decimal(i as int),
        ValueView::Float(f) => f.text,
        ValueView::Null => none_text(),
    }
}

/// The value that a text stands for: an integer where the text is the numeral of one, else the
/// double that it denotes, else the text itself.
pub open spec fn value_of<N: Notation>(text: Seq<char>) -> ValueView {
    match int_value(text) {
        Some(i) => ValueView::Int(i),
        None => match N::double_in(text) {
            Some(f) => ValueView::Float(f),
            None => ValueView::Str(text),
        },
    }
}

/// The values that these texts stand for.
pub open spec fn values_of<N: Notation>(texts: Seq<Seq<char>>) -> Seq<ValueView> {
    Seq::new(texts.len(), |i: int| value_of::<N>(texts[i]))
}

/// Whether `value` is the double with these bits and the text that `N` shows it as.
pub open spec fn is_float<N: Numerics>(bits: u64, value: ValueView) -> bool {
    exists|t: String|
        #[trigger] call_ensures(N::show, (bits,), t) && value == ValueView::Float(
            FloatView { bits, text: t@ },
        )
}

impl Value {
    /// The value that a text stands for.
    pub fn from_string<N: Notation>(text: &str) -> (value: Value)
        ensures
            value@ == value_of::<N>(text@),
    {
        match read_int(text) {
            Some(i) => Value::Int(i),
            None => {
                match N::read(text) {
                    Some(double) => Value::Float(double),
                    None => Value::Str(text.to_string()),
                }
            },
        }
    }

    /// The value that is a double.
    pub fn from_bits<N: Numerics>(bits: u64) -> (value: Value)
        ensures
            is_float::<N>(bits, value@),
    {
        Value::Float(Float { bits, text: N::show(bits) })
    }

    /// The text that the value is shown as.
    pub fn to_string(&self) -> (text: String)
        ensures
            text@ == shown(self@),
    {
        match self {
            Value::Str(s) => s.clone(),
            Value::Int(i) => show_int(*i),
            Value::Float(f) => f.text.clone(),
            Value::Null => "$None$".to_string(),
        }
    }
}

/// One line of input with the fields that were found in it.
#[derive(Debug)]
pub struct Record {
    /// The fields by their names.
    pub data: Table<Value>,
    /// The line.
    pub raw: String,
}

/// What a [`Record`] holds.
#[verifier::ext_equal]
pub struct RecordView {
    pub data: Map<Seq<char>, ValueView>,
    pub raw: Seq<char>,
}

impl View for Record {
    type V = RecordView;

    open spec fn view(&self) -> RecordView {
        RecordView { data: self.data@, raw: self.raw@ }
    }
}

impl RecordView {
    /// The value of a field, where the record has it.
    pub open spec fn field(self, name: Seq<char>) -> Option<ValueView> {
        if self.data.contains_key(name) {
            Some(self.data[name])
        } else {
            None
        }
    }

    /// The record with `value` in the field `name`.
    pub open spec fn with(self, name: Seq<char>, value: ValueView) -> RecordView {
        RecordView { data: self.data.insert(name, value), raw: self.raw }
    }
}

impl Record {
    /// A line in which no field was found yet.
    pub fn new(raw: &str) -> (rec: Record)
        ensures
            rec@ == (RecordView { data: Map::empty(), raw: raw@ }),
    {
        Record { data: Table::new(), raw: raw.to_string() }
    }

    /// The record with `value` in the field `name`, in place of what was there.
    pub fn put(self, name: &str, value: Value) -> (rec: Record)
        ensures
            rec@ == self@.with(name@, value@),
    {
        Record { data: self.data.insert(name.to_string(), value), raw: self.raw }
    }

    /// The value of a field.
    pub fn field(&self, name: &String) -> (value: Option<&Value>)
        ensures
            match value {
                Some(v) => self@.field(name@) == Some(v@),
                None => self@.field(name@) is None,
            },
    {
        self.data.get(name)
    }
}

impl Clone for Record {
    fn clone(&self) -> (copy: Record)
        ensures
            copy@ == self@,
    {
        let entries = self.data.entries();
        let mut data: Table<Value> = Table::new();
        let mut i: usize = 0;
        while i < entries.len()
            invariant
                i <= entries.len(),
                names_distinct(entries@),
                forall|name: Seq<char>| #[trigger]
                    data@.contains_key(name) ==> exists|j: int| j < i && named(entries@, j, name),
                forall|j: int|
                    0 <= j < i ==> data@.contains_key(#[trigger] entries@[j].0@)
                        && data@[entries@[j].0@] == entries@[j].1@,
            decreases entries.len() - i,
        {
            let ghost before = data@;
            let name = entries[i].0.clone();
            data = data.insert(name, entries[i].1.clone());
            assert forall|n: Seq<char>| #[trigger] data@.contains_key(n) implies exists|j: int|
                j < i + 1 && named(entries@, j, n) by {
                if n == name@ {
                    assert(named(entries@, i as int, n));
                } else {
                    assert(before.contains_key(n));
                }
            }
            i = i + 1;
        }
        assert(data@ =~= self.data@) by {
            let map = entries_map(entries@);
            assert forall|n: Seq<char>| #[trigger] data@.contains_key(n) == map.contains_key(n) by {
                if map.contains_key(n) {
                    let j = choose|j: int| named(entries@, j, n);
                    assert(data@.contains_key(entries@[j].0@));
                }
            }
            assert forall|n: Seq<char>| data@.contains_key(n) implies #[trigger] data@[n]
                == map[n] by {
                assert(map.contains_key(n));
                let j = choose|j: int| named(entries@, j, n);
                assert(data@[entries@[j].0@] == entries@[j].1@);
            }
        }
        Record { data, raw: self.raw.clone() }
    }
}

/// The results of an aggregate: one row for each group, the group's key columns and the value
/// of the aggregate in it.
#[derive(Debug)]
pub struct Aggregate {
    /// The columns by which the records are grouped.
    pub key_columns: Vec<String>,
    /// The name of the column that holds the results.
    pub agg_column: String,
    /// The rows.
    pub data: Vec<(Table<String>, Value)>,
}

/// One row of an aggregate.
pub type RowView = (Map<Seq<char>, Seq<char>>, ValueView);

/// What an [`Aggregate`] holds.
#[verifier::ext_equal]
pub struct AggregateView {
    pub key_columns: Seq<Seq<char>>,
    pub agg_column: Seq<char>,
    pub data: Seq<RowView>,
}

/// What the rows of an aggregate hold.
pub open spec fn rows_view(rows: Seq<(Table<String>, Value)>) -> Seq<RowView> {
    Seq::new(rows.len(), |i: int| (rows[i].0@, rows[i].1@))
}

impl View for Aggregate {
    type V = AggregateView;

    open spec fn view(&self) -> AggregateView {
        AggregateView {
            key_columns: views(self.key_columns@),
            agg_column: self.agg_column@,
            data: rows_view(self.data@),
        }
    }
}

impl Aggregate {
    /// An aggregate of these columns and rows.
    pub fn new(
        key_columns: Vec<String>,
        agg_column: String,
        data: Vec<(Table<String>, Value)>,
    ) -> (agg: Aggregate)
        ensures
            agg@ == (AggregateView {
                key_columns: views(key_columns@),
                agg_column: agg_column@,
                data: rows_view(data@),
            }),
    {
        Aggregate { key_columns, agg_column, data }
    }
}

/// What a pipeline gives out for one line.
#[derive(Debug)]
pub enum Row {
    /// The results of the last aggregate.
    Aggregate(Aggregate),
    /// The record itself, where there is no aggregate.
    Record(Record),
}

/// What a [`Row`] holds.
pub enum OutputView {
    Aggregate(AggregateView),
    Record(RecordView),
}

impl View for Row {
    type V = OutputView;

    open spec fn view(&self) -> OutputView {
        match self {
            Row::Aggregate(agg) => OutputView::Aggregate(agg@),
            Row::Record(rec) => OutputView::Record(rec@),
        }
    }
}

/// The record with these values in the fields of these names, put in one after the other.
pub open spec fn with_fields(
    rec: RecordView,
    names: Seq<Seq<char>>,
    values: Seq<ValueView>,
) -> RecordView
    decreases names.len(),
{
    if names.len() == 0 || values.len() == 0 {
        rec
    } else {
        with_fields(rec, names.drop_last(), values.drop_last()).with(names.last(), values.last())
    }
}

/// Whether `i` is the last place at which a name occurs.
pub open spec fn last_place(names: Seq<Seq<char>>, i: int, name: Seq<char>) -> bool {
    &&& 0 <= i < names.len()
    &&& names[i] == name
    &&& forall|j: int| i < j < names.len() ==> #[trigger] names[j] != name
}

/// What is put into fields is found again: under each of the names the value that came last
/// for it. The other fields stay as they were, the record has no fields but these, and the
/// line stays as it is.
pub proof fn law_values_become_fields(
    rec: RecordView,
    names: Seq<Seq<char>>,
    values: Seq<ValueView>,
    name: Seq<char>,
)
    requires
        names.len() == values.len(),
    ensures
        forall|i: int| #[trigger]
            last_place(names, i, name) ==> with_fields(rec, names, values).field(name) == Some(
                values[i],
            ),
        names.contains(name) ==> exists|i: int| #[trigger] last_place(names, i, name),
        !names.contains(name) ==> with_fields(rec, names, values).field(name) == rec.field(name),
        with_fields(rec, names, values).data.contains_key(name) <==> rec.data.contains_key(name)
            || names.contains(name),
        with_fields(rec, names, values).raw == rec.raw,
    decreases names.len(),
{
    if names.len() > 0 {
        let n = names.len() - 1;
        let front = names.drop_last();
        law_values_become_fields(rec, front, values.drop_last(), name);
        assert(names.last() == names[n]);
        if names.last() == name {
            assert(last_place(names, n, name));
            assert forall|i: int| #[trigger] last_place(names, i, name) implies i == n by {}
        } else {
            assert forall|i: int| last_place(front, i, name) <==> #[trigger] last_place(
                names,
                i,
                name,
            ) by {
                if last_place(front, i, name) {
                    assert forall|j: int| i < j < names.len() implies #[trigger] names[j]
                        != name by {
                        assert(j < n ==> front[j] == names[j]);
                    }
                }
                if last_place(names, i, name) {
                    assert forall|j: int| i < j < front.len() implies #[trigger] front[j]
                        != name by {
                        assert(front[j] == names[j]);
                    }
                }
            }
            if names.contains(name) {
                let k = choose|k: int| 0 <= k < names.len() && names[k] == name;
                assert(front[k] == name);
                let i = choose|i: int| #[trigger] last_place(front, i, name);
                assert(last_place(names, i, name));
            }
            if front.contains(name) {
                let k = choose|k: int| 0 <= k < front.len() && front[k] == name;
                assert(names[k] == name);
            }
        }
    }
}

/// To put the same values into the same fields again changes nothing.
pub proof fn law_fields_put_twice(
    rec: RecordView,
    names: Seq<Seq<char>>,
    values: Seq<ValueView>,
)
    requires
        names.len() == values.len(),
    ensures
        with_fields(with_fields(rec, names, values), names, values) == with_fields(
            rec,
            names,
            values,
        ),
{
    let once = with_fields(rec, names, values);
    let twice = with_fields(once, names, values);
    assert forall|name: Seq<char>| #[trigger] twice.data.contains_key(name)
        == once.data.contains_key(name) && (once.data.contains_key(name) ==> twice.data[name]
        == once.data[name]) by {
        law_values_become_fields(rec, names, values, name);
        law_values_become_fields(once, names, values, name);
        if names.contains(name) {
            let i = choose|i: int| #[trigger] last_place(names, i, name);
            assert(once.field(name) == Some(values[i]));
            assert(twice.field(name) == Some(values[i]));
        } else {
            assert(twice.field(name) == once.field(name));
        }
    }
    law_values_become_fields(rec, names, values, Seq::empty());
    law_values_become_fields(once, names, values, Seq::empty());
    assert(twice.data =~= once.data);
}

/// An integer that is shown as a text is that integer again when the text is read.
pub proof fn law_shown_integer_read_back<N: Notation>(i: i64)
    ensures
        value_of::<N>(shown(ValueView::Int(i))) == ValueView::Int(i),
{
    law_numeral_read_back(i);
}

/// A text stands for the integer that it is the numeral of, else for the double that it denotes,
/// else for itself, character by character.
pub proof fn law_what_a_text_stands_for<N: Notation>(text: Seq<char>)
    ensures
        int_value(text) matches Some(i) ==> value_of::<N>(text) == ValueView::Int(i),
        int_value(text) is None && N::double_in(text) is Some ==> value_of::<N>(text)
            == ValueView::Float(N::double_in(text)->0),
        int_value(text) is None && N::double_in(text) is None ==> value_of::<N>(text)
            == ValueView::Str(text) && shown(value_of::<N>(text)) == text,
{
}

/// A text is shown as it is, an integer as a numeral of it, a double as the text it has, and a
/// missing value as `$None$`.
pub proof fn law_what_a_value_is_shown_as(value: ValueView)
    ensures
        value matches ValueView::Str(s) ==> shown(value) == s,
        value matches ValueView::Int(i) ==> int_value(shown(value)) == Some(i) && shown(value)
            == decimal(i as int),
        value matches ValueView::Float(f) ==> shown(value) == f.text,
        value is Null ==> shown(value) == "$None$"@,
{
    if let ValueView::Int(i) = value {
        law_numeral_read_back(i);
    }
}

/// A value holds what it is made of.
pub proof fn law_value_holds(value: Value)
    ensures
        value matches Value::Str(s) ==> value@ == ValueView::Str(s@),
        value matches Value::Int(i) ==> value@ == ValueView::Int(i),
        value matches Value::Float(f) ==> value@ == ValueView::Float(
            FloatView { bits: f.bits, text: f.text@ },
        ),
        value is Null ==> value@ == ValueView::Null,
{
}

/// A record holds its line and its fields, a report its columns and its rows.
pub proof fn law_rows_hold(rec: Record, agg: Aggregate)
    ensures
        rec@.raw == rec.raw@,
        rec@.data == rec.data@,
        Row::Record(rec)@ == OutputView::Record(rec@),
        Row::Aggregate(agg)@ == OutputView::Aggregate(agg@),
        agg@.key_columns.len() == agg.key_columns@.len(),
        forall|i: int|
            0 <= i < agg.key_columns@.len() ==> #[trigger] agg@.key_columns[i]
                == agg.key_columns@[i]@,
        agg@.agg_column == agg.agg_column@,
        agg@.data.len() == agg.data@.len(),
        forall|i: int|
            0 <= i < agg.data@.len() ==> #[trigger] agg@.data[i] == (
                agg.data@[i].0@,
                agg.data@[i].1@,
            ),
{
}

/// A value that is put into a field is found there, and no other field and not the line change.
pub proof fn law_put_then_field(
    rec: RecordView,
    name: Seq<char>,
    value: ValueView,
    other: Seq<char>,
)
    ensures
        rec.field(other) == (if rec.data.contains_key(other) {
            Some(rec.data[other])
        } else {
            None
        }),
        rec.with(name, value).field(name) == Some(value),
        other != name ==> rec.with(name, value).field(other) == rec.field(other),
        rec.with(name, value).raw == rec.raw,
{
}

} // verus!
