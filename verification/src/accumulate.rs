//! The aggregate functions: count, sum, average and percentile.
use std::marker::PhantomData;
use vstd::prelude::*;

use crate::data::Record;
use crate::data::RecordView;
use crate::data::Value;
use crate::data::ValueView;
use crate::data::is_float;
use crate::float::Numerics;
use crate::float::at_least_one;
use crate::float::is_nan;
use crate::operator::AggregateFunction;
use crate::operator::advances_all;
use crate::text::copies;
use crate::text::views;

verus! {

broadcast use vstd::string::group_string_axioms;

/// The bits of 0.001, the bound on the error of a percentile.
pub const SKETCH_ERROR: u64 = 0x3F50_624D_D2F1_A9FC;

/// The number of records.
#[derive(Debug)]
pub struct Count {
    count: i64,
}

impl View for Count {
    type V = i64;

    closed spec fn view(&self) -> i64 {
        self.count
    }
}

impl Clone for Count {
    fn clone(&self) -> (copy: Count)
        ensures
            copy@ == self@,
    {
        Count { count: self.count }
    }
}

impl Count {
    /// The count of no records.
    pub fn new() -> (count: Count)
        ensures
            count@ == 0,
    {
        Count { count: 0 }
    }
}

impl AggregateFunction for Count {
    open spec fn can_take(&self, n: nat) -> bool {
        self@ + n <= i64::MAX
    }

    open spec fn advances(self, rec: RecordView, next: Count) -> bool {
        next@ == self@ + 1
    }

    open spec fn yields(self, value: ValueView) -> bool {
        value == ValueView::Int(self@)
    }

    proof fn lemma_less_room(self, n: nat) {
    }

    proof fn lemma_advance_room(self, rec: RecordView, next: Count, n: nat) {
    }

    proof fn lemma_clone_room(self, copy: Count, n: nat) {
    }

    fn has_room(&self, n: usize) -> (room: bool) {
        self.count as i128 + n as i128 <= i64::MAX as i128
    }

    fn process(&mut self, _rec: &Record) {
        self.count = self.count + 1;
    }

    fn emit(&self) -> (value: Value) {
        Value::Int(self.count)
    }
}

/// Whether `after` may be the total `before` with a double added.
pub open spec fn adds<N: Numerics>(before: u64, term: u64, after: u64) -> bool {
    call_ensures(N::plus, (before, term), after)
}

/// Whether `after` may be the total `before` with the double of an integer added.
pub open spec fn adds_int<N: Numerics>(before: u64, i: i64, after: u64) -> bool {
    exists|term: u64| #[trigger]
        call_ensures(N::of_int, (i,), term) && adds::<N>(before, term, after)
}

fn add_int<N: Numerics>(before: u64, i: i64) -> (after: u64)
    ensures
        adds_int::<N>(before, i, after),
{
    let term: u64 = N::of_int(i);
    N::plus(before, term)
}

/// The sum of a column.
pub struct Sum<N: Numerics> {
    total: u64,
    column: String,
    warnings: Vec<String>,
    is_float: bool,
    numerics: PhantomData<N>,
}

/// What a [`Sum`] holds: the bits of the total, the name of the column, a warning for each
/// record with something else than a number in the column, and whether any of the numbers was
/// a double.
#[verifier::ext_equal]
pub struct SumView {
    pub total: u64,
    pub column: Seq<char>,
    pub warnings: Seq<Seq<char>>,
    pub is_float: bool,
}

impl<N: Numerics> View for Sum<N> {
    type V = SumView;

    closed spec fn view(&self) -> SumView {
        SumView {
            total: self.total,
            column: self.column@,
            warnings: views(self.warnings@),
            is_float: self.is_float,
        }
    }
}

impl<N: Numerics> Clone for Sum<N> {
    fn clone(&self) -> (copy: Sum<N>)
        ensures
            copy@ == self@,
    {
        Sum {
            total: self.total,
            column: self.column.clone(),
            warnings: copies(&self.warnings),
            is_float: self.is_float,
            numerics: PhantomData,
        }
    }
}

/// The warning of a sum or an average.
pub open spec fn sum_warning() -> Seq<char> {
    "Got string. Can only average into or float"@
}

/// The warning of a percentile.
pub open spec fn percentile_warning() -> Seq<char> {
    "Got string. Can only average int or float"@
}

proof fn lemma_views_push(warnings: Seq<String>, warning: String)
    ensures
        views(warnings.push(warning)) == views(warnings).push(warning@),
{
    assert(views(warnings.push(warning)) =~= views(warnings).push(warning@));
}

impl<N: Numerics> Sum<N> {
    /// The sum of no records.
    pub fn empty(column: String) -> (sum: Sum<N>)
        ensures
            sum@ == (SumView {
                total: 0,
                column: column@,
                warnings: Seq::empty(),
                is_float: false,
            }),
    {
        let sum = Sum {
            total: 0,
            column,
            warnings: Vec::new(),
            is_float: false,
            numerics: PhantomData,
        };
        assert(sum@.warnings =~= Seq::empty());
        sum
    }
}

impl<N: Numerics> AggregateFunction for Sum<N> {
    open spec fn can_take(&self, n: nat) -> bool {
        true
    }

    open spec fn advances(self, rec: RecordView, next: Sum<N>) -> bool {
        match rec.field(self@.column) {
            Some(ValueView::Float(f)) => {
                &&& adds::<N>(self@.total, f.bits, next@.total)
                &&& next@ == (SumView { total: next@.total, is_float: true, ..self@ })
            },
            Some(ValueView::Int(i)) => {
                &&& adds_int::<N>(self@.total, i, next@.total)
                &&& next@ == (SumView { total: next@.total, ..self@ })
            },
            Some(_) => next@ == (SumView {
                warnings: self@.warnings.push(sum_warning()),
                ..self@
            }),
            None => next@ == self@,
        }
    }

    open spec fn yields(self, value: ValueView) -> bool {
        exists|i: i64| #[trigger]
            call_ensures(N::to_int, (self@.total,), i) && value == ValueView::Int(i)
    }

    proof fn lemma_less_room(self, n: nat) {
    }

    proof fn lemma_advance_room(self, rec: RecordView, next: Sum<N>, n: nat) {
    }

    proof fn lemma_clone_room(self, copy: Sum<N>, n: nat) {
    }

    fn has_room(&self, _n: usize) -> (room: bool) {
        true
    }

    fn process(&mut self, rec: &Record) {
        match rec.field(&self.column) {
            Some(Value::Float(f)) => {
                self.is_float = true;
                self.total = N::plus(self.total, f.bits);
            },
            Some(Value::Int(i)) => {
                self.total = add_int::<N>(self.total, *i);
            },
            Some(_) => {
                let warning = "Got string. Can only average into or float".to_string();
                proof {
                    lemma_views_push(self.warnings@, warning);
                }
                self.warnings.push(warning);
            },
            None => {},
        }
    }

    fn emit(&self) -> (value: Value) {
        let i: i64 = N::to_int(self.total);
        assert(call_ensures(N::to_int, (self@.total,), i));
        Value::Int(i)
    }
}

/// The average of a column.
pub struct Average<N: Numerics> {
    total: u64,
    count: i64,
    column: String,
    warnings: Vec<String>,
    numerics: PhantomData<N>,
}

/// What an [`Average`] holds: the bits of the total, how many numbers it is the total of, the
/// name of the column, and a warning for each record with something else than a number in it.
#[verifier::ext_equal]
pub struct AverageView {
    pub total: u64,
    pub count: i64,
    pub column: Seq<char>,
    pub warnings: Seq<Seq<char>>,
}

impl<N: Numerics> View for Average<N> {
    type V = AverageView;

    closed spec fn view(&self) -> AverageView {
        AverageView {
            total: self.total,
            count: self.count,
            column: self.column@,
            warnings: views(self.warnings@),
        }
    }
}

impl<N: Numerics> Clone for Average<N> {
    fn clone(&self) -> (copy: Average<N>)
        ensures
            copy@ == self@,
    {
        Average {
            total: self.total,
            count: self.count,
            column: self.column.clone(),
            warnings: copies(&self.warnings),
            numerics: PhantomData,
        }
    }
}

impl<N: Numerics> Average<N> {
    /// The average of no records.
    pub fn empty(column: String) -> (average: Average<N>)
        ensures
            average@ == (AverageView {
                total: 0,
                count: 0,
                column: column@,
                warnings: Seq::empty(),
            }),
    {
        let average = Average {
            total: 0,
            count: 0,
            column,
            warnings: Vec::new(),
            numerics: PhantomData,
        };
        assert(average@.warnings =~= Seq::empty());
        average
    }
}

impl<N: Numerics> AggregateFunction for Average<N> {
    open spec fn can_take(&self, n: nat) -> bool {
        self@.count + n <= i64::MAX
    }

    open spec fn advances(self, rec: RecordView, next: Average<N>) -> bool {
        match rec.field(self@.column) {
            Some(ValueView::Float(f)) => {
                &&& adds::<N>(self@.total, f.bits, next@.total)
                &&& next@.count == self@.count + 1
                &&& next@ == (AverageView {
                    total: next@.total,
                    count: next@.count,
                    ..self@
                })
            },
            Some(ValueView::Int(i)) => {
                &&& adds_int::<N>(self@.total, i, next@.total)
                &&& next@.count == self@.count + 1
                &&& next@ == (AverageView {
                    total: next@.total,
                    count: next@.count,
                    ..self@
                })
            },
            Some(_) => next@ == (AverageView {
                warnings: self@.warnings.push(sum_warning()),
                ..self@
            }),
            None => next@ == self@,
        }
    }

    open spec fn yields(self, value: ValueView) -> bool {
        exists|count: u64, mean: u64|
            {
                &&& #[trigger] call_ensures(N::of_int, (self@.count,), count)
                &&& #[trigger] call_ensures(N::over, (self@.total, count), mean)
                &&& is_float::<N>(mean, value)
            }
    }

    proof fn lemma_less_room(self, n: nat) {
    }

    proof fn lemma_advance_room(self, rec: RecordView, next: Average<N>, n: nat) {
    }

    proof fn lemma_clone_room(self, copy: Average<N>, n: nat) {
    }

    fn has_room(&self, n: usize) -> (room: bool) {
        self.count as i128 + n as i128 <= i64::MAX as i128
    }

    fn process(&mut self, rec: &Record) {
        match rec.field(&self.column) {
            Some(Value::Float(f)) => {
                self.total = N::plus(self.total, f.bits);
                self.count = self.count + 1;
            },
            Some(Value::Int(i)) => {
                self.total = add_int::<N>(self.total, *i);
                self.count = self.count + 1;
            },
            Some(_) => {
                let warning = "Got string. Can only average into or float".to_string();
                proof {
                    lemma_views_push(self.warnings@, warning);
                }
                self.warnings.push(warning);
            },
            None => {},
        }
    }

    fn emit(&self) -> (value: Value) {
        let count: u64 = N::of_int(self.count);
        let mean: u64 = N::over(self.total, count);
        assert(call_ensures(N::of_int, (self@.count,), count));
        assert(call_ensures(N::over, (self@.total, count), mean));
        Value::from_bits::<N>(mean)
    }
}

/// A percentile of a column.
pub struct Percentile<N: Numerics> {
    sketch: Option<N::Sketch>,
    column: String,
    percentile: u64,
    warnings: Vec<String>,
}

/// What a [`Percentile`] holds: a sketch of the numbers, which is made when the first of them
/// comes, the name of the column, the bits of the percentile as a fraction of one, and a
/// warning for each record with something else than a number in the column.
#[verifier::ext_equal]
pub struct PercentileView<S> {
    pub sketch: Option<S>,
    pub column: Seq<char>,
    pub percentile: u64,
    pub warnings: Seq<Seq<char>>,
}

impl<N: Numerics> View for Percentile<N> {
    type V = PercentileView<N::Sketch>;

    closed spec fn view(&self) -> PercentileView<N::Sketch> {
        PercentileView {
            sketch: self.sketch,
            column: self.column@,
            percentile: self.percentile,
            warnings: views(self.warnings@),
        }
    }
}

impl<N: Numerics> Clone for Percentile<N> {
    fn clone(&self) -> (copy: Percentile<N>)
        ensures
            copy@ == (PercentileView { sketch: copy@.sketch, ..self@ }),
            copy@.sketch is None <==> self@.sketch is None,
            copy@.sketch is Some ==> cloned(self@.sketch->0, copy@.sketch->0),
    {
        let sketch = match &self.sketch {
            Some(s) => Some(s.clone()),
            None => None,
        };
        Percentile {
            sketch,
            column: self.column.clone(),
            percentile: self.percentile,
            warnings: copies(&self.warnings),
        }
    }
}

impl<N: Numerics> Percentile<N> {
    /// The percentile of no records. A percentile is a fraction below one.
    pub fn empty(column: String, percentile: u64) -> (res: Percentile<N>)
        requires
            !at_least_one(percentile),
        ensures
            res@ == (PercentileView::<N::Sketch> {
                sketch: None,
                column: column@,
                percentile,
                warnings: Seq::empty(),
            }),
    {
        let res = Percentile { sketch: None, column, percentile, warnings: Vec::new() };
        assert(res@.warnings =~= Seq::empty());
        res
    }

    fn observe(&mut self, x: u64)
        ensures
            final(self)@ == (PercentileView { sketch: final(self)@.sketch, ..old(self)@ }),
            observes::<N>(old(self)@.sketch, x, final(self)@.sketch),
    {
        let sketch = match self.sketch.take() {
            Some(s) => s,
            None => N::sketch(SKETCH_ERROR),
        };
        self.sketch = Some(N::observe(sketch, x));
    }
}

/// Whether `after` may be the sketch `before`, or a new one where there was none, with one
/// number more.
pub open spec fn observes<N: Numerics>(
    before: Option<N::Sketch>,
    x: u64,
    after: Option<N::Sketch>,
) -> bool {
    &&& after is Some
    &&& match before {
        Some(s) => call_ensures(N::observe, (s, x), after->0),
        None => exists|s: N::Sketch| #[trigger]
            call_ensures(N::sketch, (SKETCH_ERROR,), s) && call_ensures(
                N::observe,
                (s, x),
                after->0,
            ),
    }
}

/// Whether `after` may be the sketch with the double of an integer more.
pub open spec fn observes_int<N: Numerics>(
    before: Option<N::Sketch>,
    i: i64,
    after: Option<N::Sketch>,
) -> bool {
    exists|x: u64| #[trigger] call_ensures(N::of_int, (i,), x) && observes::<N>(before, x, after)
}

/// Whether `value` is what a sketch answers: a double, or no value where it holds no number.
pub open spec fn answers<N: Numerics>(
    sketch: Option<N::Sketch>,
    percentile: u64,
    value: ValueView,
) -> bool {
    match sketch {
        Some(s) => exists|answer: Option<u64>|
            {
                &&& #[trigger] call_ensures(N::quantile, (&s, percentile), answer)
                &&& match answer {
                    Some(bits) => is_float::<N>(bits, value),
                    None => value == ValueView::Null,
                }
            },
        None => value == ValueView::Null,
    }
}

impl<N: Numerics> AggregateFunction for Percentile<N> {
    open spec fn can_take(&self, n: nat) -> bool {
        true
    }

    open spec fn advances(self, rec: RecordView, next: Percentile<N>) -> bool {
        match rec.field(self@.column) {
            Some(ValueView::Float(f)) => {
                &&& observes::<N>(self@.sketch, f.bits, next@.sketch)
                &&& next@ == (PercentileView { sketch: next@.sketch, ..self@ })
            },
            Some(ValueView::Int(i)) => {
                &&& observes_int::<N>(self@.sketch, i, next@.sketch)
                &&& next@ == (PercentileView { sketch: next@.sketch, ..self@ })
            },
            Some(_) => next@ == (PercentileView {
                warnings: self@.warnings.push(percentile_warning()),
                ..self@
            }),
            None => next@ == self@,
        }
    }

    open spec fn yields(self, value: ValueView) -> bool {
        answers::<N>(self@.sketch, self@.percentile, value)
    }

    proof fn lemma_less_room(self, n: nat) {
    }

    proof fn lemma_advance_room(self, rec: RecordView, next: Percentile<N>, n: nat) {
    }

    proof fn lemma_clone_room(self, copy: Percentile<N>, n: nat) {
    }

    fn has_room(&self, _n: usize) -> (room: bool) {
        true
    }

    fn process(&mut self, rec: &Record) {
        match rec.field(&self.column) {
            Some(Value::Float(f)) => {
                self.observe(f.bits);
            },
            Some(Value::Int(i)) => {
                let x: u64 = N::of_int(*i);
                self.observe(x);
            },
            Some(_) => {
                let warning = "Got string. Can only average int or float".to_string();
                proof {
                    lemma_views_push(self.warnings@, warning);
                }
                self.warnings.push(warning);
            },
            None => {},
        }
    }

    fn emit(&self) -> (value: Value) {
        match &self.sketch {
            Some(s) => match N::quantile(s, self.percentile) {
                Some(bits) => Value::from_bits::<N>(bits),
                None => Value::Null,
            },
            None => Value::Null,
        }
    }
}

/// Up to this magnitude every integer is a double.
pub const EXACT_LIMIT: i64 = 0x20_0000_0000_0000;

/// Whether a magnitude is up to the limit.
pub open spec fn is_exact(i: int) -> bool {
    -EXACT_LIMIT <= i <= EXACT_LIMIT
}

/// Whether `N` computes with integers up to the limit as with integers, where `double` has the
/// bits of each of them.
pub open spec fn exact_integers<N: Numerics>(double: spec_fn(int) -> u64) -> bool {
    &&& double(0) == 0
    &&& forall|i: i64, x: u64|
        is_exact(i as int) && #[trigger] call_ensures(N::of_int, (i,), x) ==> x == double(i as int)
    &&& forall|a: int, b: int, x: u64|
        is_exact(a) && is_exact(b) && is_exact(a + b) && #[trigger] call_ensures(
            N::plus,
            (double(a), double(b)),
            x,
        ) ==> x == double(a + b)
    &&& forall|a: int, i: i64|
        is_exact(a) && #[trigger] call_ensures(N::to_int, (double(a),), i) ==> i == a
}

/// The integer that a record has in a column, or zero.
pub open spec fn column_int(rec: RecordView, column: Seq<char>) -> int {
    match rec.field(column) {
        Some(ValueView::Int(i)) => i as int,
        _ => 0,
    }
}

/// The magnitude of an integer.
pub open spec fn size(i: int) -> int {
    if i < 0 {
        -i
    } else {
        i
    }
}

/// The sum of the integers in a column.
pub open spec fn column_total(recs: Seq<RecordView>, column: Seq<char>) -> int
    decreases recs.len(),
{
    if recs.len() == 0 {
        0
    } else {
        column_total(recs.drop_last(), column) + column_int(recs.last(), column)
    }
}

/// The sum of the magnitudes of the integers in a column.
pub open spec fn column_size(recs: Seq<RecordView>, column: Seq<char>) -> int
    decreases recs.len(),
{
    if recs.len() == 0 {
        0
    } else {
        column_size(recs.drop_last(), column) + size(column_int(recs.last(), column))
    }
}

/// Whether the column has integers only, in the records that have it.
pub open spec fn only_integers(recs: Seq<RecordView>, column: Seq<char>) -> bool {
    forall|j: int|
        0 <= j < recs.len() ==> ((#[trigger] recs[j]).field(column) is None || recs[j].field(
            column,
        )->0 is Int)
}

proof fn lemma_integer_sum<N: Numerics>(
    double: spec_fn(int) -> u64,
    column: Seq<char>,
    start: Sum<N>,
    recs: Seq<RecordView>,
    end: Sum<N>,
)
    requires
        exact_integers::<N>(double),
        start@.total == 0,
        start@.column == column,
        only_integers(recs, column),
        column_size(recs, column) <= EXACT_LIMIT,
        advances_all(start, recs, end),
    ensures
        end@.column == column,
        end@.total == double(column_total(recs, column)),
        size(column_total(recs, column)) <= column_size(recs, column),
    decreases recs.len(),
{
    if recs.len() > 0 {
        let front = recs.drop_last();
        let rec = recs.last();
        let mid = choose|mid: Sum<N>|
            #[trigger] mid.advances(rec, end) && advances_all(start, front, mid);
        assert forall|j: int| 0 <= j < front.len() implies ((#[trigger] front[j]).field(
            column,
        ) is None || front[j].field(column)->0 is Int) by {
            assert(front[j] == recs[j]);
        }
        lemma_integer_sum(double, column, start, front, mid);
        assert(rec == recs[recs.len() - 1]);
        let total = column_total(front, column);
        let i = column_int(rec, column);
        assert(is_exact(total) && is_exact(i) && is_exact(total + i));
        if let Some(ValueView::Int(x)) = rec.field(column) {
            let term = choose|term: u64| #[trigger]
                call_ensures(N::of_int, (x,), term) && adds::<N>(
                    mid@.total,
                    term,
                    end@.total,
                );
            assert(term == double(i));
            assert(call_ensures(N::plus, (double(total), double(i)), end@.total));
        }
    }
}

/// A sum of integers is exact where their magnitudes sum up to the limit at most and `N`
/// computes with such integers as with integers.
pub proof fn law_integer_sum_is_exact<N: Numerics>(
    double: spec_fn(int) -> u64,
    column: Seq<char>,
    start: Sum<N>,
    recs: Seq<RecordView>,
    end: Sum<N>,
    value: ValueView,
)
    requires
        exact_integers::<N>(double),
        start@ == (SumView { total: 0, column, warnings: Seq::empty(), is_float: false }),
        only_integers(recs, column),
        column_size(recs, column) <= EXACT_LIMIT,
        advances_all(start, recs, end),
        end.yields(value),
    ensures
        value matches ValueView::Int(i) && i == column_total(recs, column),
{
    lemma_integer_sum(double, column, start, recs, end);
    let total = column_total(recs, column);
    assert(is_exact(total));
    let i = choose|i: i64| #[trigger]
        call_ensures(N::to_int, (end@.total,), i) && value == ValueView::Int(i);
    assert(call_ensures(N::to_int, (double(total),), i));
}

/// The sum of a column, and the sum of the magnitudes in it, are the same in whatever order the
/// records come.
pub proof fn law_total_in_any_order(a: Seq<RecordView>, b: Seq<RecordView>, column: Seq<char>)
    requires
        a.to_multiset() == b.to_multiset(),
    ensures
        column_total(a, column) == column_total(b, column),
        column_size(a, column) == column_size(b, column),
{
    let total = |n: int, rec: RecordView| n + column_int(rec, column);
    let sizes = |n: int, rec: RecordView| n + size(column_int(rec, column));
    lemma_totals_as_folds(a, column);
    lemma_totals_as_folds(b, column);
    vstd::seq_lib::lemma_fold_left_permutation(a, b, total, 0);
    vstd::seq_lib::lemma_fold_left_permutation(a, b, sizes, 0);
}

proof fn lemma_totals_as_folds(recs: Seq<RecordView>, column: Seq<char>)
    ensures
        column_total(recs, column) == recs.fold_left(
            0int,
            |n: int, rec: RecordView| n + column_int(rec, column),
        ),
        column_size(recs, column) == recs.fold_left(
            0int,
            |n: int, rec: RecordView| n + size(column_int(rec, column)),
        ),
    decreases recs.len(),
{
    reveal(Seq::fold_left);
    if recs.len() > 0 {
        lemma_totals_as_folds(recs.drop_last(), column);
    }
}

/// Whether a sketch of `N` holds numbers that were put into it, and answers with one of them
/// where it holds any. `held` has the numbers that a sketch holds.
pub open spec fn holds_numbers<N: Numerics>(
    held: spec_fn(N::Sketch) -> Set<u64>,
    percentile: u64,
) -> bool {
    &&& forall|s: N::Sketch| #[trigger]
        call_ensures(N::sketch, (SKETCH_ERROR,), s) ==> held(s) == Set::<u64>::empty()
    &&& forall|s: N::Sketch, x: u64, t: N::Sketch|
        !is_nan(x) && #[trigger] call_ensures(N::observe, (s, x), t) ==> held(t) != Set::<
            u64,
        >::empty() && held(t).subset_of(held(s).insert(x))
    &&& forall|s: N::Sketch, answer: Option<u64>|
        held(s) != Set::<u64>::empty() && #[trigger] call_ensures(
            N::quantile,
            (&s, percentile),
            answer,
        ) ==> answer is Some && held(s).contains(answer->0)
}

/// Whether a record has a number in a column.
pub open spec fn has_number(rec: RecordView, column: Seq<char>) -> bool {
    rec.field(column) matches Some(value) && (value is Int || value is Float)
}

/// Whether a double is the number that a record has in a column, or may be the double of the
/// integer that it has there.
pub open spec fn is_number_of<N: Numerics>(x: u64, rec: RecordView, column: Seq<char>) -> bool {
    match rec.field(column) {
        Some(ValueView::Float(f)) => x == f.bits,
        Some(ValueView::Int(i)) => call_ensures(N::of_int, (i,), x),
        _ => false,
    }
}

/// Whether a double is one of the numbers that the records have in a column.
pub open spec fn is_number_in<N: Numerics>(
    x: u64,
    recs: Seq<RecordView>,
    column: Seq<char>,
) -> bool {
    exists|j: int| 0 <= j < recs.len() && is_number_of::<N>(x, #[trigger] recs[j], column)
}

/// Whether any of the records has a number in a column.
pub open spec fn any_number(recs: Seq<RecordView>, column: Seq<char>) -> bool {
    exists|j: int| 0 <= j < recs.len() && has_number(#[trigger] recs[j], column)
}

proof fn lemma_sketch_holds<N: Numerics>(
    held: spec_fn(N::Sketch) -> Set<u64>,
    start: Percentile<N>,
    recs: Seq<RecordView>,
    end: Percentile<N>,
)
    requires
        holds_numbers::<N>(held, start@.percentile),
        start@.sketch is None,
        forall|x: u64| #[trigger]
            is_number_in::<N>(x, recs, start@.column) ==> !is_nan(x),
        advances_all(start, recs, end),
    ensures
        end@.column == start@.column,
        end@.percentile == start@.percentile,
        end@.sketch is Some <==> any_number(recs, start@.column),
        end@.sketch matches Some(s) ==> held(s) != Set::<u64>::empty() && forall|x: u64| #[trigger]
            held(s).contains(x) ==> is_number_in::<N>(x, recs, start@.column),
    decreases recs.len(),
{
    if recs.len() > 0 {
        let column = start@.column;
        let front = recs.drop_last();
        let rec = recs.last();
        let last = recs.len() - 1;
        assert(rec == recs[last]);
        let mid = choose|mid: Percentile<N>|
            #[trigger] mid.advances(rec, end) && advances_all(start, front, mid);
        assert forall|x: u64| #[trigger] is_number_in::<N>(x, front, column) implies is_number_in::<
            N,
        >(x, recs, column) by {
            let j = choose|j: int|
                0 <= j < front.len() && is_number_of::<N>(x, #[trigger] front[j], column);
            assert(is_number_of::<N>(x, recs[j], column));
        }
        lemma_sketch_holds(held, start, front, mid);
        if any_number(front, column) {
            let j = choose|j: int| 0 <= j < front.len() && has_number(#[trigger] front[j], column);
            assert(has_number(recs[j], column));
        }
        if has_number(rec, column) {
            assert(has_number(recs[last], column));
            let x = if let Some(ValueView::Float(f)) = rec.field(column) {
                f.bits
            } else {
                let i = rec.field(column)->0->Int_0;
                choose|x: u64| #[trigger]
                    call_ensures(N::of_int, (i,), x) && observes::<N>(
                        mid@.sketch,
                        x,
                        end@.sketch,
                    )
            };
            assert(is_number_of::<N>(x, recs[last], column));
            assert(is_number_in::<N>(x, recs, column));
            assert(observes::<N>(mid@.sketch, x, end@.sketch));
            let before = match mid@.sketch {
                Some(s) => s,
                None => choose|s: N::Sketch| #[trigger]
                    call_ensures(N::sketch, (SKETCH_ERROR,), s) && call_ensures(
                        N::observe,
                        (s, x),
                        end@.sketch->0,
                    ),
            };
            assert(call_ensures(N::observe, (before, x), end@.sketch->0));
            assert forall|y: u64| #[trigger] held(end@.sketch->0).contains(y) implies is_number_in::<
                N,
            >(y, recs, column) by {
                assert(held(before).insert(x).contains(y));
                if y != x {
                    assert(held(before).contains(y));
                    assert(is_number_in::<N>(y, front, column));
                }
            }
        } else {
            assert(end@.sketch == mid@.sketch);
            if any_number(recs, column) {
                let j = choose|j: int|
                    0 <= j < recs.len() && has_number(#[trigger] recs[j], column);
                assert(has_number(front[j], column));
            }
        }
    }
}

/// A percentile of no numbers is no value. Of numbers, none of them a NaN, it is one of them,
/// where a sketch of `N` holds and answers with numbers that were put into it.
pub proof fn law_percentile_is_one_of_the_numbers<N: Numerics>(
    held: spec_fn(N::Sketch) -> Set<u64>,
    start: Percentile<N>,
    recs: Seq<RecordView>,
    end: Percentile<N>,
    value: ValueView,
)
    requires
        holds_numbers::<N>(held, start@.percentile),
        start@.sketch is None,
        forall|x: u64| #[trigger]
            is_number_in::<N>(x, recs, start@.column) ==> !is_nan(x),
        advances_all(start, recs, end),
        end.yields(value),
    ensures
        !any_number(recs, start@.column) ==> value == ValueView::Null,
        any_number(recs, start@.column) ==> value is Float && is_number_in::<N>(
            value->Float_0.bits,
            recs,
            start@.column,
        ),
{
    lemma_sketch_holds(held, start, recs, end);
}

/// Whether these are the numbers that the records have in a column, in order, each as a double:
/// a double as it is, and for an integer a double that `N` makes of it. Records that have a
/// text, no value or nothing at all there have no part in it.
pub open spec fn numbers<N: Numerics>(
    recs: Seq<RecordView>,
    column: Seq<char>,
    xs: Seq<u64>,
) -> bool
    decreases recs.len(),
{
    if recs.len() == 0 {
        xs.len() == 0
    } else {
        let rec = recs.last();
        if rec.data.contains_key(column) && rec.data[column] is Float {
            &&& xs.len() > 0
            &&& xs.last() == rec.data[column]->Float_0.bits
            &&& numbers::<N>(recs.drop_last(), column, xs.drop_last())
        } else if rec.data.contains_key(column) && rec.data[column] is Int {
            &&& xs.len() > 0
            &&& call_ensures(N::of_int, (rec.data[column]->Int_0,), xs.last())
            &&& numbers::<N>(recs.drop_last(), column, xs.drop_last())
        } else {
            numbers::<N>(recs.drop_last(), column, xs)
        }
    }
}

/// Whether `total` may come out where these doubles are added up from zero, one after the other.
pub open spec fn added_up<N: Numerics>(xs: Seq<u64>, total: u64) -> bool
    decreases xs.len(),
{
    if xs.len() == 0 {
        total == 0
    } else {
        exists|before: u64| #[trigger]
            call_ensures(N::plus, (before, xs.last()), total) && added_up::<N>(
                xs.drop_last(),
                before,
            )
    }
}

/// Whether `sketch` may be a new sketch that was shown these doubles, one after the other.
pub open spec fn sketched<N: Numerics>(xs: Seq<u64>, sketch: N::Sketch) -> bool
    decreases xs.len(),
{
    if xs.len() == 0 {
        call_ensures(N::sketch, (0x3F50_624D_D2F1_A9FCu64,), sketch)
    } else {
        exists|before: N::Sketch| #[trigger]
            call_ensures(N::observe, (before, xs.last()), sketch) && sketched::<N>(
                xs.drop_last(),
                before,
            )
    }
}

/// Whether `value` is the double with these bits, with a text that `N` shows it as.
pub open spec fn shown_double<N: Numerics>(bits: u64, value: ValueView) -> bool {
    &&& value is Float
    &&& value->Float_0.bits == bits
    &&& exists|text: String| #[trigger]
        call_ensures(N::show, (bits,), text) && text@ == value->Float_0.text
}

/// A count takes every record, and is their number.
pub proof fn law_count_is_the_number_of_records(
    start: Count,
    recs: Seq<RecordView>,
    end: Count,
    value: ValueView,
)
    requires
        start@ == 0,
        advances_all(start, recs, end),
        end.yields(value),
    ensures
        value is Int,
        value->Int_0 == recs.len(),
{
    lemma_count_grows(start, recs, end);
}

proof fn lemma_count_grows(start: Count, recs: Seq<RecordView>, end: Count)
    requires
        advances_all(start, recs, end),
    ensures
        end@ == start@ + recs.len(),
    decreases recs.len(),
{
    if recs.len() > 0 {
        let mid = choose|mid: Count|
            #[trigger] mid.advances(recs.last(), end) && advances_all(
                start,
                recs.drop_last(),
                mid,
            );
        lemma_count_grows(start, recs.drop_last(), mid);
    }
}

/// A sum is the integer that `N` makes of the total of the numbers in its column, added up in the
/// order in which they come.
pub proof fn law_sum_adds_up_the_numbers<N: Numerics>(
    start: Sum<N>,
    recs: Seq<RecordView>,
    end: Sum<N>,
    value: ValueView,
) -> (sum: (Seq<u64>, u64))
    requires
        start@.total == 0,
        advances_all(start, recs, end),
        end.yields(value),
    ensures
        numbers::<N>(recs, start@.column, sum.0),
        added_up::<N>(sum.0, sum.1),
        value is Int,
        call_ensures(N::to_int, (sum.1,), value->Int_0),
{
    let xs = lemma_sum_adds(start, recs, end);
    (xs, end@.total)
}

proof fn lemma_sum_adds<N: Numerics>(start: Sum<N>, recs: Seq<RecordView>, end: Sum<N>) -> (xs: Seq<
    u64,
>)
    requires
        start@.total == 0,
        advances_all(start, recs, end),
    ensures
        end@.column == start@.column,
        numbers::<N>(recs, start@.column, xs),
        added_up::<N>(xs, end@.total),
    decreases recs.len(),
{
    if recs.len() == 0 {
        Seq::empty()
    } else {
        let rec = recs.last();
        let column = start@.column;
        let mid = choose|mid: Sum<N>|
            #[trigger] mid.advances(rec, end) && advances_all(start, recs.drop_last(), mid);
        let front = lemma_sum_adds(start, recs.drop_last(), mid);
        match rec.field(column) {
            Some(ValueView::Float(f)) => {
                let xs = front.push(f.bits);
                assert(xs.drop_last() =~= front);
                assert(call_ensures(N::plus, (mid@.total, xs.last()), end@.total));
                xs
            },
            Some(ValueView::Int(i)) => {
                let term = choose|term: u64| #[trigger]
                    call_ensures(N::of_int, (i,), term) && adds::<N>(
                        mid@.total,
                        term,
                        end@.total,
                    );
                let xs = front.push(term);
                assert(xs.drop_last() =~= front);
                assert(call_ensures(N::plus, (mid@.total, xs.last()), end@.total));
                xs
            },
            _ => front,
        }
    }
}

/// An average is the total of the numbers in its column, added up in the order in which they
/// come, divided by how many they are.
pub proof fn law_average_divides_the_total<N: Numerics>(
    start: Average<N>,
    recs: Seq<RecordView>,
    end: Average<N>,
    value: ValueView,
) -> (average: (Seq<u64>, u64, u64, u64))
    requires
        start@.total == 0,
        start@.count == 0,
        advances_all(start, recs, end),
        end.yields(value),
    ensures
        numbers::<N>(recs, start@.column, average.0),
        added_up::<N>(average.0, average.1),
        average.0.len() <= i64::MAX,
        call_ensures(N::of_int, (average.0.len() as i64,), average.2),
        call_ensures(N::over, (average.1, average.2), average.3),
        shown_double::<N>(average.3, value),
{
    let xs = lemma_average_adds(start, recs, end);
    let (count, mean) = choose|count: u64, mean: u64|
        {
            &&& #[trigger] call_ensures(N::of_int, (end@.count,), count)
            &&& #[trigger] call_ensures(N::over, (end@.total, count), mean)
            &&& is_float::<N>(mean, value)
        };
    assert(end@.count == xs.len() as i64);
    (xs, end@.total, count, mean)
}

proof fn lemma_average_adds<N: Numerics>(
    start: Average<N>,
    recs: Seq<RecordView>,
    end: Average<N>,
) -> (xs: Seq<u64>)
    requires
        start@.total == 0,
        start@.count == 0,
        advances_all(start, recs, end),
    ensures
        end@.column == start@.column,
        end@.count == xs.len(),
        numbers::<N>(recs, start@.column, xs),
        added_up::<N>(xs, end@.total),
    decreases recs.len(),
{
    if recs.len() == 0 {
        Seq::empty()
    } else {
        let rec = recs.last();
        let column = start@.column;
        let mid = choose|mid: Average<N>|
            #[trigger] mid.advances(rec, end) && advances_all(start, recs.drop_last(), mid);
        let front = lemma_average_adds(start, recs.drop_last(), mid);
        match rec.field(column) {
            Some(ValueView::Float(f)) => {
                let xs = front.push(f.bits);
                assert(xs.drop_last() =~= front);
                assert(call_ensures(N::plus, (mid@.total, xs.last()), end@.total));
                xs
            },
            Some(ValueView::Int(i)) => {
                let term = choose|term: u64| #[trigger]
                    call_ensures(N::of_int, (i,), term) && adds::<N>(
                        mid@.total,
                        term,
                        end@.total,
                    );
                let xs = front.push(term);
                assert(xs.drop_last() =~= front);
                assert(call_ensures(N::plus, (mid@.total, xs.last()), end@.total));
                xs
            },
            _ => front,
        }
    }
}

/// A percentile is what a sketch of the numbers in its column answers for it, and no value where
/// there are no numbers.
pub proof fn law_percentile_is_an_answer<N: Numerics>(
    start: Percentile<N>,
    recs: Seq<RecordView>,
    end: Percentile<N>,
    value: ValueView,
) -> (xs: Seq<u64>)
    requires
        start@.sketch is None,
        advances_all(start, recs, end),
        end.yields(value),
    ensures
        numbers::<N>(recs, start@.column, xs),
        xs.len() == 0 ==> value is Null,
        xs.len() > 0 ==> exists|sketch: N::Sketch, answer: Option<u64>|
            {
                &&& sketched::<N>(xs, sketch)
                &&& #[trigger] call_ensures(N::quantile, (&sketch, start@.percentile), answer)
                &&& answer is None ==> value is Null
                &&& answer is Some ==> shown_double::<N>(answer->0, value)
            },
{
    let xs = lemma_percentile_sketches(start, recs, end);
    if xs.len() > 0 {
        let sketch = end@.sketch->0;
        let answer = choose|answer: Option<u64>|
            {
                &&& #[trigger] call_ensures(N::quantile, (&sketch, end@.percentile), answer)
                &&& match answer {
                    Some(bits) => is_float::<N>(bits, value),
                    None => value == ValueView::Null,
                }
            };
        assert(call_ensures(N::quantile, (&sketch, start@.percentile), answer));
    }
    xs
}

proof fn lemma_percentile_sketches<N: Numerics>(
    start: Percentile<N>,
    recs: Seq<RecordView>,
    end: Percentile<N>,
) -> (xs: Seq<u64>)
    requires
        start@.sketch is None,
        advances_all(start, recs, end),
    ensures
        end@.column == start@.column,
        end@.percentile == start@.percentile,
        numbers::<N>(recs, start@.column, xs),
        end@.sketch is None <==> xs.len() == 0,
        end@.sketch is Some ==> sketched::<N>(xs, end@.sketch->0),
    decreases recs.len(),
{
    if recs.len() == 0 {
        Seq::empty()
    } else {
        let rec = recs.last();
        let column = start@.column;
        let mid = choose|mid: Percentile<N>|
            #[trigger] mid.advances(rec, end) && advances_all(start, recs.drop_last(), mid);
        let front = lemma_percentile_sketches(start, recs.drop_last(), mid);
        match rec.field(column) {
            Some(ValueView::Float(f)) => {
                lemma_sketched_step::<N>(front, mid@.sketch, f.bits, end@.sketch);
                front.push(f.bits)
            },
            Some(ValueView::Int(i)) => {
                let x = choose|x: u64| #[trigger]
                    call_ensures(N::of_int, (i,), x) && observes::<N>(
                        mid@.sketch,
                        x,
                        end@.sketch,
                    );
                lemma_sketched_step::<N>(front, mid@.sketch, x, end@.sketch);
                front.push(x)
            },
            _ => front,
        }
    }
}

proof fn lemma_sketched_step<N: Numerics>(
    front: Seq<u64>,
    before: Option<N::Sketch>,
    x: u64,
    after: Option<N::Sketch>,
)
    requires
        observes::<N>(before, x, after),
        before is None <==> front.len() == 0,
        before is Some ==> sketched::<N>(front, before->0),
    ensures
        front.push(x).drop_last() == front,
        after is Some,
        sketched::<N>(front.push(x), after->0),
{
    let xs = front.push(x);
    assert(xs.drop_last() =~= front);
    let s = match before {
        Some(s) => s,
        None => choose|s: N::Sketch| #[trigger]
            call_ensures(N::sketch, (SKETCH_ERROR,), s) && call_ensures(
                N::observe,
                (s, x),
                after->0,
            ),
    };
    assert(sketched::<N>(front, s));
    assert(call_ensures(N::observe, (s, xs.last()), after->0));
}

/// How many of the records have a number in a column.
pub open spec fn number_count(recs: Seq<RecordView>, column: Seq<char>) -> nat
    decreases recs.len(),
{
    if recs.len() == 0 {
        0
    } else {
        number_count(recs.drop_last(), column) + if has_number(recs.last(), column) {
            1nat
        } else {
            0nat
        }
    }
}

/// The average of integers is their exact sum, as a double, divided by how many they are, where
/// their magnitudes sum up to the limit at most and `N` computes with such integers as with
/// integers.
pub proof fn law_integer_average<N: Numerics>(
    double: spec_fn(int) -> u64,
    column: Seq<char>,
    start: Average<N>,
    recs: Seq<RecordView>,
    end: Average<N>,
    value: ValueView,
)
    requires
        exact_integers::<N>(double),
        start@ == (AverageView { total: 0, count: 0, column, warnings: Seq::empty() }),
        only_integers(recs, column),
        column_size(recs, column) <= EXACT_LIMIT,
        advances_all(start, recs, end),
        end.yields(value),
        number_count(recs, column) <= EXACT_LIMIT,
    ensures
        exists|mean: u64| #[trigger]
            call_ensures(
                N::over,
                (
                    double(column_total(recs, column)),
                    double(number_count(recs, column) as int),
                ),
                mean,
            ) && shown_double::<N>(mean, value),
{
    lemma_integer_average(double, column, start, recs, end);
    let (count, mean) = choose|count: u64, mean: u64|
        {
            &&& #[trigger] call_ensures(N::of_int, (end@.count,), count)
            &&& #[trigger] call_ensures(N::over, (end@.total, count), mean)
            &&& is_float::<N>(mean, value)
        };
    assert(is_exact(end@.count as int));
    assert(count == double(number_count(recs, column) as int));
    assert(shown_double::<N>(mean, value));
}

proof fn lemma_integer_average<N: Numerics>(
    double: spec_fn(int) -> u64,
    column: Seq<char>,
    start: Average<N>,
    recs: Seq<RecordView>,
    end: Average<N>,
)
    requires
        exact_integers::<N>(double),
        start@.total == 0,
        start@.count == 0,
        start@.column == column,
        only_integers(recs, column),
        column_size(recs, column) <= EXACT_LIMIT,
        advances_all(start, recs, end),
    ensures
        end@.column == column,
        end@.total == double(column_total(recs, column)),
        end@.count == number_count(recs, column),
        size(column_total(recs, column)) <= column_size(recs, column),
    decreases recs.len(),
{
    if recs.len() > 0 {
        let front = recs.drop_last();
        let rec = recs.last();
        let mid = choose|mid: Average<N>|
            #[trigger] mid.advances(rec, end) && advances_all(start, front, mid);
        assert forall|j: int| 0 <= j < front.len() implies ((#[trigger] front[j]).field(
            column,
        ) is None || front[j].field(column)->0 is Int) by {
            assert(front[j] == recs[j]);
        }
        lemma_integer_average(double, column, start, front, mid);
        assert(rec == recs[recs.len() - 1]);
        let total = column_total(front, column);
        let i = column_int(rec, column);
        assert(is_exact(total) && is_exact(i) && is_exact(total + i));
        if let Some(ValueView::Int(x)) = rec.field(column) {
            let term = choose|term: u64| #[trigger]
                call_ensures(N::of_int, (x,), term) && adds::<N>(
                    mid@.total,
                    term,
                    end@.total,
                );
            assert(term == double(i));
            assert(call_ensures(N::plus, (double(total), double(i)), end@.total));
        }
    }
}

/// A copy of an aggregate function starts from the same state.
pub proof fn law_copies_start_alike<N: Numerics>(
    count: (Count, Count),
    sum: (Sum<N>, Sum<N>),
    average: (Average<N>, Average<N>),
    percentile: (Percentile<N>, Percentile<N>),
)
    ensures
        cloned(count.0, count.1) ==> count.1@ == count.0@,
        cloned(sum.0, sum.1) ==> sum.1@ == sum.0@,
        cloned(average.0, average.1) ==> average.1@ == average.0@,
        cloned(percentile.0, percentile.1) && percentile.0@.sketch is None ==> percentile.1@
            == percentile.0@,
{
}

/// There is room for as many records as a 64-bit counter has numbers left, and for any number
/// where nothing is counted.
pub proof fn law_room_of_functions<N: Numerics>(
    count: Count,
    sum: Sum<N>,
    average: Average<N>,
    percentile: Percentile<N>,
    n: nat,
)
    ensures
        count.can_take(n) <==> count@ + n <= 0x7FFF_FFFF_FFFF_FFFF,
        sum.can_take(n),
        average.can_take(n) <==> average@.count + n <= 0x7FFF_FFFF_FFFF_FFFF,
        percentile.can_take(n),
{
}

/// A record with a text or no value in the column leaves a warning and changes nothing else, one
/// without the column changes nothing at all, and a sum remembers that it has seen a double.
pub proof fn law_other_values_only_warn<N: Numerics>(
    rec: RecordView,
    sum: (Sum<N>, Sum<N>),
    average: (Average<N>, Average<N>),
    percentile: (Percentile<N>, Percentile<N>),
)
    requires
        sum.0.advances(rec, sum.1),
        average.0.advances(rec, average.1),
        percentile.0.advances(rec, percentile.1),
    ensures
        sum.1@.column == sum.0@.column,
        average.1@.column == average.0@.column,
        percentile.1@.column == percentile.0@.column,
        percentile.1@.percentile == percentile.0@.percentile,
        !rec.data.contains_key(sum.0@.column) ==> sum.1@ == sum.0@,
        !rec.data.contains_key(average.0@.column) ==> average.1@ == average.0@,
        !rec.data.contains_key(percentile.0@.column) ==> percentile.1@ == percentile.0@,
        rec.data.contains_key(sum.0@.column) ==> match rec.data[sum.0@.column] {
            ValueView::Float(_) => sum.1@.is_float && sum.1@.warnings == sum.0@.warnings,
            ValueView::Int(_) => sum.1@.is_float == sum.0@.is_float && sum.1@.warnings
                == sum.0@.warnings,
            _ => sum.1@.total == sum.0@.total && sum.1@.is_float == sum.0@.is_float
                && sum.1@.warnings == sum.0@.warnings.push(
                "Got string. Can only average into or float"@,
            ),
        },
        rec.data.contains_key(average.0@.column) ==> match rec.data[average.0@.column] {
            ValueView::Float(_) => average.1@.warnings == average.0@.warnings,
            ValueView::Int(_) => average.1@.warnings == average.0@.warnings,
            _ => average.1@.total == average.0@.total && average.1@.count == average.0@.count
                && average.1@.warnings == average.0@.warnings.push(
                "Got string. Can only average into or float"@,
            ),
        },
        rec.data.contains_key(percentile.0@.column) ==> match rec.data[percentile.0@.column] {
            ValueView::Float(_) => percentile.1@.warnings == percentile.0@.warnings,
            ValueView::Int(_) => percentile.1@.warnings == percentile.0@.warnings,
            _ => percentile.1@.sketch == percentile.0@.sketch && percentile.1@.warnings
                == percentile.0@.warnings.push("Got string. Can only average int or float"@),
        },
{
}

} // verus!
