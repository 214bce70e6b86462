//! The order in which the rows of an aggregate are listed.
use ord_subset::OrdSubsetSliceExt;
use vstd::prelude::*;

use crate::data::Value;
use crate::data::ValueView;
use crate::float::SIGN;
use crate::float::at_least_one;
use crate::float::check_nan;
use crate::float::equal;
use crate::float::is_nan;
use crate::float::less;
use crate::float::rank;
use crate::float::unsigned_rank;
use crate::text::lemma_lex_irreflexive;
use crate::text::lemma_lex_total;
use crate::text::lemma_lex_transitive;
use crate::text::lex_less;
use crate::text::text_less;

verus! {

/// Whether a value has no place in the order: a NaN has none.
pub open spec fn outside_order(value: ValueView) -> bool {
    value matches ValueView::Float(f) && is_nan(f.bits)
}

/// Values of different kinds are ordered by their kinds: texts, integers, doubles, no value.
pub open spec fn kind(value: ValueView) -> int {
    match value {
        ValueView::Str(_) => 0,
        ValueView::Int(_) => 1,
        ValueView::Float(_) => 2,
        ValueView::Null => 3,
    }
}

/// `a < b` of values inside the order.
pub open spec fn value_less(a: ValueView, b: ValueView) -> bool {
    match (a, b) {
        (ValueView::Str(x), ValueView::Str(y)) => lex_less(x, y),
        (ValueView::Int(x), ValueView::Int(y)) => x < y,
        (ValueView::Float(x), ValueView::Float(y)) => rank(x.bits) < rank(y.bits),
        _ => kind(a) < kind(b),
    }
}

/// Whether `a` is sorted before `b`: the smaller value first, those outside the order last.
pub open spec fn sorts_before(a: ValueView, b: ValueView) -> bool {
    !outside_order(a) && (outside_order(b) || value_less(a, b))
}

/// A key by which values are sorted.
pub type SortKey = (u8, u64);

/// `a < b` of keys: by the first number, then by the second.
pub open spec fn key_less(a: SortKey, b: SortKey) -> bool {
    a.0 < b.0 || (a.0 == b.0 && a.1 < b.1)
}

/// `OrdSubsetSliceExt::ord_subset_sort_by_key` with the first component of each item as its
/// key. The method sorts the slice by the keys, in place, and is stable, as `sort_by` of std
/// is. Keys outside the order would come last; pairs of integers have none, and are ordered
/// by the first integer, then by the second.
#[verifier::external_body]
fn sort_by_key(items: &mut Vec<(SortKey, usize)>)
    ensures
        final(items)@.to_multiset() == old(items)@.to_multiset(),
        forall|i: int, j: int|
            #![trigger final(items)@[i], final(items)@[j]]
            0 <= i < j < final(items)@.len() ==> !key_less(final(items)@[j].0, final(items)@[i].0),
        forall|i: int, j: int|
            #![trigger final(items)@[i], final(items)@[j]]
            0 <= i < j < final(items)@.len() && final(items)@[i].0 == final(items)@[j].0
                ==> exists|a: int, b: int|
                0 <= a < b < old(items)@.len() && old(items)@[a] == final(items)@[i]
                    && old(items)@[b] == final(items)@[j],
{
    items.ord_subset_sort_by_key(|item| item.0);
}

/// Whether the value at `j` is a text before the text `text`.
pub open spec fn text_before(values: Seq<Value>, j: int, text: Seq<char>) -> bool {
    values[j]@ matches ValueView::Str(s) && lex_less(s, text)
}

/// How many of the first `n` values are texts before `text`.
spec fn texts_before(values: Seq<Value>, n: int, text: Seq<char>) -> int
    decreases n,
{
    if n <= 0 {
        0
    } else {
        texts_before(values, n - 1, text) + if text_before(values, n - 1, text) {
            1int
        } else {
            0int
        }
    }
}

proof fn lemma_texts_before_bound(values: Seq<Value>, n: int, text: Seq<char>)
    requires
        0 <= n,
    ensures
        0 <= texts_before(values, n, text) <= n,
    decreases n,
{
    if n > 0 {
        lemma_texts_before_bound(values, n - 1, text);
    }
}

proof fn lemma_texts_before_monotone(
    values: Seq<Value>,
    n: int,
    low: Seq<char>,
    high: Seq<char>,
)
    requires
        0 <= n <= values.len(),
        lex_less(low, high),
    ensures
        texts_before(values, n, low) <= texts_before(values, n, high),
        (exists|j: int| 0 <= j < n && #[trigger] values[j]@ == ValueView::Str(low))
            ==> texts_before(values, n, low) < texts_before(values, n, high),
    decreases n,
{
    if n > 0 {
        lemma_texts_before_monotone(values, n - 1, low, high);
        if let ValueView::Str(s) = values[n - 1]@ {
            if lex_less(s, low) {
                lemma_lex_transitive(s, low, high);
            }
            if s == low {
                lemma_lex_irreflexive(low);
            }
        }
    }
}

/// The key of the value at `i`: texts by the number of texts before them, integers and
/// doubles by an integer that keeps their order, and what is outside the order last.
spec fn sort_key(values: Seq<Value>, i: int) -> SortKey {
    match values[i]@ {
        ValueView::Str(s) => (0u8, texts_before(values, values.len() as int, s) as u64),
        ValueView::Int(x) => (1u8, (x + SIGN) as u64),
        ValueView::Float(f) => if is_nan(f.bits) {
            (4u8, 0u64)
        } else {
            (2u8, (rank(f.bits) + SIGN) as u64)
        },
        ValueView::Null => (3u8, 0u64),
    }
}

fn key_of(values: &Vec<Value>, i: usize) -> (key: SortKey)
    requires
        i < values.len(),
    ensures
        key == sort_key(values@, i as int),
{
    match &values[i] {
        Value::Str(s) => {
            let mut before: usize = 0;
            let mut j: usize = 0;
            while j < values.len()
                invariant
                    j <= values.len(),
                    before <= j,
                    before == texts_before(values@, j as int, s@),
                decreases values.len() - j,
            {
                let earlier: bool = match &values[j] {
                    Value::Str(t) => text_less(t.as_str(), s.as_str()),
                    _ => false,
                };
                assert(earlier == text_before(values@, j as int, s@));
                if earlier {
                    before = before + 1;
                }
                j = j + 1;
            }
            (0, before as u64)
        },
        Value::Int(x) => (1, (*x as i128 + SIGN as i128) as u64),
        Value::Float(f) => if check_nan(f.bits) {
            (4, 0)
        } else {
            (2, unsigned_rank(f.bits))
        },
        Value::Null => (3, 0),
    }
}

proof fn lemma_sort_key(values: Seq<Value>, i: int, j: int)
    requires
        0 <= i < values.len() <= u64::MAX,
        0 <= j < values.len(),
        sorts_before(values[i]@, values[j]@),
    ensures
        key_less(sort_key(values, i), sort_key(values, j)),
{
    if let (ValueView::Str(x), ValueView::Str(y)) = (values[i]@, values[j]@) {
        let n = values.len() as int;
        assert(values[i]@ == ValueView::Str(x));
        lemma_texts_before_monotone(values, n, x, y);
        lemma_texts_before_bound(values, n, x);
        lemma_texts_before_bound(values, n, y);
    }
}

/// Whether `order` lists every index below `n` exactly once.
pub open spec fn lists_all(order: Seq<usize>, n: nat) -> bool {
    &&& order.len() == n
    &&& order.no_duplicates()
    &&& forall|i: int| 0 <= i < n ==> 0 <= #[trigger] order[i] < n
    &&& forall|k: usize| k < n ==> #[trigger] order.contains(k)
}

spec fn has_index(items: Seq<(SortKey, usize)>, k: usize) -> bool {
    exists|i: int| 0 <= i < items.len() && (#[trigger] items[i]).1 == k
}

proof fn lemma_lists_all(before: Seq<(SortKey, usize)>, after: Seq<(SortKey, usize)>)
    requires
        before.to_multiset() == after.to_multiset(),
        forall|i: int| 0 <= i < before.len() ==> (#[trigger] before[i]).1 == i,
        before.len() <= usize::MAX,
    ensures
        after.len() == before.len(),
        forall|i: int|
            0 <= i < after.len() ==> (#[trigger] after[i]).1 < before.len() && after[i]
                == before[after[i].1 as int],
        forall|i: int, j: int|
            0 <= i < j < after.len() ==> (#[trigger] after[i]).1 != (#[trigger] after[j]).1,
        forall|k: usize| k < before.len() ==> #[trigger] has_index(after, k),
{
    before.to_multiset_ensures();
    after.to_multiset_ensures();
    assert forall|i: int| 0 <= i < after.len() implies (#[trigger] after[i]).1 < before.len()
        && after[i] == before[after[i].1 as int] by {
        assert(after.contains(after[i]));
        assert(before.to_multiset().contains(after[i]));
        assert(before.contains(after[i]));
        let k = choose|k: int| 0 <= k < before.len() && before[k] == after[i];
        assert(before[k].1 == k);
    }
    assert(before.no_duplicates()) by {
        assert forall|i: int, j: int|
            0 <= i < before.len() && 0 <= j < before.len() && i != j implies before[i]
            != before[j] by {
            assert(before[i].1 == i && before[j].1 == j);
        }
    }
    before.lemma_multiset_has_no_duplicates();
    after.lemma_multiset_has_no_duplicates_conv();
    assert forall|i: int, j: int| 0 <= i < j < after.len() implies (#[trigger] after[i]).1 != (
    #[trigger] after[j]).1 by {
        if after[i].1 == after[j].1 {
            assert(after[i] == after[j]);
        }
    }
    assert forall|k: usize| k < before.len() implies #[trigger] has_index(after, k) by {
        assert(before.contains(before[k as int]));
        assert(after.to_multiset().contains(before[k as int]));
        assert(after.contains(before[k as int]));
        let i = choose|i: int| 0 <= i < after.len() && after[i] == before[k as int];
        assert(after[i].1 == k);
    }
}

/// The indices of the values, the greatest value first: no value is listed before one that
/// is sorted after it.
pub fn descending(values: &Vec<Value>) -> (order: Vec<usize>)
    ensures
        lists_all(order@, values@.len()),
        forall|i: int, j: int|
            0 <= i < j < order@.len() ==> !sorts_before(
                values@[#[trigger] order@[i] as int]@,
                values@[#[trigger] order@[j] as int]@,
            ),
{
    let mut items: Vec<(SortKey, usize)> = Vec::new();
    let mut i: usize = 0;
    while i < values.len()
        invariant
            i <= values.len(),
            items.len() == i,
            forall|k: int| 0 <= k < i ==> #[trigger] items@[k] == (sort_key(values@, k), k as usize),
        decreases values.len() - i,
    {
        items.push((key_of(values, i), i));
        i = i + 1;
    }
    let ghost before = items@;
    sort_by_key(&mut items);
    let ghost after = items@;
    proof {
        lemma_lists_all(before, after);
    }
    let mut order: Vec<usize> = Vec::new();
    let mut left: usize = items.len();
    while left > 0
        invariant
            left <= items.len(),
            items@ == after,
            order.len() == items.len() - left,
            forall|k: int| 0 <= k < order.len() ==> #[trigger] order@[k] == after[after.len() - 1 - k].1,
        decreases left,
    {
        left = left - 1;
        order.push(items[left].1);
    }
    proof {
        let n = after.len() as int;
        assert forall|k: usize| k < n implies #[trigger] order@.contains(k) by {
            assert(has_index(after, k));
            let i = choose|i: int| 0 <= i < after.len() && (#[trigger] after[i]).1 == k;
            assert(order@[n - 1 - i] == k);
        }
        assert forall|i: int, j: int| 0 <= i < j < order@.len() implies !sorts_before(
            values@[#[trigger] order@[i] as int]@,
            values@[#[trigger] order@[j] as int]@,
        ) by {
            let x = after[n - 1 - i];
            let y = after[n - 1 - j];
            assert(x == before[x.1 as int] && y == before[y.1 as int]);
            assert(!key_less(x.0, y.0));
            if sorts_before(values@[x.1 as int]@, values@[y.1 as int]@) {
                lemma_sort_key(values@, x.1 as int, y.1 as int);
            }
        }
    }
    order
}

/// Values are sorted consistently: no value before itself, and what is before a second value
/// is before all that the second is before.
pub proof fn law_order_is_strict(a: ValueView, b: ValueView, c: ValueView)
    ensures
        !sorts_before(a, a),
        sorts_before(a, b) && sorts_before(b, c) ==> sorts_before(a, c),
{
    if let ValueView::Str(x) = a {
        lemma_lex_irreflexive(x);
        if let (ValueView::Str(y), ValueView::Str(z)) = (b, c) {
            if lex_less(x, y) && lex_less(y, z) {
                lemma_lex_transitive(x, y, z);
            }
        }
    }
}

/// Two values have the same place only where they are equal texts, integers or doubles, or
/// both no value, or both outside the order.
pub proof fn law_order_is_total(a: ValueView, b: ValueView)
    requires
        !sorts_before(a, b),
        !sorts_before(b, a),
    ensures
        match (a, b) {
            (ValueView::Float(x), ValueView::Float(y)) => rank(x.bits) == rank(y.bits) || (is_nan(
                x.bits,
            ) && is_nan(y.bits)),
            _ => a == b,
        },
{
    if let (ValueView::Str(x), ValueView::Str(y)) = (a, b) {
        lemma_lex_total(x, y);
    }
}

/// Whether bits are those of a NaN: all bits of the exponent set, and some behind them.
pub open spec fn bits_of_nan(x: u64) -> bool {
    x as int % 0x8000_0000_0000_0000 > 0x7FF0_0000_0000_0000
}

/// `x < y` of the doubles with these bits, none of them a NaN: by their signs, then by their
/// magnitudes. The two zeros are equal.
pub open spec fn double_below(x: u64, y: u64) -> bool {
    let m = x as int % 0x8000_0000_0000_0000;
    let n = y as int % 0x8000_0000_0000_0000;
    if x < 0x8000_0000_0000_0000 && y < 0x8000_0000_0000_0000 {
        m < n
    } else if x < 0x8000_0000_0000_0000 {
        false
    } else if y < 0x8000_0000_0000_0000 {
        m > 0 || n > 0
    } else {
        m > n
    }
}

/// Smaller integers are sorted before greater ones, smaller doubles before greater ones, texts
/// before integers, integers before doubles, doubles before missing values, and all of them
/// before a NaN.
pub proof fn law_what_sorts_before(a: ValueView, b: ValueView)
    ensures
        (a matches ValueView::Int(x) && b matches ValueView::Int(y)) ==> (sorts_before(a, b)
            <==> a->Int_0 < b->Int_0),
        (a is Float && b is Float) ==> (sorts_before(a, b) <==> !bits_of_nan(a->Float_0.bits) && (
        bits_of_nan(b->Float_0.bits) || double_below(a->Float_0.bits, b->Float_0.bits))),
        a is Str && !(b is Str) ==> sorts_before(a, b) && !sorts_before(b, a),
        a is Int && (b is Float || b is Null) ==> sorts_before(a, b) && !sorts_before(b, a),
        a is Float && b is Null ==> (sorts_before(a, b) <==> !bits_of_nan(a->Float_0.bits)) && (
        sorts_before(b, a) <==> bits_of_nan(a->Float_0.bits)),
        (a is Str && b is Str) ==> (sorts_before(a, b) <==> lex_less(a->Str_0, b->Str_0)),
{
}

/// Doubles are compared by their bits as numbers are: a NaN is equal to nothing and not at least
/// one, the two zeros are equal, and the ranks keep the order.
pub proof fn law_doubles_by_their_bits(x: u64, y: u64)
    ensures
        is_nan(x) <==> bits_of_nan(x),
        less(x, y) <==> !bits_of_nan(x) && !bits_of_nan(y) && double_below(x, y),
        equal(x, y) <==> !bits_of_nan(x) && !bits_of_nan(y) && !double_below(x, y)
            && !double_below(y, x),
        rank(x) < rank(y) <==> double_below(x, y),
        at_least_one(x) <==> !bits_of_nan(x) && !double_below(x, 0x3FF0_0000_0000_0000),
{
}

/// An order that lists all has every index once: as many as there are, each below that number,
/// none twice and none missing.
pub proof fn law_every_index_once(order: Seq<usize>, n: nat, k: usize)
    requires
        lists_all(order, n),
    ensures
        order.len() == n,
        k < n ==> exists|i: int|
            0 <= i < order.len() && #[trigger] order[i] == k && forall|j: int|
                0 <= j < order.len() && #[trigger] order[j] == k ==> j == i,
        k >= n ==> forall|i: int| 0 <= i < order.len() ==> #[trigger] order[i] != k,
{
    if k < n {
        assert(order.contains(k));
        let i = choose|i: int| 0 <= i < order.len() && order[i] == k;
        assert(order[i] == k);
    }
}

} // verus!
