//! Grouping: one aggregate function for each combination of values in the key columns.
use vstd::prelude::*;

use crate::accumulate::Count;
use crate::data::Aggregate;
use crate::data::AggregateView;
use crate::data::Record;
use crate::data::RecordView;
use crate::data::Row;
use crate::data::RowView;
use crate::data::Value;
use crate::data::ValueView;
use crate::data::none_text;
use crate::data::shown;
use crate::numeral::decimal;
use crate::operator::AggregateFunction;
use crate::operator::AggregateOperator;
use crate::operator::absorbs_all;
use crate::operator::advances_all;
use crate::order::bits_of_nan;
use crate::order::descending;
use crate::order::double_below;
use crate::order::law_what_sorts_before;
use crate::order::lists_all;
use crate::order::sorts_before;
use crate::table::Table;
use crate::text::copies;
use crate::text::same_texts;
use crate::text::views;

verus! {

broadcast use vstd::string::group_string_axioms;

/// The records in groups, and for each group what an aggregate function has of it.
pub struct Grouper<T: AggregateFunction> {
    key_cols: Vec<String>,
    agg_col: String,
    state: Vec<(Vec<String>, T)>,
    empty: T,
}

/// The key of a group.
pub type Key = Seq<Seq<char>>;

/// The views of a list of string slices.
pub open spec fn str_views(texts: Seq<&str>) -> Seq<Seq<char>> {
    Seq::new(texts.len(), |i: int| texts[i]@)
}

/// What a record has in a column, as a text; `$None$` where it has nothing there.
pub open spec fn key_part(rec: RecordView, column: Seq<char>) -> Seq<char> {
    match rec.field(column) {
        Some(value) => shown(value),
        None => none_text(),
    }
}

/// The key of the group that a record belongs to: what it has in each of the key columns.
pub open spec fn group_key(key_cols: Seq<Seq<char>>, rec: RecordView) -> Key {
    Seq::new(key_cols.len(), |i: int| key_part(rec, key_cols[i]))
}

/// The key columns with the parts of a key. Where a column occurs twice the later one counts.
pub open spec fn key_map(key_cols: Seq<Seq<char>>, key: Key) -> Map<Seq<char>, Seq<char>>
    decreases key_cols.len(),
{
    if key_cols.len() == 0 || key.len() == 0 {
        Map::empty()
    } else {
        key_map(key_cols.drop_last(), key.drop_last()).insert(key_cols.last(), key.last())
    }
}

/// Whether the entry at `i` has this key.
spec fn keyed<T>(state: Seq<(Vec<String>, T)>, i: int, key: Key) -> bool {
    0 <= i < state.len() && views(state[i].0@) == key
}

/// No two entries have the same key.
spec fn keys_distinct<T>(state: Seq<(Vec<String>, T)>) -> bool {
    forall|i: int, j: int|
        0 <= i < state.len() && 0 <= j < state.len() && #[trigger] views(state[i].0@)
            == #[trigger] views(state[j].0@) ==> i == j
}

/// The map that a list of entries stands for.
spec fn state_map<T>(state: Seq<(Vec<String>, T)>) -> Map<Key, T> {
    Map::new(
        |key: Key| exists|i: int| keyed(state, i, key),
        |key: Key| state[choose|i: int| keyed(state, i, key)].1,
    )
}

proof fn lemma_entry<T>(state: Seq<(Vec<String>, T)>, i: int)
    requires
        keys_distinct(state),
        0 <= i < state.len(),
    ensures
        state_map(state).contains_key(views(state[i].0@)),
        state_map(state)[views(state[i].0@)] == state[i].1,
{
    let key = views(state[i].0@);
    assert(keyed(state, i, key));
    let k = choose|k: int| keyed(state, k, key);
    assert(keyed(state, k, key));
    assert(views(state[k].0@) == views(state[i].0@));
}

/// Lists of entries that differ at most in the accumulator at `at`, where the second may have
/// an entry more, stand for maps that differ at most in what is under the key at `at`.
proof fn lemma_insert<T>(
    before: Seq<(Vec<String>, T)>,
    after: Seq<(Vec<String>, T)>,
    at: int,
    key: Key,
)
    requires
        keys_distinct(before),
        0 <= at < after.len(),
        at <= before.len(),
        after.len() == if at < before.len() {
            before.len()
        } else {
            before.len() + 1
        },
        views(after[at].0@) == key,
        at < before.len() ==> views(before[at].0@) == key,
        at == before.len() ==> forall|i: int| !keyed(before, i, key),
        forall|i: int| 0 <= i < before.len() && i != at ==> #[trigger] after[i] == before[i],
    ensures
        keys_distinct(after),
        state_map(after) == state_map(before).insert(key, after[at].1),
{
    assert forall|i: int| 0 <= i < before.len() implies #[trigger] views(after[i].0@) == views(
        before[i].0@,
    ) by {
        assert(i != at ==> after[i] == before[i]);
    }
    assert forall|i: int, j: int|
        0 <= i < after.len() && 0 <= j < after.len() && #[trigger] views(after[i].0@)
            == #[trigger] views(after[j].0@) implies i == j by {
        if at == before.len() {
            assert(!keyed(before, i, key) && !keyed(before, j, key));
        }
        if i < before.len() && j < before.len() {
            assert(views(before[i].0@) == views(before[j].0@));
        }
    }
    let old_map = state_map(before).insert(key, after[at].1);
    let new_map = state_map(after);
    lemma_entry(after, at);
    assert forall|k: Key| #[trigger] new_map.contains_key(k) == old_map.contains_key(k) by {
        if k != key {
            if new_map.contains_key(k) {
                let i = choose|i: int| keyed(after, i, k);
                assert(keyed(before, i, k));
            }
            if old_map.contains_key(k) {
                let i = choose|i: int| keyed(before, i, k);
                assert(keyed(after, i, k));
            }
        }
    }
    assert forall|k: Key| new_map.contains_key(k) implies #[trigger] new_map[k] == old_map[k] by {
        if k != key {
            let i = choose|i: int| keyed(after, i, k);
            assert(keyed(before, i, k));
            lemma_entry(after, i);
            lemma_entry(before, i);
        }
    }
    assert(new_map =~= old_map);
}

impl<T: AggregateFunction> Grouper<T> {
    /// The columns by which the records are grouped.
    pub closed spec fn key_cols(self) -> Seq<Seq<char>> {
        views(self.key_cols@)
    }

    /// The name of the column that holds the results.
    pub closed spec fn agg_col(self) -> Seq<char> {
        self.agg_col@
    }

    /// The groups that have come up, and the aggregate function of each.
    pub closed spec fn groups(self) -> Map<Key, T> {
        state_map(self.state@)
    }

    /// What the aggregate function of a group starts from.
    pub closed spec fn initial(self) -> T {
        self.empty
    }

    /// Whether a list of rows holds one row for each group, those of `keys` in their order:
    /// the key columns with the key of the group, and the result of its aggregate function.
    pub open spec fn lists_groups(self, keys: Seq<Key>, rows: Seq<RowView>) -> bool {
        &&& keys.no_duplicates()
        &&& forall|key: Key| #[trigger] keys.contains(key) <==> self.groups().contains_key(key)
        &&& rows.len() == keys.len()
        &&& forall|i: int|
            0 <= i < rows.len() ==> (#[trigger] rows[i]).0 == key_map(self.key_cols(), keys[i])
                && self.groups()[keys[i]].yields(rows[i].1)
    }

    /// No groups yet.
    pub fn new(key_cols: Vec<&str>, agg_col: &str, empty: T) -> (grouper: Grouper<T>)
        ensures
            grouper.wf(),
            grouper.key_cols() == str_views(key_cols@),
            grouper.agg_col() == agg_col@,
            grouper.groups() == Map::<Key, T>::empty(),
            grouper.initial() == empty,
    {
        let mut columns: Vec<String> = Vec::new();
        let mut i: usize = 0;
        while i < key_cols.len()
            invariant
                i <= key_cols.len(),
                columns.len() == i,
                forall|j: int| 0 <= j < i ==> #[trigger] columns@[j]@ == key_cols@[j]@,
            decreases key_cols.len() - i,
        {
            columns.push(key_cols[i].to_string());
            i = i + 1;
        }
        let grouper = Grouper {
            key_cols: columns,
            agg_col: agg_col.to_string(),
            state: Vec::new(),
            empty,
        };
        assert(grouper.key_cols() =~= str_views(key_cols@));
        assert(grouper.groups() =~= Map::<Key, T>::empty()) by {
            assert forall|key: Key| !grouper.groups().contains_key(key) by {
                assert forall|j: int| !keyed(grouper.state@, j, key) by {}
            }
        }
        grouper
    }

    fn key_of(&self, rec: &Record) -> (key: Vec<String>)
        ensures
            views(key@) == group_key(self.key_cols(), rec@),
    {
        let mut key: Vec<String> = Vec::new();
        let mut i: usize = 0;
        while i < self.key_cols.len()
            invariant
                i <= self.key_cols.len(),
                key.len() == i,
                forall|j: int|
                    0 <= j < i ==> #[trigger] key@[j]@ == key_part(rec@, self.key_cols@[j]@),
            decreases self.key_cols.len() - i,
        {
            let part: String = match rec.field(&self.key_cols[i]) {
                Some(value) => value.to_string(),
                None => "$None$".to_string(),
            };
            key.push(part);
            i = i + 1;
        }
        assert(views(key@) =~= group_key(self.key_cols(), rec@));
        key
    }

    fn find(&self, key: &Vec<String>) -> (at: Option<usize>)
        ensures
            match at {
                Some(i) => keyed(self.state@, i as int, views(key@)),
                None => forall|i: int| !keyed(self.state@, i, views(key@)),
            },
    {
        let mut i: usize = 0;
        while i < self.state.len()
            invariant
                i <= self.state.len(),
                forall|j: int| 0 <= j < i ==> !#[trigger] keyed(self.state@, j, views(key@)),
            decreases self.state.len() - i,
        {
            if same_texts(&self.state[i].0, key) {
                return Some(i);
            }
            i = i + 1;
        }
        None
    }

    fn key_table(&self, key: &Vec<String>) -> (table: Table<String>)
        requires
            key.len() == self.key_cols.len(),
        ensures
            table@ == key_map(self.key_cols(), views(key@)),
    {
        let ghost cols = self.key_cols();
        let ghost parts = views(key@);
        let mut table: Table<String> = Table::new();
        let mut i: usize = 0;
        while i < key.len()
            invariant
                i <= key.len(),
                key.len() == self.key_cols.len(),
                cols == views(self.key_cols@),
                parts == views(key@),
                table@ == key_map(cols.take(i as int), parts.take(i as int)),
            decreases key.len() - i,
        {
            table = table.insert(self.key_cols[i].clone(), key[i].clone());
            assert(cols.take(i + 1).drop_last() =~= cols.take(i as int));
            assert(parts.take(i + 1).drop_last() =~= parts.take(i as int));
            i = i + 1;
        }
        assert(cols.take(i as int) =~= cols);
        assert(parts.take(i as int) =~= parts);
        table
    }
}

/// Whether no row comes before one with a greater value.
pub open spec fn rows_descend(rows: Seq<RowView>) -> bool {
    forall|i: int, j: int|
        0 <= i < j < rows.len() ==> !sorts_before((#[trigger] rows[i]).1, (#[trigger] rows[j]).1)
}

impl<T: AggregateFunction> AggregateOperator for Grouper<T> {
    closed spec fn wf(&self) -> bool {
        &&& keys_distinct(self.state@)
        &&& forall|i: int|
            0 <= i < self.state@.len() ==> (#[trigger] self.state@[i]).0@.len()
                == self.key_cols@.len()
    }

    open spec fn can_take(&self, n: nat) -> bool {
        &&& self.initial().can_take(n)
        &&& forall|key: Key|
            self.groups().contains_key(key) ==> (#[trigger] self.groups()[key]).can_take(n)
    }

    open spec fn absorbs(self, rec: RecordView, next: Grouper<T>) -> bool {
        let key = group_key(self.key_cols(), rec);
        &&& next.key_cols() == self.key_cols()
        &&& next.agg_col() == self.agg_col()
        &&& next.initial() == self.initial()
        &&& exists|start: T, acc: T|
            {
                &&& if self.groups().contains_key(key) {
                    start == self.groups()[key]
                } else {
                    cloned(self.initial(), start)
                }
                &&& #[trigger] start.advances(rec, acc)
                &&& next.groups() == self.groups().insert(key, acc)
            }
    }

    open spec fn reports(self, agg: AggregateView) -> bool {
        &&& agg.key_columns == self.key_cols()
        &&& agg.agg_column == self.agg_col()
        &&& exists|keys: Seq<Key>| #[trigger] self.lists_groups(keys, agg.data)
        &&& rows_descend(agg.data)
    }

    proof fn lemma_less_room(self, n: nat) {
        self.initial().lemma_less_room(n);
        assert forall|key: Key| self.groups().contains_key(key) implies (
        #[trigger] self.groups()[key]).can_take(n) by {
            self.groups()[key].lemma_less_room(n);
        }
    }

    fn has_room(&self, n: usize) -> (room: bool) {
        if !self.empty.has_room(n) {
            return false;
        }
        let mut i: usize = 0;
        while i < self.state.len()
            invariant
                self.wf(),
                i <= self.state.len(),
                forall|j: int| 0 <= j < i ==> (#[trigger] self.state@[j]).1.can_take(n as nat),
            decreases self.state.len() - i,
        {
            if !self.state[i].1.has_room(n) {
                proof {
                    lemma_entry(self.state@, i as int);
                    assert(!self.groups()[views(self.state@[i as int].0@)].can_take(n as nat));
                }
                return false;
            }
            i = i + 1;
        }
        assert forall|key: Key| self.groups().contains_key(key) implies (
        #[trigger] self.groups()[key]).can_take(n as nat) by {
            let j = choose|j: int| keyed(self.state@, j, key);
            lemma_entry(self.state@, j);
        }
        true
    }

    fn emit(&self) -> (agg: Aggregate) {
        let mut values: Vec<Value> = Vec::new();
        let mut i: usize = 0;
        while i < self.state.len()
            invariant
                i <= self.state.len(),
                values.len() == i,
                forall|j: int| 0 <= j < i ==> self.state@[j].1.yields((#[trigger] values@[j])@),
            decreases self.state.len() - i,
        {
            values.push(self.state[i].1.emit());
            i = i + 1;
        }
        let order = descending(&values);
        let mut data: Vec<(Table<String>, Value)> = Vec::new();
        let mut k: usize = 0;
        while k < order.len()
            invariant
                self.wf(),
                k <= order.len(),
                data.len() == k,
                order.len() == values.len() == self.state.len(),
                lists_all(order@, values@.len()),
                forall|j: int|
                    0 <= j < k ==> (#[trigger] data@[j]).0@ == key_map(
                        self.key_cols(),
                        views(self.state@[order@[j] as int].0@),
                    ) && data@[j].1@ == values@[order@[j] as int]@,
            decreases order.len() - k,
        {
            let at: usize = order[k];
            assert(order@[k as int] < values.len());
            data.push((self.key_table(&self.state[at].0), values[at].clone()));
            k = k + 1;
        }
        let agg = Aggregate::new(copies(&self.key_cols), self.agg_col.clone(), data);
        proof {
            let rows = agg@.data;
            let keys = Seq::new(order@.len(), |j: int| views(self.state@[order@[j] as int].0@));
            let groups = self.groups();
            assert forall|a: int, b: int|
                0 <= a < keys.len() && 0 <= b < keys.len() && a != b implies keys[a] != keys[b] by {
                assert(order@[a] != order@[b]);
                assert(order@[a] < values.len() && order@[b] < values.len());
                if keys[a] == keys[b] {
                    assert(views(self.state@[order@[a] as int].0@) == views(
                        self.state@[order@[b] as int].0@,
                    ));
                }
            }
            assert forall|key: Key| #[trigger] keys.contains(key) <==> groups.contains_key(key) by {
                if keys.contains(key) {
                    let j = choose|j: int| 0 <= j < keys.len() && keys[j] == key;
                    assert(order@[j] < values.len());
                    lemma_entry(self.state@, order@[j] as int);
                }
                if groups.contains_key(key) {
                    let e = choose|e: int| keyed(self.state@, e, key);
                    assert(order@.contains(e as usize));
                    let j = choose|j: int| 0 <= j < order@.len() && order@[j] == e as usize;
                    assert(keys[j] == key);
                }
            }
            assert forall|j: int| 0 <= j < rows.len() implies (#[trigger] rows[j]).0 == key_map(
                self.key_cols(),
                keys[j],
            ) && groups[keys[j]].yields(rows[j].1) by {
                let e = order@[j] as int;
                assert(order@[j] < values.len());
                assert(data@[j].1@ == values@[e]@);
                lemma_entry(self.state@, e);
                assert(self.state@[e].1.yields(values@[e]@));
            }
            assert(self.lists_groups(keys, rows));
            assert forall|a: int, b: int| 0 <= a < b < rows.len() implies !sorts_before(
                (#[trigger] rows[a]).1,
                (#[trigger] rows[b]).1,
            ) by {
                assert(data@[a].1@ == values@[order@[a] as int]@);
                assert(data@[b].1@ == values@[order@[b] as int]@);
            }
        }
        agg
    }

    fn process(&mut self, row: &Row) {
        match row {
            Row::Record(rec) => {
                let key = self.key_of(rec);
                let ghost group = group_key(self.key_cols(), rec@);
                let ghost before = *self;
                let ghost start: T;
                let ghost at: int;
                match self.find(&key) {
                    Some(i) => {
                        proof {
                            lemma_entry(self.state@, i as int);
                            start = self.state@[i as int].1;
                            at = i as int;
                            assert(self.groups()[group].can_take(1));
                        }
                        self.state[i].1.process(rec);
                    },
                    None => {
                        let mut acc: T = self.empty.clone();
                        proof {
                            start = acc;
                            at = self.state@.len() as int;
                            self.initial().lemma_clone_room(acc, 1);
                        }
                        acc.process(rec);
                        self.state.push((key, acc));
                    },
                }
                proof {
                    let acc = self.state@[at].1;
                    lemma_insert(before.state@, self.state@, at, group);
                    assert(views(self.state@[at].0@).len() == self.key_cols@.len());
                    assert forall|i: int| 0 <= i < self.state@.len() implies (
                    #[trigger] self.state@[i]).0@.len() == self.key_cols@.len() by {
                        if i != at {
                            assert(self.state@[i] == before.state@[i]);
                        }
                    }
                    assert(start.advances(rec@, acc));
                    assert(before.absorbs(rec@, *self));
                    assert forall|n: nat| #[trigger] before.can_take(n + 1) implies self.can_take(
                        n,
                    ) by {
                        before.initial().lemma_less_room(n);
                        assert forall|k: Key| self.groups().contains_key(k) implies (
                        #[trigger] self.groups()[k]).can_take(n) by {
                            if k == group {
                                if before.groups().contains_key(group) {
                                    assert(before.groups()[group].can_take(n + 1));
                                } else {
                                    before.initial().lemma_clone_room(start, n + 1);
                                }
                                start.lemma_advance_room(rec@, acc, n);
                            } else {
                                before.groups()[k].lemma_less_room(n);
                            }
                        }
                    }
                }
            },
            Row::Aggregate(_) => {},
        }
    }
}

/// How many of the records belong to the group with this key.
pub open spec fn tally(key_cols: Seq<Seq<char>>, recs: Seq<RecordView>, key: Key) -> nat
    decreases recs.len(),
{
    if recs.len() == 0 {
        0
    } else {
        tally(key_cols, recs.drop_last(), key) + if group_key(key_cols, recs.last()) == key {
            1nat
        } else {
            0nat
        }
    }
}

/// Whether a value is the number of records in a group, of which there is one at least.
pub open spec fn is_tally(
    value: ValueView,
    key_cols: Seq<Seq<char>>,
    recs: Seq<RecordView>,
    key: Key,
) -> bool {
    value matches ValueView::Int(n) && n == tally(key_cols, recs, key) && n > 0
}

/// Whether the rows list the groups of these records, those of `keys` in their order: the key
/// columns with the key of the group, and the number of its records.
pub open spec fn lists_tallies(
    key_cols: Seq<Seq<char>>,
    recs: Seq<RecordView>,
    keys: Seq<Key>,
    rows: Seq<RowView>,
) -> bool {
    &&& keys.no_duplicates()
    &&& forall|key: Key| #[trigger] keys.contains(key) <==> tally(key_cols, recs, key) > 0
    &&& rows.len() == keys.len()
    &&& forall|i: int|
        0 <= i < rows.len() ==> (#[trigger] rows[i]).0 == key_map(key_cols, keys[i]) && is_tally(
            rows[i].1,
            key_cols,
            recs,
            keys[i],
        )
}

/// A record changes its own group only: every other group stays as it is, and none goes.
pub proof fn law_other_groups_stay<T: AggregateFunction>(
    grouper: Grouper<T>,
    rec: RecordView,
    next: Grouper<T>,
    key: Key,
)
    requires
        grouper.absorbs(rec, next),
    ensures
        key != group_key(grouper.key_cols(), rec) ==> (next.groups().contains_key(key)
            <==> grouper.groups().contains_key(key)),
        key != group_key(grouper.key_cols(), rec) && grouper.groups().contains_key(key)
            ==> next.groups()[key] == grouper.groups()[key],
        next.groups().contains_key(group_key(grouper.key_cols(), rec)),
{
}

/// The records of the group with this key, in order.
pub open spec fn own_records(
    key_cols: Seq<Seq<char>>,
    recs: Seq<RecordView>,
    key: Key,
) -> Seq<RecordView>
    decreases recs.len(),
{
    if recs.len() == 0 {
        Seq::empty()
    } else {
        let front = own_records(key_cols, recs.drop_last(), key);
        if group_key(key_cols, recs.last()) == key {
            front.push(recs.last())
        } else {
            front
        }
    }
}

/// Whether an aggregate function may have come from a copy of `initial` by taking these records.
pub open spec fn folds<T: AggregateFunction>(initial: T, recs: Seq<RecordView>, acc: T) -> bool {
    exists|first: T| #[trigger] cloned(initial, first) && advances_all(first, recs, acc)
}

/// What a group has is what its aggregate function makes of the records of that group, taken in
/// order and no others, from a copy of what every group starts from. A group comes up with its
/// first record.
pub proof fn law_group_folds_own_records<T: AggregateFunction>(
    start: Grouper<T>,
    recs: Seq<RecordView>,
    end: Grouper<T>,
    key: Key,
)
    requires
        start.groups() == Map::<Key, T>::empty(),
        absorbs_all(start, recs, end),
    ensures
        end.key_cols() == start.key_cols(),
        end.agg_col() == start.agg_col(),
        end.initial() == start.initial(),
        end.groups().contains_key(key) <==> own_records(start.key_cols(), recs, key).len() > 0,
        end.groups().contains_key(key) ==> folds(
            start.initial(),
            own_records(start.key_cols(), recs, key),
            end.groups()[key],
        ),
    decreases recs.len(),
{
    if recs.len() > 0 {
        let cols = start.key_cols();
        let front = recs.drop_last();
        let rec = recs.last();
        let mid = choose|mid: Grouper<T>|
            #[trigger] mid.absorbs(rec, end) && absorbs_all(start, front, mid);
        law_group_folds_own_records(start, front, mid, key);
        let own = own_records(cols, front, key);
        if group_key(cols, rec) == key {
            let (from, acc) = choose|from: T, acc: T|
                {
                    &&& if mid.groups().contains_key(key) {
                        from == mid.groups()[key]
                    } else {
                        cloned(mid.initial(), from)
                    }
                    &&& #[trigger] from.advances(rec, acc)
                    &&& end.groups() == mid.groups().insert(key, acc)
                };
            let first = if mid.groups().contains_key(key) {
                choose|first: T| #[trigger]
                    cloned(start.initial(), first) && advances_all(first, own, from)
            } else {
                from
            };
            assert(own.push(rec).drop_last() =~= own);
            assert(advances_all(first, own, from));
            assert(from.advances(own.push(rec).last(), acc));
            assert(advances_all(first, own.push(rec), acc));
            assert(cloned(start.initial(), first));
        }
    }
}

/// The count of a group is the number of records that belong to it, and a group comes up with
/// its first record.
pub proof fn law_counts_are_tallies(
    start: Grouper<Count>,
    recs: Seq<RecordView>,
    end: Grouper<Count>,
    key: Key,
)
    requires
        start.groups() == Map::<Key, Count>::empty(),
        start.initial()@ == 0,
        absorbs_all(start, recs, end),
    ensures
        end.key_cols() == start.key_cols(),
        end.initial() == start.initial(),
        end.groups().contains_key(key) <==> tally(start.key_cols(), recs, key) > 0,
        end.groups().contains_key(key) ==> end.groups()[key]@ == tally(start.key_cols(), recs, key),
    decreases recs.len(),
{
    if recs.len() > 0 {
        let mid = choose|mid: Grouper<Count>|
            #[trigger] mid.absorbs(recs.last(), end) && absorbs_all(start, recs.drop_last(), mid);
        law_counts_are_tallies(start, recs.drop_last(), mid, key);
        law_counts_are_tallies(
            start,
            recs.drop_last(),
            mid,
            group_key(mid.key_cols(), recs.last()),
        );
    }
}

/// The report of a count lists the groups of the records and, for each, the number of its
/// records, the greatest number first.
pub proof fn law_count_report(
    start: Grouper<Count>,
    recs: Seq<RecordView>,
    end: Grouper<Count>,
    agg: AggregateView,
)
    requires
        start.groups() == Map::<Key, Count>::empty(),
        start.initial()@ == 0,
        absorbs_all(start, recs, end),
        end.reports(agg),
    ensures
        exists|keys: Seq<Key>| #[trigger] lists_tallies(start.key_cols(), recs, keys, agg.data),
        rows_descend(agg.data),
{
    let cols = start.key_cols();
    let keys = choose|keys: Seq<Key>| #[trigger] end.lists_groups(keys, agg.data);
    assert forall|key: Key| #[trigger] keys.contains(key) <==> tally(cols, recs, key) > 0 by {
        law_counts_are_tallies(start, recs, end, key);
    }
    assert forall|i: int| 0 <= i < agg.data.len() implies (#[trigger] agg.data[i]).0 == key_map(
        cols,
        keys[i],
    ) && is_tally(agg.data[i].1, cols, recs, keys[i]) by {
        assert(keys.contains(keys[i]));
        law_counts_are_tallies(start, recs, end, keys[i]);
    }
    assert(lists_tallies(cols, recs, keys, agg.data));
}

/// The sum of the integers in the rows.
pub open spec fn rows_total(rows: Seq<RowView>) -> int
    decreases rows.len(),
{
    if rows.len() == 0 {
        0
    } else {
        rows_total(rows.drop_last()) + match rows.last().1 {
            ValueView::Int(n) => n as int,
            _ => 0,
        }
    }
}

/// How many of the records belong to one of these groups, counted group by group.
spec fn tally_all(key_cols: Seq<Seq<char>>, recs: Seq<RecordView>, keys: Seq<Key>) -> int
    decreases keys.len(),
{
    if keys.len() == 0 {
        0
    } else {
        tally_all(key_cols, recs, keys.drop_last()) + tally(key_cols, recs, keys.last())
    }
}

/// One record more adds one where its group is among these, and nothing otherwise.
proof fn lemma_tally_all_step(key_cols: Seq<Seq<char>>, recs: Seq<RecordView>, keys: Seq<Key>)
    requires
        recs.len() > 0,
        keys.no_duplicates(),
    ensures
        tally_all(key_cols, recs, keys) == tally_all(key_cols, recs.drop_last(), keys)
            + if keys.contains(group_key(key_cols, recs.last())) {
            1int
        } else {
            0int
        },
    decreases keys.len(),
{
    if keys.len() > 0 {
        let key = group_key(key_cols, recs.last());
        let front = keys.drop_last();
        lemma_tally_all_step(key_cols, recs, front);
        if front.contains(key) {
            let j = choose|j: int| 0 <= j < front.len() && front[j] == key;
            assert(keys[j] == key);
            assert(keys[j] != keys[keys.len() - 1]);
        }
        if keys.contains(key) && keys.last() != key {
            let j = choose|j: int| 0 <= j < keys.len() && keys[j] == key;
            assert(front[j] == key);
        }
        if keys.last() == key {
            assert(keys[keys.len() - 1] == key);
        }
    }
}

proof fn lemma_tally_all(key_cols: Seq<Seq<char>>, recs: Seq<RecordView>, keys: Seq<Key>)
    requires
        keys.no_duplicates(),
        forall|i: int|
            0 <= i < recs.len() ==> keys.contains(group_key(key_cols, #[trigger] recs[i])),
    ensures
        tally_all(key_cols, recs, keys) == recs.len(),
    decreases recs.len(),
{
    if recs.len() == 0 {
        lemma_tally_of_none(key_cols, recs, keys);
    } else {
        let front = recs.drop_last();
        assert forall|i: int| 0 <= i < front.len() implies keys.contains(
            group_key(key_cols, #[trigger] front[i]),
        ) by {
            assert(front[i] == recs[i]);
        }
        lemma_tally_all(key_cols, front, keys);
        lemma_tally_all_step(key_cols, recs, keys);
        assert(recs.last() == recs[recs.len() - 1]);
    }
}

proof fn lemma_tally_of_none(key_cols: Seq<Seq<char>>, recs: Seq<RecordView>, keys: Seq<Key>)
    requires
        recs.len() == 0,
    ensures
        tally_all(key_cols, recs, keys) == 0,
    decreases keys.len(),
{
    if keys.len() > 0 {
        lemma_tally_of_none(key_cols, recs, keys.drop_last());
    }
}

proof fn lemma_tally_positive(key_cols: Seq<Seq<char>>, recs: Seq<RecordView>, i: int)
    requires
        0 <= i < recs.len(),
    ensures
        tally(key_cols, recs, group_key(key_cols, recs[i])) > 0,
    decreases recs.len(),
{
    if i < recs.len() - 1 {
        lemma_tally_positive(key_cols, recs.drop_last(), i);
    }
}

proof fn lemma_rows_total(
    key_cols: Seq<Seq<char>>,
    recs: Seq<RecordView>,
    keys: Seq<Key>,
    rows: Seq<RowView>,
)
    requires
        rows.len() == keys.len(),
        forall|i: int|
            0 <= i < rows.len() ==> is_tally((#[trigger] rows[i]).1, key_cols, recs, keys[i]),
    ensures
        rows_total(rows) == tally_all(key_cols, recs, keys),
    decreases rows.len(),
{
    if rows.len() > 0 {
        let front = rows.drop_last();
        assert forall|i: int| 0 <= i < front.len() implies is_tally(
            (#[trigger] front[i]).1,
            key_cols,
            recs,
            keys.drop_last()[i],
        ) by {
            assert(front[i] == rows[i]);
        }
        lemma_rows_total(key_cols, recs, keys.drop_last(), front);
        assert(rows.last() == rows[rows.len() - 1]);
    }
}

/// The counts in a report sum up to the number of all records.
pub proof fn law_counts_sum_up(
    key_cols: Seq<Seq<char>>,
    recs: Seq<RecordView>,
    keys: Seq<Key>,
    rows: Seq<RowView>,
)
    requires
        lists_tallies(key_cols, recs, keys, rows),
    ensures
        rows_total(rows) == recs.len(),
{
    assert forall|i: int| 0 <= i < recs.len() implies keys.contains(
        group_key(key_cols, #[trigger] recs[i]),
    ) by {
        lemma_tally_positive(key_cols, recs, i);
    }
    lemma_tally_all(key_cols, recs, keys);
    lemma_rows_total(key_cols, recs, keys, rows);
}

/// The number of records in a group is the same in whatever order they come.
pub proof fn law_tally_in_any_order(
    key_cols: Seq<Seq<char>>,
    a: Seq<RecordView>,
    b: Seq<RecordView>,
    key: Key,
)
    requires
        a.to_multiset() == b.to_multiset(),
    ensures
        tally(key_cols, a, key) == tally(key_cols, b, key),
{
    let step = |n: nat, rec: RecordView|
        n + if group_key(key_cols, rec) == key {
            1nat
        } else {
            0nat
        };
    lemma_tally_as_fold(key_cols, a, key);
    lemma_tally_as_fold(key_cols, b, key);
    vstd::seq_lib::lemma_fold_left_permutation(a, b, step, 0);
}

proof fn lemma_tally_as_fold(key_cols: Seq<Seq<char>>, recs: Seq<RecordView>, key: Key)
    ensures
        tally(key_cols, recs, key) == recs.fold_left(
            0nat,
            |n: nat, rec: RecordView|
                n + if group_key(key_cols, rec) == key {
                    1nat
                } else {
                    0nat
                },
        ),
    decreases recs.len(),
{
    reveal(Seq::fold_left);
    if recs.len() > 0 {
        lemma_tally_as_fold(key_cols, recs.drop_last(), key);
    }
}

/// Without key columns there is one group, and its count is the number of all records.
pub proof fn law_count_without_keys(
    start: Grouper<Count>,
    recs: Seq<RecordView>,
    end: Grouper<Count>,
)
    requires
        start.groups() == Map::<Key, Count>::empty(),
        start.initial()@ == 0,
        start.key_cols().len() == 0,
        absorbs_all(start, recs, end),
    ensures
        forall|key: Key|
            end.groups().contains_key(key) <==> recs.len() > 0 && key == Seq::<Seq<char>>::empty(),
        recs.len() > 0 ==> end.groups()[Seq::<Seq<char>>::empty()]@ == recs.len(),
{
    let none = Seq::<Seq<char>>::empty();
    lemma_tally_without_keys(start.key_cols(), recs, none);
    law_counts_are_tallies(start, recs, end, none);
    assert forall|key: Key|
        end.groups().contains_key(key) <==> recs.len() > 0 && key == none by {
        lemma_tally_without_keys(start.key_cols(), recs, key);
        law_counts_are_tallies(start, recs, end, key);
    }
}

proof fn lemma_tally_without_keys(key_cols: Seq<Seq<char>>, recs: Seq<RecordView>, key: Key)
    requires
        key_cols.len() == 0,
    ensures
        key == Seq::<Seq<char>>::empty() ==> tally(key_cols, recs, key) == recs.len(),
        key != Seq::<Seq<char>>::empty() ==> tally(key_cols, recs, key) == 0,
    decreases recs.len(),
{
    if recs.len() > 0 {
        lemma_tally_without_keys(key_cols, recs.drop_last(), key);
        assert(group_key(key_cols, recs.last()) =~= Seq::<Seq<char>>::empty());
    }
}

/// What a record says in a column: a text as it is, an integer as its numeral, a double as the
/// text it has, and `$None$` where there is no value or no such field.
pub open spec fn says(rec: RecordView, column: Seq<char>, text: Seq<char>) -> bool {
    if rec.data.contains_key(column) {
        match rec.data[column] {
            ValueView::Str(s) => text == s,
            ValueView::Int(i) => text == decimal(i as int),
            ValueView::Float(f) => text == f.text,
            ValueView::Null => text == "$None$"@,
        }
    } else {
        text == "$None$"@
    }
}

/// Whether a record says in every key column what a row has there.
pub open spec fn agrees(
    rec: RecordView,
    key_cols: Seq<Seq<char>>,
    row: Map<Seq<char>, Seq<char>>,
) -> bool {
    forall|i: int|
        0 <= i < key_cols.len() ==> row.contains_key(#[trigger] key_cols[i]) && says(
            rec,
            key_cols[i],
            row[key_cols[i]],
        )
}

/// The records that agree with a row, in order.
pub open spec fn agreeing(
    recs: Seq<RecordView>,
    key_cols: Seq<Seq<char>>,
    row: Map<Seq<char>, Seq<char>>,
) -> Seq<RecordView>
    decreases recs.len(),
{
    if recs.len() == 0 {
        Seq::empty()
    } else {
        let front = agreeing(recs.drop_last(), key_cols, row);
        if agrees(recs.last(), key_cols, row) {
            front.push(recs.last())
        } else {
            front
        }
    }
}

/// The key of a record has a part for each key column, what the record says there.
pub proof fn law_key_is_what_the_record_says(key_cols: Seq<Seq<char>>, rec: RecordView, i: int)
    requires
        0 <= i < key_cols.len(),
    ensures
        group_key(key_cols, rec).len() == key_cols.len(),
        says(rec, key_cols[i], group_key(key_cols, rec)[i]),
{
}

/// A row has the key columns and no others. Where the columns are distinct it has under each
/// column the part of the key for that column.
pub proof fn law_row_has_the_parts_of_its_key(
    key_cols: Seq<Seq<char>>,
    key: Key,
    column: Seq<char>,
)
    requires
        key.len() == key_cols.len(),
    ensures
        key_map(key_cols, key).contains_key(column) <==> key_cols.contains(column),
        forall|i: int|
            0 <= i < key_cols.len() && key_cols[i] == column && (forall|j: int|
                i < j < key_cols.len() ==> key_cols[j] != column) ==> key_map(key_cols, key)[column]
                == #[trigger] key[i],
        key_cols.no_duplicates() ==> forall|i: int|
            0 <= i < key_cols.len() ==> key_map(key_cols, key)[#[trigger] key_cols[i]] == key[i],
    decreases key_cols.len(),
{
    lemma_key_map(key_cols, key, column);
    if key_cols.no_duplicates() {
        assert forall|i: int| 0 <= i < key_cols.len() implies key_map(key_cols, key)[
            #[trigger] key_cols[i]] == key[i] by {
            lemma_key_map(key_cols, key, key_cols[i]);
            assert forall|j: int| i < j < key_cols.len() implies key_cols[j] != key_cols[i] by {}
            assert(key[i] == key[i]);
        }
    }
}

proof fn lemma_key_map(key_cols: Seq<Seq<char>>, key: Key, column: Seq<char>)
    requires
        key.len() == key_cols.len(),
    ensures
        key_map(key_cols, key).contains_key(column) <==> key_cols.contains(column),
        forall|i: int|
            0 <= i < key_cols.len() && key_cols[i] == column && (forall|j: int|
                i < j < key_cols.len() ==> key_cols[j] != column) ==> key_map(key_cols, key)[column]
                == #[trigger] key[i],
    decreases key_cols.len(),
{
    if key_cols.len() > 0 {
        let cols = key_cols.drop_last();
        let front = key.drop_last();
        let n = key_cols.len() - 1;
        lemma_key_map(cols, front, column);
        assert(key_cols.last() == key_cols[n]);
        if key_cols.contains(column) && key_cols.last() != column {
            let k = choose|k: int| 0 <= k < key_cols.len() && key_cols[k] == column;
            assert(cols[k] == column);
        }
        if cols.contains(column) {
            let k = choose|k: int| 0 <= k < cols.len() && cols[k] == column;
            assert(key_cols[k] == column);
        }
        assert forall|i: int|
            0 <= i < key_cols.len() && key_cols[i] == column && (forall|j: int|
                i < j < key_cols.len() ==> key_cols[j] != column) implies key_map(key_cols, key)[
            column] == #[trigger] key[i] by {
            if i < n {
                assert(key_cols[n] != column);
                assert(cols[i] == column);
                assert forall|j: int| i < j < cols.len() implies cols[j] != column by {
                    assert(cols[j] == key_cols[j]);
                }
                assert(front[i] == key[i]);
            }
        }
    }
}

/// The row of the group of a record has in each key column what the record says there.
proof fn lemma_row_of_record(key_cols: Seq<Seq<char>>, rec: RecordView)
    ensures
        agrees(rec, key_cols, key_map(key_cols, group_key(key_cols, rec))),
{
    let key = group_key(key_cols, rec);
    let row = key_map(key_cols, key);
    assert forall|i: int| 0 <= i < key_cols.len() implies row.contains_key(
        #[trigger] key_cols[i],
    ) && says(rec, key_cols[i], row[key_cols[i]]) by {
        let column = key_cols[i];
        lemma_key_map(key_cols, key, column);
        lemma_last_column(key_cols, column);
        let k = choose|k: int| last_column(key_cols, k, column);
        assert(row[column] == key[k]);
        assert(key[k] == key_part(rec, key_cols[k]));
    }
}

spec fn last_column(key_cols: Seq<Seq<char>>, k: int, column: Seq<char>) -> bool {
    &&& 0 <= k < key_cols.len()
    &&& key_cols[k] == column
    &&& forall|j: int| k < j < key_cols.len() ==> key_cols[j] != column
}

proof fn lemma_last_column(key_cols: Seq<Seq<char>>, column: Seq<char>)
    requires
        key_cols.contains(column),
    ensures
        exists|k: int| last_column(key_cols, k, column),
    decreases key_cols.len(),
{
    let n = key_cols.len() - 1;
    if key_cols[n] == column {
        assert(last_column(key_cols, n, column));
    } else {
        let cols = key_cols.drop_last();
        let i = choose|i: int| 0 <= i < key_cols.len() && key_cols[i] == column;
        assert(cols[i] == column);
        lemma_last_column(cols, column);
        let k = choose|k: int| last_column(cols, k, column);
        assert forall|j: int| k < j < key_cols.len() implies key_cols[j] != column by {
            assert(j < n ==> cols[j] == key_cols[j]);
        }
        assert(last_column(key_cols, k, column));
    }
}

/// A record agrees with the row of another record's group exactly where it is of that group.
proof fn lemma_agrees_means_same_key(key_cols: Seq<Seq<char>>, rec: RecordView, other: RecordView)
    ensures
        agrees(rec, key_cols, key_map(key_cols, group_key(key_cols, other))) <==> group_key(
            key_cols,
            rec,
        ) == group_key(key_cols, other),
{
    let row = key_map(key_cols, group_key(key_cols, other));
    lemma_row_of_record(key_cols, other);
    lemma_row_of_record(key_cols, rec);
    if agrees(rec, key_cols, row) {
        assert forall|i: int| 0 <= i < key_cols.len() implies group_key(key_cols, rec)[i]
            == group_key(key_cols, other)[i] by {
            assert(says(rec, key_cols[i], row[key_cols[i]]));
            assert(says(other, key_cols[i], row[key_cols[i]]));
        }
        assert(group_key(key_cols, rec) =~= group_key(key_cols, other));
    }
}

proof fn lemma_agreeing_is_own(
    key_cols: Seq<Seq<char>>,
    recs: Seq<RecordView>,
    other: RecordView,
)
    ensures
        agreeing(recs, key_cols, key_map(key_cols, group_key(key_cols, other))) == own_records(
            key_cols,
            recs,
            group_key(key_cols, other),
        ),
    decreases recs.len(),
{
    if recs.len() > 0 {
        lemma_agreeing_is_own(key_cols, recs.drop_last(), other);
        lemma_agrees_means_same_key(key_cols, recs.last(), other);
    }
}

proof fn lemma_own_record(key_cols: Seq<Seq<char>>, recs: Seq<RecordView>, key: Key)
    requires
        own_records(key_cols, recs, key).len() > 0,
    ensures
        exists|i: int|
            0 <= i < recs.len() && group_key(key_cols, #[trigger] recs[i]) == key,
    decreases recs.len(),
{
    let last = recs.len() - 1;
    if group_key(key_cols, recs.last()) == key {
        assert(recs[last] == recs.last());
    } else {
        let front = recs.drop_last();
        lemma_own_record(key_cols, front, key);
        let i = choose|i: int|
            0 <= i < front.len() && group_key(key_cols, #[trigger] front[i]) == key;
        assert(recs[i] == front[i]);
    }
}

proof fn lemma_own_nonempty(key_cols: Seq<Seq<char>>, recs: Seq<RecordView>, i: int)
    requires
        0 <= i < recs.len(),
    ensures
        own_records(key_cols, recs, group_key(key_cols, recs[i])).len() > 0,
    decreases recs.len(),
{
    if i < recs.len() - 1 {
        lemma_own_nonempty(key_cols, recs.drop_last(), i);
    }
}

/// Whether a row of a report is right: it has the key columns and no others, there are records
/// that agree with it, and its result is what the aggregate function makes of exactly these, in
/// order.
pub open spec fn row_of_agreeing<T: AggregateFunction>(
    initial: T,
    key_cols: Seq<Seq<char>>,
    recs: Seq<RecordView>,
    row: RowView,
) -> bool {
    &&& forall|column: Seq<char>| #[trigger]
        row.0.contains_key(column) <==> key_cols.contains(column)
    &&& agreeing(recs, key_cols, row.0).len() > 0
    &&& exists|first: T, last: T|
        {
            &&& #[trigger] cloned(initial, first)
            &&& advances_all(first, agreeing(recs, key_cols, row.0), last)
            &&& #[trigger] last.yields(row.1)
        }
}

/// A report has one row for every combination of what the records say in the key columns, and
/// no two rows for the same. Each row has what its records say, and the result of the aggregate
/// function over exactly these records, in order.
pub proof fn law_report_has_a_row_for_each_group<T: AggregateFunction>(
    start: Grouper<T>,
    recs: Seq<RecordView>,
    end: Grouper<T>,
    agg: AggregateView,
)
    requires
        start.groups() == Map::<Key, T>::empty(),
        absorbs_all(start, recs, end),
        end.reports(agg),
    ensures
        agg.key_columns == start.key_cols(),
        agg.agg_column == start.agg_col(),
        forall|i: int|
            0 <= i < agg.data.len() ==> row_of_agreeing(
                start.initial(),
                start.key_cols(),
                recs,
                #[trigger] agg.data[i],
            ),
        forall|j: int|
            0 <= j < recs.len() ==> exists|i: int|
                0 <= i < agg.data.len() && agrees(
                    #[trigger] recs[j],
                    start.key_cols(),
                    (#[trigger] agg.data[i]).0,
                ),
        forall|i: int, j: int|
            0 <= i < j < agg.data.len() ==> (#[trigger] agg.data[i]).0 != (
            #[trigger] agg.data[j]).0,
{
    let cols = start.key_cols();
    law_group_folds_own_records(start, recs, end, Seq::empty());
    let keys = choose|keys: Seq<Key>| #[trigger] end.lists_groups(keys, agg.data);
    assert forall|i: int| 0 <= i < agg.data.len() implies row_of_agreeing(
        start.initial(),
        cols,
        recs,
        #[trigger] agg.data[i],
    ) && exists|k: int|
        0 <= k < recs.len() && keys[i] == group_key(cols, #[trigger] recs[k]) by {
        let key = keys[i];
        assert(keys.contains(key));
        law_group_folds_own_records(start, recs, end, key);
        lemma_own_record(cols, recs, key);
        let k = choose|k: int| 0 <= k < recs.len() && group_key(cols, #[trigger] recs[k]) == key;
        lemma_agreeing_is_own(cols, recs, recs[k]);
        let row = agg.data[i];
        assert(row.0 == key_map(cols, key));
        assert forall|column: Seq<char>| #[trigger] row.0.contains_key(column)
            <==> cols.contains(column) by {
            lemma_key_map(cols, key, column);
        }
        let last = end.groups()[key];
        let first = choose|first: T| #[trigger]
            cloned(start.initial(), first) && advances_all(
                first,
                own_records(cols, recs, key),
                last,
            );
        assert(cloned(start.initial(), first));
        assert(last.yields(row.1));
    }
    assert forall|j: int| 0 <= j < recs.len() implies exists|i: int|
        0 <= i < agg.data.len() && agrees(
            #[trigger] recs[j],
            cols,
            (#[trigger] agg.data[i]).0,
        ) by {
        let key = group_key(cols, recs[j]);
        lemma_own_nonempty(cols, recs, j);
        law_group_folds_own_records(start, recs, end, key);
        assert(keys.contains(key));
        let i = choose|i: int| 0 <= i < keys.len() && keys[i] == key;
        lemma_row_of_record(cols, recs[j]);
        assert(agrees(recs[j], cols, agg.data[i].0));
    }
    assert forall|i: int, j: int| 0 <= i < j < agg.data.len() implies (#[trigger] agg.data[i]).0
        != (#[trigger] agg.data[j]).0 by {
        if agg.data[i].0 == agg.data[j].0 {
            let a = choose|k: int|
                0 <= k < recs.len() && keys[i] == group_key(cols, #[trigger] recs[k]);
            let b = choose|k: int|
                0 <= k < recs.len() && keys[j] == group_key(cols, #[trigger] recs[k]);
            lemma_row_of_record(cols, recs[a]);
            lemma_agrees_means_same_key(cols, recs[a], recs[b]);
            assert(keys[i] == keys[j]);
        }
    }
}

/// Whether a result may be listed before another one: integers and doubles from the greatest
/// down, a NaN before everything else, a missing value before every double but a NaN.
pub open spec fn may_precede(a: ValueView, b: ValueView) -> bool {
    match (a, b) {
        (ValueView::Int(x), ValueView::Int(y)) => x >= y,
        (ValueView::Float(x), ValueView::Float(y)) => bits_of_nan(x.bits) || (!bits_of_nan(y.bits)
            && !double_below(x.bits, y.bits)),
        (ValueView::Float(x), ValueView::Null) => bits_of_nan(x.bits),
        (ValueView::Null, ValueView::Float(y)) => !bits_of_nan(y.bits),
        _ => true,
    }
}

/// The rows of a report are listed from the greatest result down.
pub proof fn law_greatest_result_first<T: AggregateFunction>(
    grouper: Grouper<T>,
    agg: AggregateView,
)
    requires
        grouper.reports(agg),
    ensures
        forall|i: int, j: int|
            0 <= i < j < agg.data.len() ==> may_precede(
                (#[trigger] agg.data[i]).1,
                (#[trigger] agg.data[j]).1,
            ),
{
    assert forall|i: int, j: int| 0 <= i < j < agg.data.len() implies may_precede(
        (#[trigger] agg.data[i]).1,
        (#[trigger] agg.data[j]).1,
    ) by {
        law_what_sorts_before(agg.data[i].1, agg.data[j].1);
        law_what_sorts_before(agg.data[j].1, agg.data[i].1);
    }
}

/// A grouper has room for as many records as its aggregate function has before the first one.
pub proof fn law_room_before_the_first_record<T: AggregateFunction>(grouper: Grouper<T>, n: nat)
    requires
        grouper.groups() == Map::<Key, T>::empty(),
    ensures
        grouper.can_take(n) <==> grouper.initial().can_take(n),
{
}

/// The views of a list of string slices are those of the slices, one for one and in order.
pub proof fn law_str_views(texts: Seq<&str>)
    ensures
        str_views(texts).len() == texts.len(),
        forall|i: int| 0 <= i < texts.len() ==> #[trigger] str_views(texts)[i] == texts[i]@,
{
}

} // verus!
