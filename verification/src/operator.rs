//! What the stages of a pipeline have in common.
use vstd::prelude::*;

use crate::data::Aggregate;
use crate::data::AggregateView;
use crate::data::Record;
use crate::data::RecordView;
use crate::data::Row;
use crate::data::Value;
use crate::data::ValueView;

verus! {

/// A stage that turns each record into another one, or drops it.
pub trait UnaryPreAggOperator {
    /// Whether a record of this line goes on to the next stage.
    spec fn accepts(&self, raw: Seq<char>) -> bool;

    /// Whether `next` may be what the stage makes of a record that it accepts.
    spec fn produces(&self, rec: RecordView, next: RecordView) -> bool;

    /// Turns a record into what goes on to the next stage. The line stays as it is.
    fn process(&self, rec: &Record) -> (next: Option<Record>)
        ensures
            next is Some <==> self.accepts(rec@.raw),
            next matches Some(r) ==> self.produces(rec@, r@) && r@.raw == rec@.raw,
    ;
}

/// A stage that collects records and reports on all that it has collected.
pub trait AggregateOperator: Sized {
    /// Whether the stage is in order.
    spec fn wf(&self) -> bool;

    /// Whether the stage has room for this many records more.
    spec fn can_take(&self, n: nat) -> bool;

    /// Whether `next` may be the stage after it has taken a record.
    spec fn absorbs(self, rec: RecordView, next: Self) -> bool;

    /// Whether `agg` may be the report of the stage.
    spec fn reports(self, agg: AggregateView) -> bool;

    /// Where there is room for one more there is room for fewer.
    proof fn lemma_less_room(self, n: nat)
        requires
            self.can_take(n + 1),
        ensures
            self.can_take(n),
    ;

    /// Tells whether there is room for this many records more.
    fn has_room(&self, n: usize) -> (room: bool)
        requires
            self.wf(),
        ensures
            room == self.can_take(n as nat),
    ;

    /// Reports on all records so far.
    fn emit(&self) -> (agg: Aggregate)
        requires
            self.wf(),
        ensures
            self.reports(agg@),
    ;

    /// Takes a record. A row that is itself a report cannot be taken.
    fn process(&mut self, row: &Row)
        requires
            old(self).wf(),
            old(self).can_take(1),
            row is Record,
        ensures
            final(self).wf(),
            old(self).absorbs(row->Record_0@, *final(self)),
            forall|n: nat| #[trigger] old(self).can_take(n + 1) ==> final(self).can_take(n),
    ;
}

/// Whether a stage may be as `next` after it has taken these records, in order.
pub open spec fn absorbs_all<A: AggregateOperator>(
    start: A,
    recs: Seq<RecordView>,
    next: A,
) -> bool
    decreases recs.len(),
{
    if recs.len() == 0 {
        next == start
    } else {
        exists|mid: A|
            #[trigger] mid.absorbs(recs.last(), next) && absorbs_all(start, recs.drop_last(), mid)
    }
}

/// What is computed of the records of one group.
pub trait AggregateFunction: Clone {
    /// Whether there is room for this many records more.
    spec fn can_take(&self, n: nat) -> bool;

    /// Whether `next` may be the state after a record.
    spec fn advances(self, rec: RecordView, next: Self) -> bool;

    /// Whether `value` may be the result.
    spec fn yields(self, value: ValueView) -> bool;

    /// Where there is room for one more there is room for fewer.
    proof fn lemma_less_room(self, n: nat)
        requires
            self.can_take(n + 1),
        ensures
            self.can_take(n),
    ;

    /// A record takes the room of one.
    proof fn lemma_advance_room(self, rec: RecordView, next: Self, n: nat)
        requires
            self.advances(rec, next),
            self.can_take(n + 1),
        ensures
            next.can_take(n),
    ;

    /// A copy has the same room.
    proof fn lemma_clone_room(self, copy: Self, n: nat)
        requires
            cloned(self, copy),
            self.can_take(n),
        ensures
            copy.can_take(n),
    ;

    /// Tells whether there is room for this many records more.
    fn has_room(&self, n: usize) -> (room: bool)
        ensures
            room == self.can_take(n as nat),
    ;

    /// Takes a record.
    fn process(&mut self, rec: &Record)
        requires
            old(self).can_take(1),
        ensures
            old(self).advances(rec@, *final(self)),
    ;

    /// The result.
    fn emit(&self) -> (value: Value)
        ensures
            self.yields(value@),
    ;
}

/// Whether an aggregate function may be as `next` after it has taken these records, in order.
pub open spec fn advances_all<T: AggregateFunction>(
    start: T,
    recs: Seq<RecordView>,
    next: T,
) -> bool
    decreases recs.len(),
{
    if recs.len() == 0 {
        next == start
    } else {
        exists|mid: T|
            #[trigger] mid.advances(recs.last(), next) && advances_all(
                start,
                recs.drop_last(),
                mid,
            )
    }
}

} // verus!
