//! Fields taken from a line that is a JSON object.
use serde_json::Value as Json;
use vstd::prelude::*;

use crate::data::Record;
use crate::data::RecordView;
use crate::data::Value;
use crate::data::ValueView;
use crate::data::last_place;
use crate::data::law_fields_put_twice;
use crate::data::law_values_become_fields;
use crate::data::with_fields;
use crate::float::Float;
use crate::float::FloatView;
use crate::float::float_view;
use crate::operator::UnaryPreAggOperator;

verus! {

broadcast use vstd::string::group_string_axioms;

/// A member of a JSON object. What is inside an array or an object is not kept.
#[derive(Debug)]
pub enum Member {
    /// `null`.
    Null,
    /// `true` or `false`.
    Bool(bool),
    /// A number: as a 64-bit integer, where it is one, and as a double.
    Number(Option<i64>, Option<Float>),
    /// A string.
    Text(String),
    /// An array.
    Array,
    /// An object.
    Object,
}

/// A JSON text: the members of an object, or something else.
#[derive(Debug)]
pub enum Document {
    /// An object, with the names and values of its members.
    Object(Vec<(String, Member)>),
    /// Any other value.
    Other,
}

/// What a [`Member`] holds.
pub enum MemberView {
    Null,
    Bool(bool),
    Number(Option<i64>, Option<FloatView>),
    Text(Seq<char>),
    Array,
    Object,
}

/// What a [`Document`] holds.
pub enum DocumentView {
    Object(Seq<(Seq<char>, MemberView)>),
    Other,
}

impl View for Member {
    type V = MemberView;

    open spec fn view(&self) -> MemberView {
        match self {
            Member::Null => MemberView::Null,
            Member::Bool(b) => MemberView::Bool(*b),
            Member::Number(whole, float) => MemberView::Number(*whole, float_view(*float)),
            Member::Text(s) => MemberView::Text(s@),
            Member::Array => MemberView::Array,
            Member::Object => MemberView::Object,
        }
    }
}

/// What the members of an object hold.
pub open spec fn members_view(members: Seq<(String, Member)>) -> Seq<(Seq<char>, MemberView)> {
    Seq::new(members.len(), |i: int| (members[i].0@, members[i].1@))
}

impl View for Document {
    type V = DocumentView;

    open spec fn view(&self) -> DocumentView {
        match self {
            Document::Object(members) => DocumentView::Object(members_view(members@)),
            Document::Other => DocumentView::Other,
        }
    }
}

/// What a document holds, where there is one.
pub open spec fn document_view(doc: Option<Document>) -> Option<DocumentView> {
    match doc {
        Some(d) => Some(d@),
        None => None,
    }
}

/// What `serde_json` reads in a text, where the text is JSON.
pub uninterp spec fn json_document(text: Seq<char>) -> Option<DocumentView>;

/// The names of the members.
pub open spec fn member_names(members: Seq<(Seq<char>, MemberView)>) -> Seq<Seq<char>> {
    Seq::new(members.len(), |i: int| members[i].0)
}

/// No two members of an object have the same name.
pub open spec fn distinct_names(doc: Option<DocumentView>) -> bool {
    doc matches Some(DocumentView::Object(members)) ==> member_names(members).no_duplicates()
}

/// Every number is an integer or a double.
pub open spec fn numbers_known(doc: Option<DocumentView>) -> bool {
    doc matches Some(DocumentView::Object(members)) ==> forall|i: int|
        0 <= i < members.len() && (#[trigger] members[i]).1 is Number
            ==> members[i].1->Number_0 is Some || members[i].1->Number_1 is Some
}

/// `serde_json::from_str` into a `serde_json::Value`, with `Number::as_i64` and
/// `Number::as_f64` of its numbers: a function of the text alone. The members of an object
/// are those of a map, so no name occurs twice, and `as_f64` has an answer for every number.
/// A double comes with its bits and with the text that `to_string` shows it as.
#[verifier::external_body]
fn read_json(text: &str) -> (doc: Option<Document>)
    ensures
        document_view(doc) == json_document(text@),
        numbers_known(document_view(doc)),
        distinct_names(document_view(doc)),
{
    let value: Json = serde_json::from_str(text).ok()?;
    let Json::Object(map) = value else { return Some(Document::Other) };
    let member = |value| match value {
        Json::Null => Member::Null,
        Json::Bool(b) => Member::Bool(b),
        Json::Number(n) => {
            let float = n.as_f64().map(|x| Float { bits: x.to_bits(), text: x.to_string() });
            Member::Number(n.as_i64(), float)
        },
        Json::String(s) => Member::Text(s),
        Json::Array(_) => Member::Array,
        Json::Object(_) => Member::Object,
    };
    Some(Document::Object(map.into_iter().map(|(name, value)| (name, member(value))).collect()))
}

/// Whether a member can be the value of a field.
pub open spec fn is_simple(member: MemberView) -> bool {
    member is Null || member is Number || member is Text
}

/// Whether every member can be the value of a field.
pub open spec fn all_simple(members: Seq<(Seq<char>, MemberView)>) -> bool {
    forall|i: int| 0 <= i < members.len() ==> is_simple((#[trigger] members[i]).1)
}

/// The value of the field for a member: an integer where the number is one in 64 bits, else a
/// double.
pub open spec fn field_value(member: MemberView) -> ValueView {
    match member {
        MemberView::Number(Some(i), _) => ValueView::Int(i),
        MemberView::Number(None, Some(f)) => ValueView::Float(f),
        MemberView::Text(s) => ValueView::Str(s),
        _ => ValueView::Null,
    }
}

/// The values of the fields for the members.
pub open spec fn field_values(members: Seq<(Seq<char>, MemberView)>) -> Seq<ValueView> {
    Seq::new(members.len(), |i: int| field_value(members[i].1))
}

/// The record with a field for each member of the object.
pub open spec fn with_members(
    rec: RecordView,
    members: Seq<(Seq<char>, MemberView)>,
) -> RecordView {
    with_fields(rec, member_names(members), field_values(members))
}

/// Whether a record of a line in which this was read goes on: the line is a JSON object, and
/// every member of it can be the value of a field.
pub open spec fn is_flat(doc: Option<DocumentView>) -> bool {
    doc matches Some(DocumentView::Object(members)) && all_simple(members)
}

/// A stage that reads the line as JSON and puts the members of the object into fields.
#[derive(Debug)]
pub struct ParseJson {}

impl ParseJson {
    /// Puts the members of a document into fields.
    pub fn apply(&self, rec: &Record, doc: Option<Document>) -> (next: Option<Record>)
        requires
            numbers_known(document_view(doc)),
        ensures
            next is Some <==> is_flat(document_view(doc)),
            next matches Some(r) ==> r@ == with_members(rec@, document_view(doc)->0->Object_0)
                && r@.raw == rec@.raw,
    {
        let members = match doc {
            Some(Document::Object(members)) => members,
            _ => {
                return None;
            },
        };
        let ghost all = members_view(members@);
        let ghost names = member_names(all);
        let ghost values = field_values(all);
        let mut next = rec.clone();
        let mut i: usize = 0;
        while i < members.len()
            invariant
                i <= members.len(),
                all == members_view(members@),
                names == member_names(all),
                document_view(doc) == Some(DocumentView::Object(all)),
                numbers_known(document_view(doc)),
                values == field_values(all),
                forall|j: int| 0 <= j < i ==> is_simple((#[trigger] all[j]).1),
                next@ == with_fields(rec@, names.take(i as int), values.take(i as int)),
                next@.raw == rec@.raw,
            decreases members.len() - i,
        {
            assert(all[i as int] == (members@[i as int].0@, members@[i as int].1@));
            let value = match &members[i].1 {
                Member::Number(Some(whole), _) => Value::Int(*whole),
                Member::Number(None, Some(float)) => Value::Float(float.clone()),
                Member::Text(s) => Value::Str(s.clone()),
                Member::Null => Value::Null,
                _ => {
                    assert(!is_simple(all[i as int].1));
                    return None;
                },
            };
            assert(value@ == values[i as int]);
            assert(values.take(i + 1).drop_last() =~= values.take(i as int));
            assert(names.take(i + 1).drop_last() =~= names.take(i as int));
            next = next.put(members[i].0.as_str(), value);
            i = i + 1;
        }
        assert(names.take(i as int) =~= names);
        assert(values.take(i as int) =~= values);
        Some(next)
    }
}

impl UnaryPreAggOperator for ParseJson {
    open spec fn accepts(&self, raw: Seq<char>) -> bool {
        is_flat(json_document(raw))
    }

    open spec fn produces(&self, rec: RecordView, next: RecordView) -> bool {
        let doc = json_document(rec.raw);
        &&& is_flat(doc)
        &&& numbers_known(doc)
        &&& distinct_names(doc)
        &&& next == with_members(rec, doc->0->Object_0)
    }

    fn process(&self, rec: &Record) -> (next: Option<Record>) {
        let doc = read_json(rec.raw.as_str());
        self.apply(rec, doc)
    }
}

/// Whether a value is that of a member: exactly the characters of a string, the integer of a
/// number that is one in 64 bits, the double of any other number, no value for `null`.
pub open spec fn same_value(member: MemberView, value: ValueView) -> bool {
    match value {
        ValueView::Str(s) => member == MemberView::Text(s),
        ValueView::Int(i) => member is Number && member->Number_0 == Some(i),
        ValueView::Float(f) => member == MemberView::Number(None, Some(f)),
        ValueView::Null => member == MemberView::Null,
    }
}

/// A line passes exactly where it is a JSON object of strings, numbers and `null`: one array,
/// one object or one `true` or `false` among the members stops it.
pub proof fn law_which_lines_are_read(stage: ParseJson, raw: Seq<char>)
    ensures
        !(json_document(raw) matches Some(DocumentView::Object(_))) ==> !stage.accepts(raw),
        json_document(raw) matches Some(DocumentView::Object(members)) ==> (stage.accepts(raw)
            <==> forall|i: int|
            0 <= i < members.len() ==> !((#[trigger] members[i]).1 is Bool || members[i].1 is Array
                || members[i].1 is Object)),
{
}

/// Every member of a document is found again in the field of its name, a string as a text of
/// exactly its characters and a number as a number. Where a name occurs twice the later member
/// counts. The fields that are no members stay as they were, and so does the line.
pub proof fn law_documents_become_fields(
    rec: RecordView,
    members: Seq<(Seq<char>, MemberView)>,
    i: int,
    name: Seq<char>,
)
    requires
        is_flat(Some(DocumentView::Object(members))),
        numbers_known(Some(DocumentView::Object(members))),
        0 <= i < members.len(),
        forall|j: int| i < j < members.len() ==> (#[trigger] members[j]).0 != members[i].0,
    ensures
        with_members(rec, members).data.contains_key(members[i].0),
        same_value(members[i].1, with_members(rec, members).data[members[i].0]),
        (forall|j: int| 0 <= j < members.len() ==> (#[trigger] members[j]).0 != name) ==> (
        with_members(rec, members).data.contains_key(name) <==> rec.data.contains_key(name)) && (
        rec.data.contains_key(name) ==> with_members(rec, members).data[name] == rec.data[name]),
        with_members(rec, members).raw == rec.raw,
{
    let names = member_names(members);
    let values = field_values(members);
    let own = members[i].0;
    law_values_become_fields(rec, names, values, own);
    law_values_become_fields(rec, names, values, name);
    assert(names[i] == own);
    assert forall|j: int| i < j < names.len() implies #[trigger] names[j] != own by {
        assert(members[j].0 != own);
    }
    assert(last_place(names, i, own));
    assert(with_members(rec, members).field(own) == Some(values[i]));
    assert(is_simple(members[i].1));
    if forall|j: int| 0 <= j < members.len() ==> (#[trigger] members[j]).0 != name {
        assert forall|j: int| 0 <= j < names.len() implies names[j] != name by {
            assert(members[j].0 != name);
        }
        assert(!names.contains(name));
        assert(with_members(rec, members).field(name) == rec.field(name));
    }
}

/// Every member of the object is found again in the field of its name, a string as a text of
/// exactly its characters and a number as a number. The record has no fields but these and
/// those it had, which stay as they were.
pub proof fn law_members_become_fields(
    stage: ParseJson,
    rec: RecordView,
    next: RecordView,
    name: Seq<char>,
)
    requires
        stage.produces(rec, next),
    ensures
        json_document(rec.raw) matches Some(DocumentView::Object(members)) && {
            &&& forall|i: int|
                0 <= i < members.len() && (#[trigger] members[i]).0 == name
                    ==> next.data.contains_key(name) && same_value(
                    members[i].1,
                    next.data[name],
                )
            &&& (forall|i: int| 0 <= i < members.len() ==> (#[trigger] members[i]).0 != name) ==> (
            next.data.contains_key(name) <==> rec.data.contains_key(name)) && (
            rec.data.contains_key(name) ==> next.data[name] == rec.data[name])
        },
        next.raw == rec.raw,
{
    let members = json_document(rec.raw)->0->Object_0;
    let names = member_names(members);
    law_values_become_fields(rec, names, field_values(members), name);
    assert forall|i: int|
        0 <= i < members.len() && (#[trigger] members[i]).0 == name implies next.data.contains_key(
        name,
    ) && same_value(members[i].1, next.data[name]) by {
        assert(names[i] == name);
        assert forall|j: int| i < j < members.len() implies (#[trigger] members[j]).0
            != members[i].0 by {
            assert(names[j] != names[i]);
        }
        law_documents_become_fields(rec, members, i, name);
    }
    if forall|i: int| 0 <= i < members.len() ==> (#[trigger] members[i]).0 != name {
        assert forall|j: int| 0 <= j < names.len() implies names[j] != name by {
            assert(members[j].0 != name);
        }
        assert(!names.contains(name));
        assert(next.field(name) == rec.field(name));
    }
}

/// A record becomes one record only, and goes through the stage a second time unchanged.
pub proof fn law_second_reading_changes_nothing(
    stage: ParseJson,
    rec: RecordView,
    next: RecordView,
)
    requires
        stage.produces(rec, next),
    ensures
        stage.accepts(next.raw),
        forall|other: RecordView| #[trigger] stage.produces(rec, other) ==> other == next,
        forall|again: RecordView| #[trigger] stage.produces(next, again) <==> again == next,
{
    let members = json_document(rec.raw)->0->Object_0;
    let names = member_names(members);
    law_values_become_fields(rec, names, field_values(members), Seq::empty());
    law_fields_put_twice(rec, names, field_values(members));
}

/// A document holds what it is made of, member by member and in order.
pub proof fn law_document_holds(doc: Document, member: Member)
    ensures
        doc matches Document::Object(members) ==> doc@ is Object && doc@->Object_0.len()
            == members@.len() && forall|i: int|
            0 <= i < members@.len() ==> #[trigger] doc@->Object_0[i] == (
                members@[i].0@,
                members@[i].1@,
            ),
        doc is Other ==> doc@ is Other,
        document_view(Some(doc)) == Some(doc@),
        document_view(None) is None,
        member matches Member::Text(s) ==> member@ == MemberView::Text(s@),
        member matches Member::Number(whole, Some(f)) ==> member@ == MemberView::Number(
            whole,
            Some(FloatView { bits: f.bits, text: f.text@ }),
        ),
        member matches Member::Number(whole, None) ==> member@ == MemberView::Number(whole, None),
        member matches Member::Bool(b) ==> member@ == MemberView::Bool(b),
        member is Null ==> member@ is Null,
        member is Array ==> member@ is Array,
        member is Object ==> member@ is Object,
{
}

} // verus!
