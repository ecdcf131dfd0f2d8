//! JSON values: what a cell of a result travels as.

use crate::text;
use serde_json::Value;
use vstd::prelude::*;
use vstd::string::*;

verus! {

/// A JSON value. A number is the text JSON writes it as, so no digit of it is lost.
#[derive(Debug)]
pub enum Json {
    Null,
    Bool(bool),
    Number(String),
    Text(String),
    Array(Vec<Json>),
    Object(Vec<(String, Json)>),
}

/// What a [`Json`] says.
#[verifier::ext_equal]
pub enum JsonView {
    Null,
    Bool(bool),
    Number(Seq<char>),
    Text(Seq<char>),
    Array(Seq<JsonView>),
    Object(Seq<(Seq<char>, JsonView)>),
}

impl View for Json {
    type V = JsonView;

    open spec fn view(&self) -> JsonView {
        said(*self)
    }
}

pub open spec fn said(json: Json) -> JsonView
    decreases json,
{
    match json {
        Json::Null => JsonView::Null,
        Json::Bool(b) => JsonView::Bool(b),
        Json::Number(n) => JsonView::Number(n@),
        Json::Text(t) => JsonView::Text(t@),
        Json::Array(items) => JsonView::Array(
            Seq::new(
                items@.len(),
                |i: int|
                    if 0 <= i < items@.len() {
                        said(items@[i])
                    } else {
                        JsonView::Null
                    },
            ),
        ),
        Json::Object(fields) => JsonView::Object(
            Seq::new(
                fields@.len(),
                |i: int|
                    if 0 <= i < fields@.len() {
                        (fields@[i].0@, said(fields@[i].1))
                    } else {
                        (Seq::empty(), JsonView::Null)
                    },
            ),
        ),
    }
}

/// `serde_json::Value`: a JSON document as `serde_json` holds it.
#[verifier::external_type_specification]
#[verifier::external_body]
pub struct ExValue(serde_json::Value);

/// The compact text `serde_json` writes that document as.
pub uninterp spec fn value_text(value: Value) -> Seq<char>;

/// The compact text `serde_json` writes what it makes of that JSON as.
pub uninterp spec fn json_text(json: JsonView) -> Seq<char>;

/// What that document says.
pub uninterp spec fn value_tree(value: Value) -> JsonView;

/// The indented text `serde_json` writes that document as.
pub uninterp spec fn value_pretty(value: Value) -> Seq<char>;

/// The indented text `serde_json` writes what it makes of that JSON as.
pub uninterp spec fn json_pretty(json: JsonView) -> Seq<char>;

/// What `serde_json` reads that text as, if it is JSON.
pub uninterp spec fn parsed(text: Seq<char>) -> Option<JsonView>;

/// An object of objects, whose values are texts, truths and whole numbers and whose names
/// are all different and nobody's own: what every writer and reader of JSON agrees on.
pub open spec fn is_simple(json: JsonView) -> bool {
    json matches JsonView::Object(fields) && names_differ(fields) && names_are_free(fields)
        && forall|i: int| 0 <= i < fields.len() ==> is_flat((#[trigger] fields[i]).1)
}

pub open spec fn is_flat(json: JsonView) -> bool {
    json matches JsonView::Object(fields) && names_differ(fields) && names_are_free(fields)
        && forall|i: int|
        0 <= i < fields.len() ==> match (#[trigger] fields[i]).1 {
            JsonView::Bool(_) | JsonView::Text(_) => true,
            JsonView::Number(n) => exists|k: u64| n == #[trigger] text::decimal(k as nat),
            _ => false,
        }
}

pub open spec fn names_differ(fields: Seq<(Seq<char>, JsonView)>) -> bool {
    forall|i: int, j: int|
        #![trigger fields[i], fields[j]]
        0 <= i < j < fields.len() ==> fields[i].0 != fields[j].0
}

/// No name is one that `serde_json` marks values of its own with: an object that begins
/// with such a name is not read as an object.
pub open spec fn names_are_free(fields: Seq<(Seq<char>, JsonView)>) -> bool {
    forall|i: int|
        0 <= i < fields.len() ==> !text::starts_with(
            (#[trigger] fields[i]).0,
            "$serde_json::private::"@,
        )
}

/// `serde_json::Value`, built of the same parts. What it is written as is a function of
/// them, and where they are simple it says what they say, names in the same order since
/// `preserve_order` is on. What `serde_json` does with a name that occurs twice, or a
/// number it holds as another, is left unsaid.
#[verifier::external_body]
fn value_of(json: &Json) -> (v: Value)
    ensures
        value_text(v) == json_text(json@),
        value_pretty(v) == json_pretty(json@),
        is_simple(json@) ==> value_tree(v) == json@,
{
    match json {
        Json::Null => Value::Null,
        Json::Bool(b) => Value::Bool(*b),
        Json::Number(n) => n.parse().map_or(Value::Null, Value::Number),
        Json::Text(t) => Value::String(t.clone()),
        Json::Array(items) => Value::Array(items.iter().map(value_of).collect()),
        Json::Object(fields) => Value::Object(
            fields.iter().map(|field| (field.0.clone(), value_of(&field.1))).collect(),
        ),
    }
}

/// The parts of a `serde_json::Value`, one for one.
#[verifier::external_body]
fn tree_of(value: &Value) -> (r: Json)
    ensures
        r@ == value_tree(*value),
{
    match value {
        Value::Null => Json::Null,
        Value::Bool(b) => Json::Bool(*b),
        Value::Number(n) => Json::Number(n.to_string()),
        Value::String(t) => Json::Text(t.clone()),
        Value::Array(items) => Json::Array(items.iter().map(tree_of).collect()),
        Value::Object(fields) => Json::Object(
            fields.iter().map(|(name, field)| (name.clone(), tree_of(field))).collect(),
        ),
    }
}

/// `serde_json::from_str`: the document a text is, and none where it is not JSON. Which it
/// is is a function of the text.
#[verifier::external_body]
fn value_from(text: &str) -> (r: Option<Value>)
    ensures
        match r {
            Some(value) => parsed(text@) == Some(value_tree(value)),
            None => parsed(text@) is None,
        },
{
    serde_json::from_str(text).ok()
}

/// `Display` of `serde_json::Value` in its alternate form: the document over several
/// lines. Of a simple one it is stated that the text, with a line break after it, reads
/// back as the same. Of one with a name that `serde_json` keeps for itself, which it reads
/// back as something else, nothing is.
#[verifier::external_body]
fn pretty_of(value: &Value) -> (r: String)
    ensures
        r@ == value_pretty(*value),
        is_simple(value_tree(*value)) ==> parsed(r@ + "\n"@) == Some(value_tree(*value)),
{
    format!("{value:#}")
}

/// The value a text is JSON for, if it is.
pub fn read(text: &str) -> (r: Option<Json>)
    ensures
        match r {
            Some(json) => parsed(text@) == Some(json@),
            None => parsed(text@) is None,
        },
{
    match value_from(text) {
        Some(value) => Some(tree_of(&value)),
        None => None,
    }
}

/// A simple value over several lines, the last of them ended: what is kept in a file
/// that people read.
pub fn kept(json: &Json) -> (r: String)
    requires
        is_simple(json@),
    ensures
        r@ == json_pretty(json@) + "\n"@,
        parsed(r@) == Some(json@),
{
    pretty_of(&value_of(json)).concat("\n")
}

/// What an object says of a name: the first field of that name.
pub open spec fn field(fields: Seq<(Seq<char>, JsonView)>, name: Seq<char>) -> Option<JsonView>
    decreases fields.len(),
{
    if fields.len() == 0 {
        None
    } else if fields[0].0 == name {
        Some(fields[0].1)
    } else {
        field(fields.skip(1), name)
    }
}

pub open spec fn fields_view(fields: Seq<(String, Json)>) -> Seq<(Seq<char>, JsonView)> {
    Seq::new(fields.len(), |i: int| (fields[i].0@, fields[i].1@))
}

/// Where the field of a name is.
pub fn place(fields: &Vec<(String, Json)>, name: &str) -> (r: Option<usize>)
    ensures
        match r {
            Some(at) => at < fields.len() && fields@[at as int].0@ == name@ && field(
                fields_view(fields@),
                name@,
            ) == Some(fields@[at as int].1@) && forall|i: int|
                0 <= i < at ==> (#[trigger] fields@[i]).0@ != name@,
            None => field(fields_view(fields@), name@) is None && forall|i: int|
                0 <= i < fields.len() ==> (#[trigger] fields@[i]).0@ != name@,
        },
{
    let ghost all = fields_view(fields@);
    let mut i: usize = 0;
    assert(all.skip(0) =~= all);
    while i < fields.len()
        invariant
            i <= fields.len(),
            all == fields_view(fields@),
            field(all, name@) == field(all.skip(i as int), name@),
            forall|j: int| 0 <= j < i ==> (#[trigger] fields@[j]).0@ != name@,
        decreases fields.len() - i,
    {
        assert(all.skip(i as int)[0] == all[i as int]);
        assert(all.skip(i as int).skip(1) =~= all.skip(i as int + 1));
        if text::same(&fields[i].0, name) {
            return Some(i);
        }
        i = i + 1;
    }
    None
}

/// `Display` of `serde_json::Value`: its compact text.
#[verifier::external_body]
fn text_of(value: &Value) -> (r: String)
    ensures
        r@ == value_text(*value),
{
    value.to_string()
}

/// A value as one line of JSON.
pub fn written(json: &Json) -> (r: String)
    ensures
        r@ == json_text(json@),
{
    text_of(&value_of(json))
}

/// Values reach an engine as text, and are cast there: text as it is, a number in its
/// digits, nothing for null, and a list or an object as JSON.
pub open spec fn plain(json: JsonView) -> Option<Seq<char>> {
    match json {
        JsonView::Null => None,
        JsonView::Bool(b) => Some(text::truth(b)),
        JsonView::Number(n) => Some(n),
        JsonView::Text(t) => Some(t),
        _ => Some(json_text(json)),
    }
}

pub fn as_text(value: &Json) -> (r: Option<String>)
    ensures
        text::opt(r) == plain(value@),
{
    match value {
        Json::Null => None,
        Json::Bool(b) => Some(text::truth_of(*b).to_owned()),
        Json::Number(n) => Some(n.clone()),
        Json::Text(t) => Some(t.clone()),
        _ => Some(written(value)),
    }
}

/// The value for a whole number.
pub open spec fn whole(n: int) -> JsonView {
    JsonView::Number(text::signed(n))
}

pub fn whole_of(n: i64) -> (r: Json)
    ensures
        r@ == whole(n as int),
{
    Json::Number(text::signed_of(n as i128))
}

/// A field is the first that has the name, and there is none only where none has it.
pub proof fn law_a_field_is_the_first_of_its_name(
    fields: Seq<(Seq<char>, JsonView)>,
    name: Seq<char>,
)
    ensures
        match field(fields, name) {
            Some(value) => exists|i: int|
                {
                    &&& 0 <= i < fields.len()
                    &&& #[trigger] fields[i] == (name, value)
                    &&& forall|j: int| 0 <= j < i ==> (#[trigger] fields[j]).0 != name
                },
            None => forall|i: int| 0 <= i < fields.len() ==> (#[trigger] fields[i]).0 != name,
        },
    decreases fields.len(),
{
    if fields.len() > 0 {
        if fields[0].0 == name {
            assert(fields[0] == (name, fields[0].1));
        } else {
            let rest = fields.skip(1);
            law_a_field_is_the_first_of_its_name(rest, name);
            match field(rest, name) {
                Some(value) => {
                    let i = choose|i: int|
                        {
                            &&& 0 <= i < rest.len()
                            &&& #[trigger] rest[i] == (name, value)
                            &&& forall|j: int| 0 <= j < i ==> (#[trigger] rest[j]).0 != name
                        };
                    assert(fields[i + 1] == (name, value));
                    assert forall|j: int| 0 <= j < i + 1 implies (#[trigger] fields[j]).0
                        != name by {
                        if j > 0 {
                            assert(rest[j - 1] == fields[j]);
                        }
                    }
                },
                None => {
                    assert forall|i: int| 0 <= i < fields.len() implies (#[trigger] fields[i]).0
                        != name by {
                        if i > 0 {
                            assert(rest[i - 1] == fields[i]);
                        }
                    }
                },
            }
        }
    }
}

/// A value on its way to an engine is nothing only where it is null, and a scalar is what
/// it is: a text unchanged, a number in its digits, a truth in a word.
pub proof fn law_a_value_travels_as_what_it_is(json: JsonView)
    ensures
        plain(json) is None <==> json is Null,
        json matches JsonView::Text(t) ==> plain(json) == Some(t),
        json matches JsonView::Number(n) ==> plain(json) == Some(n),
        json == JsonView::Bool(true) ==> plain(json) == Some("true"@),
        json == JsonView::Bool(false) ==> plain(json) == Some("false"@),
        json is Array || json is Object ==> plain(json) == Some(json_text(json)),
{
}

} // verus!
