//! A JSON value as plain data.
use vstd::prelude::*;

use crate::text;

verus! {

#[derive(Debug)]
pub enum Json {
    Null,
    Bool(bool),
    /// A number, as it is written.
    Number(String),
    Text(String),
    List(Vec<Json>),
    Object(Vec<(String, Json)>),
}

/// What `serde_json` makes of a text: the value it holds, or what is wrong with it.
pub uninterp spec fn json_of(text: Seq<char>) -> Result<Json, String>;

/// `serde_json::from_str` into a `serde_json::Value`: the value, one for one, or the error's
/// message. Either is a function of the text alone; which it is of a given text is left unsaid.
#[verifier::external_body]
pub(crate) fn read_json(text: &str) -> (r: Result<Json, String>)
    ensures
        r == json_of(text@),
{
    match serde_json::from_str::<serde_json::Value>(text) {
        Ok(value) => Ok(plain(value)),
        Err(error) => Err(error.to_string()),
    }
}

/// The value `serde_json` reads, opaque here.
#[verifier::external_type_specification]
#[verifier::external_body]
pub struct ExValue(serde_json::Value);

/// A `serde_json::Value` with its variants renamed, item by item.
#[verifier::external_body]
fn plain(value: serde_json::Value) -> Json {
    match value {
        serde_json::Value::Null => Json::Null,
        serde_json::Value::Bool(b) => Json::Bool(b),
        serde_json::Value::Number(n) => Json::Number(n.to_string()),
        serde_json::Value::String(s) => Json::Text(s),
        serde_json::Value::Array(items) => Json::List(items.into_iter().map(plain).collect()),
        serde_json::Value::Object(map) => Json::Object(
            map.into_iter().map(|(key, item)| (key, plain(item))).collect(),
        ),
    }
}

/// A hexadecimal digit.
pub open spec fn hex_digit(n: int) -> char {
    "0123456789abcdef"@[n]
}

/// A character as a JSON string holds it.
pub open spec fn escaped(c: char) -> Seq<char> {
    if c == '"' || c == '\\' {
        seq!['\\', c]
    } else if c == '\u{8}' {
        seq!['\\', 'b']
    } else if c == '\t' {
        seq!['\\', 't']
    } else if c == '\n' {
        seq!['\\', 'n']
    } else if c == '\u{c}' {
        seq!['\\', 'f']
    } else if c == '\r' {
        seq!['\\', 'r']
    } else if c as int <= 31 {
        "\\u00"@ + seq![hex_digit(c as int / 16), hex_digit(c as int % 16)]
    } else {
        seq![c]
    }
}

/// The characters of a text as a JSON string holds them.
pub open spec fn escaped_all(s: Seq<char>) -> Seq<char>
    decreases s.len(),
{
    if s.len() == 0 {
        Seq::empty()
    } else {
        escaped(s[0]) + escaped_all(s.drop_first())
    }
}

/// A text as a JSON string.
pub open spec fn json_text(s: Seq<char>) -> Seq<char> {
    "\""@ + escaped_all(s) + "\""@
}

/// `serde_json::to_string` of a string: the text between quotes, with quotes, backslashes and
/// control characters escaped.
#[verifier::external_body]
pub(crate) fn write_text(s: &str) -> (r: String)
    ensures
        r@ == json_text(s@),
{
    serde_json::to_string(s).expect("a string always serialises")
}

/// The value of the field `name`.
pub open spec fn field_of(fields: Seq<(String, Json)>, name: Seq<char>) -> Option<Json>
    decreases fields.len(),
{
    if fields.len() == 0 {
        None
    } else if fields[0].0@ == name {
        Some(fields[0].1)
    } else {
        field_of(fields.drop_first(), name)
    }
}

/// The value of the field `name`.
pub fn field<'a>(fields: &'a Vec<(String, Json)>, name: &str) -> (r: Option<&'a Json>)
    ensures
        match r {
            Some(value) => field_of(fields@, name@) == Some(*value),
            None => field_of(fields@, name@) is None,
        },
{
    let mut i: usize = 0;
    assert(fields@.skip(0) =~= fields@);
    while i < fields.len()
        invariant
            i <= fields@.len(),
            field_of(fields@, name@) == field_of(fields@.skip(i as int), name@),
        decreases fields@.len() - i,
    {
        if text::same(fields[i].0.as_str(), name) {
            return Some(&fields[i].1);
        }
        assert(fields@.skip(i as int).drop_first() =~= fields@.skip(i + 1));
        i = i + 1;
    }
    None
}

/// The text of the field `name`, where it is one.
pub open spec fn text_field(fields: Seq<(String, Json)>, name: Seq<char>) -> Option<Seq<char>> {
    match field_of(fields, name) {
        Some(Json::Text(s)) => Some(s@),
        _ => None,
    }
}

/// The text of the field `name`, where it is one.
pub fn get_text<'a>(fields: &'a Vec<(String, Json)>, name: &str) -> (r: Option<&'a String>)
    ensures
        match r {
            Some(s) => text_field(fields@, name@) == Some(s@) && field_of(fields@, name@) == Some(
                Json::Text(*s),
            ),
            None => text_field(fields@, name@) is None,
        },
{
    match field(fields, name) {
        Some(Json::Text(s)) => Some(s),
        _ => None,
    }
}

/// The object has one field of that name, and this is its value.
pub open spec fn has_field(fields: Seq<(String, Json)>, name: Seq<char>, value: Json) -> bool {
    exists|i: int|
        0 <= i < fields.len() && (#[trigger] fields[i]).0@ == name && fields[i].1 == value && forall|
            j: int,
        |
            0 <= j < fields.len() && j != i ==> (#[trigger] fields[j]).0@ != name
}

/// The object has no field of that name.
pub open spec fn has_no_field(fields: Seq<(String, Json)>, name: Seq<char>) -> bool {
    forall|j: int| 0 <= j < fields.len() ==> (#[trigger] fields[j]).0@ != name
}

/// A field is looked up by its name, wherever in the object it stands.
pub proof fn law_a_field_is_found_by_its_name(
    fields: Seq<(String, Json)>,
    name: Seq<char>,
    value: Json,
)
    ensures
        has_field(fields, name, value) ==> field_of(fields, name) == Some(value),
        has_no_field(fields, name) <==> field_of(fields, name) is None,
        field_of(fields, name) == Some(value) ==> exists|i: int|
            0 <= i < fields.len() && (#[trigger] fields[i]).0@ == name && fields[i].1 == value,
    decreases fields.len(),
{
    if fields.len() > 0 {
        let rest = fields.drop_first();
        law_a_field_is_found_by_its_name(rest, name, value);
        if fields[0].0@ != name {
            if has_field(fields, name, value) {
                let i = choose|i: int|
                    0 <= i < fields.len() && (#[trigger] fields[i]).0@ == name && fields[i].1
                        == value && forall|j: int|
                        0 <= j < fields.len() && j != i ==> (#[trigger] fields[j]).0@ != name;
                assert(rest[i - 1] == fields[i]);
                assert forall|j: int| 0 <= j < rest.len() && j != i - 1 implies (
                #[trigger] rest[j]).0@ != name by {
                    assert(rest[j] == fields[j + 1]);
                }
            }
            if has_no_field(rest, name) {
                assert forall|j: int| 0 <= j < fields.len() implies (#[trigger] fields[j]).0@
                    != name by {
                    if j > 0 {
                        assert(rest[j - 1] == fields[j]);
                    }
                }
            }
            if has_no_field(fields, name) {
                assert forall|j: int| 0 <= j < rest.len() implies (#[trigger] rest[j]).0@
                    != name by {
                    assert(rest[j] == fields[j + 1]);
                }
            }
            if field_of(fields, name) == Some(value) {
                let i = choose|i: int|
                    0 <= i < rest.len() && (#[trigger] rest[i]).0@ == name && rest[i].1 == value;
                assert(fields[i + 1] == rest[i]);
            }
        } else {
            if has_field(fields, name, value) {
                let i = choose|i: int|
                    0 <= i < fields.len() && (#[trigger] fields[i]).0@ == name && fields[i].1
                        == value && forall|j: int|
                        0 <= j < fields.len() && j != i ==> (#[trigger] fields[j]).0@ != name;
                assert(i == 0);
            }
        }
    }
}

} // verus!
