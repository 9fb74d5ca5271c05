//! A batch of edits as text: one JSON object per line, or blocks fenced off under `@@` headers.
use vstd::prelude::*;
use vstd::utf8::encode_utf8;

use crate::edit::spec::{asked_all, Asked, AskedOp, EditOp, EditSpec};
use crate::error::{
    all_usage, is_usage, is_usage_failure, message_of, messages, note, usage, usage_failure, Error,
};
use crate::json::{
    field, field_of, has_field, has_no_field, json_of, law_a_field_is_found_by_its_name, read_json,
    text_field, Json,
};
use crate::output::{is_sha, AnchorSide, Sha12};
use crate::text;
use crate::text::{
    decimal, decimal_of, is_blank, joined, law_trimming_takes_white_space_alone, lines_of, texts,
    trimmed,
};

verus! {

/// `raw` without the `sha:` it may begin with.
pub open spec fn sha_digits(raw: Seq<char>) -> Seq<char> {
    if "sha:"@.is_prefix_of(raw) {
        raw.skip("sha:"@.len() as int)
    } else {
        raw
    }
}

/// What is wrong with an `--if` that is no hash.
pub open spec fn if_message(target: Seq<char>) -> Seq<char> {
    target + ": --if takes sha: and 12 or more hex digits"@
}

pub fn parse_if(raw: Option<&str>, target: &str) -> (r: Result<Option<Sha12>, Error>)
    ensures
        match r {
            Ok(None) => raw is None,
            Ok(Some(sha)) => raw is Some && is_sha(sha_digits(raw->0@)) && sha.hex@ == sha_digits(
                raw->0@,
            ).take(12),
            Err(e) => raw is Some && !is_sha(sha_digits(raw->0@)) && is_usage(
                e,
                if_message(target@),
            ),
        },
{
    let raw = match raw {
        Some(raw) => raw,
        None => return Ok(None),
    };
    let digits = match text::strip_prefix(raw, "sha:") {
        Some(rest) => {
            assert(raw@.skip("sha:"@.len() as int) =~= rest@);
            assert("sha:"@.is_prefix_of(raw@)) by {
                assert(raw@.take("sha:"@.len() as int) =~= "sha:"@);
            }
            rest
        },
        None => raw,
    };
    match Sha12::parse(digits) {
        Some(sha) => Ok(Some(sha)),
        None => Err(
            usage(target.to_owned().concat(": --if takes sha: and 12 or more hex digits")),
        ),
    }
}

/// How a message about line `number` begins.
pub open spec fn at_line(number: nat) -> Seq<char> {
    "line "@ + decimal_of(number) + ": "@
}

pub fn line_prefix(number: usize) -> (r: String)
    ensures
        r@ == at_line(number as nat),
{
    "line ".to_owned().concat(decimal(number).as_str()).concat(": ")
}

/// A key that an edit's object may have.
pub open spec fn is_known_key(key: Seq<char>) -> bool {
    ||| key == "file"@
    ||| key == "old"@
    ||| key == "new"@
    ||| key == "insert_after"@
    ||| key == "insert_before"@
    ||| key == "if"@
    ||| key == "normalize"@
}

fn known_key(key: &str) -> (r: bool)
    ensures
        r == is_known_key(key@),
{
    text::same(key, "file") || text::same(key, "old") || text::same(key, "new") || text::same(
        key,
        "insert_after",
    ) || text::same(key, "insert_before") || text::same(key, "if") || text::same(key, "normalize")
}

/// A complaint about each of the first `n` keys that an edit has no use for.
pub open spec fn unknown_keys(fields: Seq<(String, Json)>, number: nat, n: int) -> Seq<Seq<char>>
    decreases n,
{
    if n <= 0 {
        Seq::empty()
    } else if is_known_key(fields[n - 1].0@) {
        unknown_keys(fields, number, n - 1)
    } else {
        unknown_keys(fields, number, n - 1).push(
            at_line(number) + "unknown key \""@ + fields[n - 1].0@ + "\""@,
        )
    }
}

pub open spec fn only_if(wrong: bool, message: Seq<char>) -> Seq<Seq<char>> {
    if wrong {
        seq![message]
    } else {
        Seq::empty()
    }
}

/// A field that is there is a text.
pub open spec fn not_text(
    fields: Seq<(String, Json)>,
    number: nat,
    name: Seq<char>,
) -> Seq<Seq<char>> {
    only_if(
        field_of(fields, name) is Some && text_field(fields, name) is None,
        at_line(number) + "\""@ + name + "\" must be a string"@,
    )
}

/// A field that has to be there is.
pub open spec fn lacks(
    fields: Seq<(String, Json)>,
    number: nat,
    name: Seq<char>,
) -> Seq<Seq<char>> {
    only_if(field_of(fields, name) is None, at_line(number) + "no \""@ + name + "\""@)
}

/// Which of the three keys that say where an edit goes the object has.
pub open spec fn anchor_keys(fields: Seq<(String, Json)>) -> Seq<Seq<char>> {
    only_if(field_of(fields, "old"@) is Some, "old"@) + only_if(
        field_of(fields, "insert_after"@) is Some,
        "insert_after"@,
    ) + only_if(field_of(fields, "insert_before"@) is Some, "insert_before"@)
}

/// An edit goes to exactly one place.
pub open spec fn misplaced(fields: Seq<(String, Json)>, number: nat) -> Seq<Seq<char>> {
    let keys = anchor_keys(fields);
    only_if(
        keys.len() != 1,
        at_line(number)
            + "exactly one of \"old\", \"insert_after\" or \"insert_before\" is required \u{b7} found "@
            + (if keys.len() == 0 {
            "none"@
        } else {
            joined(keys, ", "@)
        }),
    )
}

/// An `if` that is a text is a hash.
pub open spec fn bad_if(fields: Seq<(String, Json)>, number: nat) -> Seq<Seq<char>> {
    only_if(
        text_field(fields, "if"@) is Some && !is_sha(sha_digits(text_field(fields, "if"@)->0)),
        if_message("line "@ + decimal_of(number)),
    )
}

/// `normalize`, where it is there, is a bool.
pub open spec fn bad_normalize(fields: Seq<(String, Json)>, number: nat) -> Seq<Seq<char>> {
    only_if(
        field_of(fields, "normalize"@) is Some && !(field_of(fields, "normalize"@)->0 is Bool),
        at_line(number) + "\"normalize\" must be a bool"@,
    )
}

/// Everything that is wrong with an edit's object, in the order in which it is told.
pub open spec fn object_problems(fields: Seq<(String, Json)>, number: nat) -> Seq<Seq<char>> {
    unknown_keys(fields, number, fields.len() as int) + not_text(fields, number, "file"@)
        + not_text(fields, number, "old"@) + not_text(fields, number, "new"@) + not_text(
        fields,
        number,
        "insert_after"@,
    ) + not_text(fields, number, "insert_before"@) + not_text(fields, number, "if"@) + lacks(
        fields,
        number,
        "file"@,
    ) + lacks(fields, number, "new"@) + bad_normalize(fields, number) + misplaced(fields, number)
        + bad_if(fields, number)
}

/// The edit that an object with nothing wrong with it asks for.
pub open spec fn object_asks(fields: Seq<(String, Json)>) -> Asked {
    let new = encode_utf8(text_field(fields, "new"@)->0);
    Asked {
        raw: text_field(fields, "file"@)->0,
        op: if field_of(fields, "insert_after"@) is Some {
            AskedOp::Insert {
                side: AnchorSide::After,
                anchor: text_field(fields, "insert_after"@)->0,
                new,
            }
        } else if field_of(fields, "insert_before"@) is Some {
            AskedOp::Insert {
                side: AnchorSide::Before,
                anchor: text_field(fields, "insert_before"@)->0,
                new,
            }
        } else {
            AskedOp::Replace {
                old: encode_utf8(text_field(fields, "old"@)->0),
                new,
                all: false,
            }
        },
        sha: match text_field(fields, "if"@) {
            Some(raw) => Some(sha_digits(raw).take(12)),
            None => None,
        },
        normalize: field_of(fields, "normalize"@) == Some(Json::Bool(true)),
        literal: false,
    }
}

fn note_unknown(fields: &Vec<(String, Json)>, number: usize, errors: &mut Vec<Error>)
    requires
        old(errors)@.len() == 0,
    ensures
        all_usage(final(errors)@),
        messages(final(errors)@) == unknown_keys(fields@, number as nat, fields@.len() as int),
{
    let mut i: usize = 0;
    assert(messages(errors@) =~= Seq::empty());
    while i < fields.len()
        invariant
            i <= fields@.len(),
            all_usage(errors@),
            messages(errors@) == unknown_keys(fields@, number as nat, i as int),
        decreases fields@.len() - i,
    {
        let key = fields[i].0.as_str();
        if !known_key(key) {
            note(errors, line_prefix(number).concat("unknown key \"").concat(key).concat("\""));
        }
        i = i + 1;
    }
}

fn note_if(wrong: bool, message: String, errors: &mut Vec<Error>)
    requires
        all_usage(old(errors)@),
    ensures
        all_usage(final(errors)@),
        messages(final(errors)@) == messages(old(errors)@) + only_if(wrong, message@),
{
    let ghost before = messages(errors@);
    if wrong {
        note(errors, message);
    }
    assert(messages(errors@) =~= before + only_if(wrong, message@));
}

/// The field's text; a field that is there and is no text is noted.
fn string_field(
    fields: &Vec<(String, Json)>,
    name: &str,
    number: usize,
    errors: &mut Vec<Error>,
) -> (r: Option<String>)
    requires
        all_usage(old(errors)@),
    ensures
        all_usage(final(errors)@),
        messages(final(errors)@) == messages(old(errors)@) + not_text(
            fields@,
            number as nat,
            name@,
        ),
        match r {
            Some(s) => text_field(fields@, name@) == Some(s@),
            None => text_field(fields@, name@) is None,
        },
{
    let found = field(fields, name);
    let r = match found {
        Some(Json::Text(s)) => Some(s.clone()),
        _ => None,
    };
    note_if(
        found.is_some() && r.is_none(),
        line_prefix(number).concat("\"").concat(name).concat("\" must be a string"),
        errors,
    );
    r
}

fn note_lacking(
    fields: &Vec<(String, Json)>,
    name: &str,
    number: usize,
    errors: &mut Vec<Error>,
)
    requires
        all_usage(old(errors)@),
    ensures
        all_usage(final(errors)@),
        messages(final(errors)@) == messages(old(errors)@) + lacks(fields@, number as nat, name@),
{
    note_if(
        field(fields, name).is_none(),
        line_prefix(number).concat("no \"").concat(name).concat("\""),
        errors,
    );
}

fn anchors_found(fields: &Vec<(String, Json)>) -> (keys: Vec<String>)
    ensures
        texts(keys@) == anchor_keys(fields@),
{
    let mut keys: Vec<String> = Vec::new();
    if field(fields, "old").is_some() {
        keys.push("old".to_owned());
    }
    assert(texts(keys@) =~= only_if(field_of(fields@, "old"@) is Some, "old"@));
    let ghost one = texts(keys@);
    if field(fields, "insert_after").is_some() {
        keys.push("insert_after".to_owned());
    }
    assert(texts(keys@) =~= one + only_if(
        field_of(fields@, "insert_after"@) is Some,
        "insert_after"@,
    ));
    let ghost two = texts(keys@);
    if field(fields, "insert_before").is_some() {
        keys.push("insert_before".to_owned());
    }
    assert(texts(keys@) =~= two + only_if(
        field_of(fields@, "insert_before"@) is Some,
        "insert_before"@,
    ));
    keys
}

/// The edit an object asks for, or everything that is wrong with it.
pub fn object_edit(fields: &Vec<(String, Json)>, number: usize) -> (r: Result<EditSpec, Vec<Error>>)
    ensures
        match r {
            Ok(spec) => object_problems(fields@, number as nat).len() == 0 && spec.asked()
                == object_asks(fields@),
            Err(errors) => errors@.len() > 0 && all_usage(errors@) && messages(errors@)
                == object_problems(fields@, number as nat),
        },
{
    let ghost f = fields@;
    let ghost n = number as nat;
    let mut errors: Vec<Error> = Vec::new();
    note_unknown(fields, number, &mut errors);
    let file = string_field(fields, "file", number, &mut errors);
    let old = string_field(fields, "old", number, &mut errors);
    let new = string_field(fields, "new", number, &mut errors);
    let insert_after = string_field(fields, "insert_after", number, &mut errors);
    let insert_before = string_field(fields, "insert_before", number, &mut errors);
    let if_field = string_field(fields, "if", number, &mut errors);
    note_lacking(fields, "file", number, &mut errors);
    note_lacking(fields, "new", number, &mut errors);
    let normalize = field(fields, "normalize");
    let odd = match normalize {
        None | Some(Json::Bool(_)) => false,
        Some(_) => true,
    };
    note_if(odd, line_prefix(number).concat("\"normalize\" must be a bool"), &mut errors);
    let keys = anchors_found(fields);
    note_if(
        keys.len() != 1,
        line_prefix(number).concat(
            "exactly one of \"old\", \"insert_after\" or \"insert_before\" is required \u{b7} found ",
        ).concat(
            if keys.len() == 0 {
                "none".to_owned()
            } else {
                text::join(&keys, ", ")
            }.as_str(),
        ),
        &mut errors,
    );
    let mut if_sha: Option<Sha12> = None;
    let ghost so_far = messages(errors@);
    if let Some(raw) = if_field {
        let target = "line ".to_owned().concat(decimal(number).as_str());
        match parse_if(Some(raw.as_str()), target.as_str()) {
            Ok(sha) => {
                if_sha = sha;
            },
            Err(error) => {
                let ghost before = errors@;
                errors.push(error);
                assert(messages(errors@) =~= so_far.push(message_of(error)));
            },
        }
    }
    assert(messages(errors@) =~= so_far + bad_if(f, n));
    assert(messages(errors@) == object_problems(f, n));
    if errors.len() > 0 {
        return Err(errors);
    }
    proof {
        lemma_no_problems(f, n);
    }
    let file = file.unwrap();
    let new = new.unwrap().as_str().as_bytes_vec();
    let op = if let Some(anchor) = insert_after {
        EditOp::Insert { side: AnchorSide::After, anchor, new }
    } else if let Some(anchor) = insert_before {
        EditOp::Insert { side: AnchorSide::Before, anchor, new }
    } else {
        EditOp::Replace { old: old.unwrap().as_str().as_bytes_vec(), new, all: false }
    };
    let normalize = match normalize {
        Some(Json::Bool(b)) => *b,
        _ => false,
    };
    Ok(EditSpec { raw: file, op, if_sha, normalize, literal_newlines: false })
}

/// What the fields are like where nothing is wrong.
proof fn lemma_no_problems(f: Seq<(String, Json)>, n: nat)
    requires
        object_problems(f, n).len() == 0,
    ensures
        text_field(f, "file"@) is Some,
        text_field(f, "new"@) is Some,
        anchor_keys(f).len() == 1,
        field_of(f, "insert_after"@) is Some <==> text_field(f, "insert_after"@) is Some,
        field_of(f, "insert_before"@) is Some <==> text_field(f, "insert_before"@) is Some,
        field_of(f, "insert_after"@) is None && field_of(f, "insert_before"@) is None
            ==> text_field(f, "old"@) is Some,
        field_of(f, "normalize"@) is None || field_of(f, "normalize"@)->0 is Bool,
        text_field(f, "if"@) is Some ==> is_sha(sha_digits(text_field(f, "if"@)->0)),
{
    assert(not_text(f, n, "file"@).len() == 0);
    assert(lacks(f, n, "file"@).len() == 0);
}

/// Everything that is wrong with a line of the batch, given what it reads as.
pub open spec fn line_problems(read: Result<Json, String>, number: nat) -> Seq<Seq<char>> {
    match read {
        Err(message) => seq![at_line(number) + message@],
        Ok(Json::Object(fields)) => object_problems(fields@, number),
        Ok(_) => seq![at_line(number) + "expected a JSON object"@],
    }
}

/// The edit that a line with nothing wrong with it asks for.
pub open spec fn line_asks(read: Result<Json, String>) -> Asked {
    object_asks(read->Ok_0->Object_0@)
}

/// The edit of a line that reads as `read`.
pub fn line_edit(read: Result<Json, String>, number: usize) -> (r: Result<EditSpec, Vec<Error>>)
    ensures
        match r {
            Ok(spec) => line_problems(read, number as nat).len() == 0 && spec.asked() == line_asks(
                read,
            ),
            Err(errors) => errors@.len() > 0 && all_usage(errors@) && messages(errors@)
                == line_problems(read, number as nat),
        },
{
    let mut errors: Vec<Error> = Vec::new();
    match read {
        Ok(Json::Object(fields)) => return object_edit(&fields, number),
        Err(message) => {
            note(&mut errors, line_prefix(number).concat(message.as_str()));
        },
        Ok(_) => {
            note(&mut errors, line_prefix(number).concat("expected a JSON object"));
        },
    }
    assert(messages(errors@) =~= line_problems(read, number as nat));
    Err(errors)
}

/// The edit a line of JSON asks for, or everything that is wrong with it.
pub fn jsonl_line(line: &str, number: usize) -> (r: Result<EditSpec, Vec<Error>>)
    ensures
        match r {
            Ok(spec) => line_problems(json_of(line@), number as nat).len() == 0 && spec.asked()
                == line_asks(json_of(line@)),
            Err(errors) => errors@.len() > 0 && all_usage(errors@) && messages(errors@)
                == line_problems(json_of(line@), number as nat),
        },
{
    line_edit(read_json(line), number)
}

/// Everything that is wrong with the first `n` lines; a blank line is no edit.
pub open spec fn jsonl_problems(lines: Seq<Seq<char>>, n: int) -> Seq<Seq<char>>
    decreases n,
{
    if n <= 0 {
        Seq::empty()
    } else if trimmed(lines[n - 1]).len() == 0 {
        jsonl_problems(lines, n - 1)
    } else {
        jsonl_problems(lines, n - 1) + line_problems(json_of(lines[n - 1]), n as nat)
    }
}

/// What the first `n` lines ask for.
pub open spec fn jsonl_asks(lines: Seq<Seq<char>>, n: int) -> Seq<Asked>
    decreases n,
{
    if n <= 0 {
        Seq::empty()
    } else if trimmed(lines[n - 1]).len() == 0 || line_problems(
        json_of(lines[n - 1]),
        n as nat,
    ).len() > 0 {
        jsonl_asks(lines, n - 1)
    } else {
        jsonl_asks(lines, n - 1).push(line_asks(json_of(lines[n - 1])))
    }
}

/// The outcome of reading a batch in which `problems` are wrong and which asks for `asks`: every
/// problem, or every edit in order.
pub open spec fn is_batch(
    r: Result<Vec<EditSpec>, Error>,
    problems: Seq<Seq<char>>,
    asks: Seq<Asked>,
) -> bool {
    match r {
        Ok(specs) => problems.len() == 0 && asked_all(specs@) == asks,
        Err(error) => problems.len() > 0 && is_usage_failure(error, problems),
    }
}

fn add_all(errors: &mut Vec<Error>, more: Vec<Error>)
    requires
        all_usage(old(errors)@),
        all_usage(more@),
    ensures
        all_usage(final(errors)@),
        messages(final(errors)@) == messages(old(errors)@) + messages(more@),
{
    let ghost before = errors@;
    let mut more = more;
    let ghost added = more@;
    errors.append(&mut more);
    assert(errors@ =~= before + added);
    assert(messages(errors@) =~= messages(before) + messages(added));
}

/// One JSON object per line.
pub fn parse_jsonl(batch: &str) -> (r: Result<Vec<EditSpec>, Error>)
    ensures
        ({
            let lines = lines_of(batch@);
            is_batch(
                r,
                jsonl_problems(lines, lines.len() as int),
                jsonl_asks(lines, lines.len() as int),
            )
        }),
{
    let lines = text::lines(batch);
    let ghost model = lines_of(batch@);
    let mut specs: Vec<EditSpec> = Vec::new();
    let mut errors: Vec<Error> = Vec::new();
    let mut i: usize = 0;
    assert(messages(errors@) =~= Seq::empty());
    assert(asked_all(specs@) =~= Seq::empty());
    while i < lines.len()
        invariant
            i <= lines@.len(),
            texts(lines@) == model,
            all_usage(errors@),
            messages(errors@) == jsonl_problems(model, i as int),
            asked_all(specs@) == jsonl_asks(model, i as int),
        decreases lines@.len() - i,
    {
        let line = lines[i].as_str();
        assert(texts(lines@)[i as int] == line@);
        if !text::trim(line).is_empty() {
            match jsonl_line(line, i + 1) {
                Ok(spec) => {
                    let ghost before = specs@;
                    specs.push(spec);
                    assert(asked_all(specs@) =~= asked_all(before).push(spec.asked()));
                    assert(messages(errors@) =~= jsonl_problems(model, i as int) + line_problems(
                        json_of(line@),
                        (i + 1) as nat,
                    ));
                },
                Err(more) => {
                    add_all(&mut errors, more);
                },
            }
        }
        i = i + 1;
    }
    match usage_failure(errors) {
        Some(failure) => Err(failure),
        None => Ok(specs),
    }
}

/// One line of a batch that names a file, the text to put in, and one place for it asks for just
/// that: `"old"` gives way to the new text, once; after or before the anchor the new text is
/// inserted.
pub proof fn law_a_line_asks_for_what_stands_in_it(
    spec: EditSpec,
    fields: Vec<(String, Json)>,
    number: nat,
    file: String,
    new: String,
    old: String,
    anchor: String,
)
    requires
        line_problems(Ok(Json::Object(fields)), number).len() == 0,
        spec.asked() == line_asks(Ok(Json::Object(fields))),
        has_field(fields@, "file"@, Json::Text(file)),
        has_field(fields@, "new"@, Json::Text(new)),
    ensures
        spec.raw@ == file@,
        has_field(fields@, "old"@, Json::Text(old)) ==> (spec.op matches EditOp::Replace {
            old: o,
            new: w,
            all: false,
        } && o@ == encode_utf8(old@) && w@ == encode_utf8(new@)),
        has_field(fields@, "insert_after"@, Json::Text(anchor)) ==> (spec.op matches EditOp::Insert {
            side: AnchorSide::After,
            anchor: a,
            new: w,
        } && a@ == anchor@ && w@ == encode_utf8(new@)),
        has_field(fields@, "insert_before"@, Json::Text(anchor)) ==> (
        spec.op matches EditOp::Insert { side: AnchorSide::Before, anchor: a, new: w } && a@
            == anchor@ && w@ == encode_utf8(new@)),
        has_no_field(fields@, "old"@) ==> spec.op is Insert,
        has_no_field(fields@, "insert_after"@) && has_no_field(fields@, "insert_before"@)
            ==> spec.op is Replace,
        has_no_field(fields@, "if"@) ==> spec.if_sha is None,
        has_no_field(fields@, "normalize"@) ==> !spec.normalize,
        has_field(fields@, "normalize"@, Json::Bool(true)) ==> spec.normalize,
        has_field(fields@, "normalize"@, Json::Bool(false)) ==> !spec.normalize,
        !spec.literal_newlines,
{
    let f = fields@;
    lemma_no_problems(f, number);
    law_a_field_is_found_by_its_name(f, "file"@, Json::Text(file));
    law_a_field_is_found_by_its_name(f, "new"@, Json::Text(new));
    law_a_field_is_found_by_its_name(f, "old"@, Json::Text(old));
    law_a_field_is_found_by_its_name(f, "insert_after"@, Json::Text(anchor));
    law_a_field_is_found_by_its_name(f, "insert_before"@, Json::Text(anchor));
    law_a_field_is_found_by_its_name(f, "if"@, Json::Null);
    law_a_field_is_found_by_its_name(f, "normalize"@, Json::Bool(true));
    law_a_field_is_found_by_its_name(f, "normalize"@, Json::Bool(false));
}

/// A line that asks for an edit is an object that names a file and a new text, says in exactly one
/// way where it goes, has a hash of hexadecimal digits where it has one, and has no other field; and
/// every such line asks for one.
pub proof fn law_a_line_is_taken_where_it_is_whole(
    fields: Vec<(String, Json)>,
    number: nat,
    file: String,
    new: String,
    place: String,
    key: Seq<char>,
)
    requires
        has_field(fields@, "file"@, Json::Text(file)),
        has_field(fields@, "new"@, Json::Text(new)),
        key == "old"@ || key == "insert_after"@ || key == "insert_before"@,
        has_field(fields@, key, Json::Text(place)),
    ensures
        fields@.len() == 3 ==> line_problems(Ok(Json::Object(fields)), number).len() == 0,
        forall|i: int|
            0 <= i < fields@.len() && (#[trigger] fields@[i]).0@ != "file"@ && fields@[i].0@
                != "new"@ && fields@[i].0@ != key && fields@[i].0@ != "if"@ && fields@[i].0@
                != "normalize"@ ==> line_problems(Ok(Json::Object(fields)), number).len() > 0,
{
    let f = fields@;
    lemma_names_differ();
    law_a_field_is_found_by_its_name(f, "file"@, Json::Text(file));
    law_a_field_is_found_by_its_name(f, "new"@, Json::Text(new));
    law_a_field_is_found_by_its_name(f, key, Json::Text(place));
    if f.len() == 3 {
        lemma_no_other_field(f, file, new, place, key);
        lemma_none_unknown(f, number, 3);
    }
    assert forall|i: int| 0 <= i < f.len() && (#[trigger] f[i]).0@ != "file"@ && f[i].0@ != "new"@
        && f[i].0@ != key && f[i].0@ != "if"@ && f[i].0@ != "normalize"@ implies line_problems(
        Ok(Json::Object(fields)),
        number,
    ).len() > 0 by {
        if is_known_key(f[i].0@) {
            law_a_field_is_found_by_its_name(f, f[i].0@, f[i].1);
            assert(!has_no_field(f, f[i].0@));
            assert(anchor_keys(f).len() > 1);
            assert(misplaced(f, number).len() > 0);
        } else {
            lemma_some_unknown(f, number, i, f.len() as int);
        }
    }
}

proof fn lemma_names_differ()
    ensures
        "file"@ != "old"@ && "file"@ != "new"@ && "file"@ != "insert_after"@ && "file"@
            != "insert_before"@ && "file"@ != "if"@ && "file"@ != "normalize"@,
        "old"@ != "new"@ && "old"@ != "insert_after"@ && "old"@ != "insert_before"@ && "old"@
            != "if"@ && "old"@ != "normalize"@,
        "new"@ != "insert_after"@ && "new"@ != "insert_before"@ && "new"@ != "if"@ && "new"@
            != "normalize"@,
        "insert_after"@ != "insert_before"@ && "insert_after"@ != "if"@ && "insert_after"@
            != "normalize"@,
        "insert_before"@ != "if"@ && "insert_before"@ != "normalize"@,
{
    reveal_strlit("file");
    reveal_strlit("old");
    reveal_strlit("new");
    reveal_strlit("insert_after");
    reveal_strlit("insert_before");
    reveal_strlit("if");
    reveal_strlit("normalize");
    assert("file"@.len() == 4 && "old"@.len() == 3 && "new"@.len() == 3 && "insert_after"@.len()
        == 12 && "insert_before"@.len() == 13 && "if"@.len() == 2 && "normalize"@.len() == 9);
    assert("old"@[0] != "new"@[0]);
}

proof fn lemma_no_other_field(
    f: Seq<(String, Json)>,
    file: String,
    new: String,
    place: String,
    key: Seq<char>,
)
    requires
        f.len() == 3,
        has_field(f, "file"@, Json::Text(file)),
        has_field(f, "new"@, Json::Text(new)),
        key == "old"@ || key == "insert_after"@ || key == "insert_before"@,
        has_field(f, key, Json::Text(place)),
    ensures
        forall|i: int| 0 <= i < 3 ==> is_known_key((#[trigger] f[i]).0@),
        forall|name: Seq<char>|
            name != "file"@ && name != "new"@ && name != key ==> #[trigger] field_of(f, name) is None,
{
    lemma_names_differ();
    let a = choose|i: int| 0 <= i < f.len() && (#[trigger] f[i]).0@ == "file"@;
    let b = choose|i: int| 0 <= i < f.len() && (#[trigger] f[i]).0@ == "new"@;
    let c = choose|i: int| 0 <= i < f.len() && (#[trigger] f[i]).0@ == key;
    assert forall|i: int| 0 <= i < 3 implies (#[trigger] f[i]).0@ == "file"@ || f[i].0@ == "new"@
        || f[i].0@ == key by {
        assert(i == a || i == b || i == c);
    }
    assert forall|name: Seq<char>| name != "file"@ && name != "new"@ && name != key
        implies #[trigger] field_of(f, name) is None by {
        law_a_field_is_found_by_its_name(f, name, Json::Null);
    }
}

proof fn lemma_none_unknown(fields: Seq<(String, Json)>, number: nat, n: int)
    requires
        0 <= n <= fields.len(),
        forall|i: int| 0 <= i < n ==> is_known_key((#[trigger] fields[i]).0@),
    ensures
        unknown_keys(fields, number, n).len() == 0,
    decreases n,
{
    if n > 0 {
        lemma_none_unknown(fields, number, n - 1);
        assert(is_known_key(fields[n - 1].0@));
    }
}

proof fn lemma_some_unknown(fields: Seq<(String, Json)>, number: nat, i: int, n: int)
    requires
        0 <= i < n <= fields.len(),
        !is_known_key(fields[i].0@),
    ensures
        unknown_keys(fields, number, n).len() > 0,
    decreases n,
{
    if i < n - 1 {
        lemma_some_unknown(fields, number, i, n - 1);
    }
}

#[verifier::spinoff_prover]
#[verifier::rlimit(60)]
proof fn lemma_jsonl_lines(lines: Seq<Seq<char>>, n: int)
    requires
        0 <= n <= lines.len(),
        jsonl_problems(lines, n).len() == 0,
    ensures
        jsonl_asks(lines, n).len() == lines.take(n).filter(|line: Seq<char>| !is_blank(line)).len(),
        forall|i: int|
            0 <= i < n && !is_blank(#[trigger] lines[i]) ==> {
                let at = lines.take(i).filter(|line: Seq<char>| !is_blank(line)).len() as int;
                &&& 0 <= at < jsonl_asks(lines, n).len()
                &&& line_problems(json_of(lines[i]), (i + 1) as nat).len() == 0
                &&& jsonl_asks(lines, n)[at] == line_asks(json_of(lines[i]))
            },
    decreases n,
{
    reveal(Seq::filter);
    if n > 0 {
        let said = |line: Seq<char>| !is_blank(line);
        let had = jsonl_asks(lines, n - 1);
        let all = jsonl_asks(lines, n);
        lemma_jsonl_lines(lines, n - 1);
        assert(lines.take(n).drop_last() =~= lines.take(n - 1));
        let (from, to) = law_trimming_takes_white_space_alone(lines[n - 1]);
        assert(trimmed(lines[n - 1]).len() == 0 <==> is_blank(lines[n - 1]));
        assert forall|i: int| 0 <= i < n && !is_blank(#[trigger] lines[i]) implies {
            let at = lines.take(i).filter(said).len() as int;
            &&& 0 <= at < all.len()
            &&& line_problems(json_of(lines[i]), (i + 1) as nat).len() == 0
            &&& all[at] == line_asks(json_of(lines[i]))
        } by {
            let at = lines.take(i).filter(said).len() as int;
            if i < n - 1 {
                assert(all[at] == had[at]);
            } else {
                assert(all[at] == all.last());
            }
        }
    }
}

/// A batch has an edit for each of its lines that is not blank, in their order, and none besides; one
/// line with anything wrong refuses it whole.
pub proof fn law_a_batch_has_an_edit_for_each_line(
    r: Result<Vec<EditSpec>, Error>,
    lines: Seq<Seq<char>>,
)
    requires
        is_batch(
            r,
            jsonl_problems(lines, lines.len() as int),
            jsonl_asks(lines, lines.len() as int),
        ),
    ensures
        r matches Ok(specs) ==> {
            &&& specs@.len() == lines.filter(|line: Seq<char>| !is_blank(line)).len()
            &&& forall|i: int|
                0 <= i < lines.len() && !is_blank(#[trigger] lines[i]) ==> {
                    let at = lines.take(i).filter(|line: Seq<char>| !is_blank(line)).len() as int;
                    &&& 0 <= at < specs@.len()
                    &&& line_problems(json_of(lines[i]), (i + 1) as nat).len() == 0
                    &&& specs@[at].asked() == line_asks(json_of(lines[i]))
                }
        },
{
    if let Ok(specs) = r {
        lemma_jsonl_lines(lines, lines.len() as int);
        assert(lines.take(lines.len() as int) =~= lines);
        assert(asked_all(specs@).len() == specs@.len());
        assert forall|i: int| 0 <= i < lines.len() && !is_blank(#[trigger] lines[i]) implies {
            let at = lines.take(i).filter(|line: Seq<char>| !is_blank(line)).len() as int;
            &&& 0 <= at < specs@.len()
            &&& line_problems(json_of(lines[i]), (i + 1) as nat).len() == 0
            &&& specs@[at].asked() == line_asks(json_of(lines[i]))
        } by {
            let at = lines.take(i).filter(|line: Seq<char>| !is_blank(line)).len() as int;
            assert(asked_all(specs@)[at] == specs@[at].asked());
        }
    }
}

/// A hash is read with or without the word before it.
pub proof fn law_a_hash_is_read_with_or_without_its_word(digits: Seq<char>)
    ensures
        sha_digits("sha:"@ + digits) == digits,
        !"sha:"@.is_prefix_of(digits) ==> sha_digits(digits) == digits,
{
    let raw = "sha:"@ + digits;
    assert(raw.subrange(0, "sha:"@.len() as int) =~= "sha:"@);
    assert(raw.skip("sha:"@.len() as int) =~= digits);
}

} // verus!
