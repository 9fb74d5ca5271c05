//! What a call asks for: the files, and the operations on each, from the flags or from a batch.
use vstd::prelude::*;

use crate::edit::args::Stdin;
use crate::edit::batch::{at_line, line_prefix, sha_digits};
use crate::edit::lines::utf8_text;
use crate::error::{is_not_found, is_usage, not_found, usage, Error, UnsupportedReason};
use crate::json::{
    field, field_of, has_field, has_no_field, json_of, law_a_field_is_found_by_its_name, read_json,
    Json,
};
use crate::output::{is_sha, Sha12};
use crate::text;
use crate::text::{is_blank, law_trimming_takes_white_space_alone, lines_of, texts, trimmed};

verus! {

pub const VERB: &'static str = "transform";

#[derive(Debug, Clone, Copy, PartialEq, Eq, Structural)]
pub enum OpKind {
    Assign,
    Delete,
    Append,
}

/// A value as a flag typed it, or as a batch gives it.
#[derive(Debug)]
pub enum Operand {
    Typed(String),
    Json(Json),
}

/// One operation. The key is its path as it was written.
#[derive(Debug)]
#[allow(inconsistent_fields)]
pub enum Op {
    Assign { key: String, value: Operand },
    Delete { key: String },
    Append { key: String, value: Operand },
}

/// A value as a value.
pub ghost enum Given {
    Typed(Seq<char>),
    Json(Json),
}

impl Operand {
    pub open spec fn given(self) -> Given {
        match self {
            Operand::Typed(s) => Given::Typed(s@),
            Operand::Json(json) => Given::Json(json),
        }
    }
}

/// An operation as a value.
#[allow(inconsistent_fields)]
pub ghost enum Change {
    Assign { key: Seq<char>, value: Given },
    Delete { key: Seq<char> },
    Append { key: Seq<char>, value: Given },
}

impl Op {
    pub open spec fn change(self) -> Change {
        match self {
            Op::Assign { key, value } => Change::Assign { key: key@, value: value.given() },
            Op::Delete { key } => Change::Delete { key: key@ },
            Op::Append { key, value } => Change::Append { key: key@, value: value.given() },
        }
    }
}

pub open spec fn changes(ops: Seq<Op>) -> Seq<Change> {
    ops.map_values(|op: Op| op.change())
}

/// One file and what is to be done to it.
#[derive(Debug)]
pub struct Target {
    pub file: String,
    pub ops: Vec<Op>,
    pub if_sha: Option<Sha12>,
}

/// A target as a value.
pub ghost struct Aim {
    pub file: Seq<char>,
    pub ops: Seq<Change>,
    pub sha: Option<Seq<char>>,
}

impl Target {
    pub open spec fn aim(self) -> Aim {
        Aim {
            file: self.file@,
            ops: changes(self.ops@),
            sha: match self.if_sha {
                Some(sha) => Some(sha.hex@),
                None => None,
            },
        }
    }
}

pub open spec fn aims(targets: Seq<Target>) -> Seq<Aim> {
    targets.map_values(|target: Target| target.aim())
}

/// The keys that are no paths, each with what is wrong with it.
pub type BadKeys = Vec<(String, Error)>;

/// What is wrong with a key, where it is no path.
pub open spec fn key_fault(bad: Seq<(String, Error)>, key: Seq<char>) -> Option<Error>
    decreases bad.len(),
{
    if bad.len() == 0 {
        None
    } else if bad[0].0@ == key {
        Some(bad[0].1)
    } else {
        key_fault(bad.drop_first(), key)
    }
}

proof fn lemma_key_fault(bad: Seq<(String, Error)>, i: int, key: Seq<char>)
    requires
        0 <= i <= bad.len(),
        forall|k: int| 0 <= k < i ==> (#[trigger] bad[k]).0@ != key,
    ensures
        i < bad.len() && bad[i].0@ == key ==> key_fault(bad, key) == Some(bad[i].1),
        i == bad.len() ==> key_fault(bad, key) is None,
    decreases bad.len(),
{
    if bad.len() > 0 && i > 0 {
        assert(bad[0].0@ != key);
        let rest = bad.drop_first();
        assert forall|k: int| 0 <= k < i - 1 implies (#[trigger] rest[k]).0@ != key by {
            assert(rest[k] == bad[k + 1]);
        }
        lemma_key_fault(rest, i - 1, key);
    }
}

/// Takes what is wrong with a key, where something is.
fn take_fault(bad: &mut BadKeys, key: &str) -> (r: Option<Error>)
    ensures
        r == key_fault(old(bad)@, key@),
        r is None ==> final(bad)@ == old(bad)@,
{
    let ghost before = bad@;
    let mut i: usize = 0;
    while i < bad.len() && !text::same(bad[i].0.as_str(), key)
        invariant
            i <= bad@.len(),
            bad@ == before,
            forall|k: int| 0 <= k < i ==> (#[trigger] before[k]).0@ != key@,
        decreases bad@.len() - i,
    {
        i = i + 1;
    }
    proof {
        lemma_key_fault(before, i as int, key@);
    }
    if i == bad.len() {
        return None;
    }
    let (_, error) = bad.remove(i);
    Some(error)
}

/// Why the asking is refused.
pub ghost enum Refusal {
    Missing(Seq<char>, Seq<char>),
    Malformed(Seq<char>),
    /// A key is no path.
    Key(Error),
}

pub open spec fn malformed_text(detail: Seq<char>) -> Seq<char> {
    "malformed --from - input: "@ + detail
}

pub open spec fn tells(error: Error, refusal: Refusal) -> bool {
    match refusal {
        Refusal::Missing(target, what) => is_not_found(error, target, what),
        Refusal::Malformed(detail) => is_usage(error, malformed_text(detail)),
        Refusal::Key(fault) => error == fault,
    }
}

pub fn malformed(detail: &str) -> (r: Error)
    ensures
        is_usage(r, malformed_text(detail@)),
{
    usage("malformed --from - input: ".to_owned().concat(detail))
}

/// A flag with a key and a value: as it was typed, and split into the two where it can be.
#[derive(Debug)]
pub struct Flag {
    pub raw: String,
    pub split: Option<(String, String)>,
}

/// The flags of a call.
#[derive(Debug)]
pub struct TransformArgs {
    pub file: Option<String>,
    pub set: Vec<Flag>,
    pub delete: Vec<String>,
    pub append: Vec<Flag>,
    /// The kinds of the operations, in the order they were typed.
    pub order: Vec<OpKind>,
    pub if_sha: Option<String>,
    pub from: Option<String>,
    pub check: Option<String>,
    pub check_timeout: u64,
}

/// A key that is appended to: a trailing `[]` comes off, since a path has no empty index.
pub open spec fn appended_key(key: Seq<char>) -> Seq<char> {
    if "[]"@.is_suffix_of(key) {
        key.take(key.len() - "[]"@.len())
    } else {
        key
    }
}

fn append_key(key: &str) -> (r: String)
    ensures
        r@ == appended_key(key@),
{
    match text::strip_suffix(key, "[]") {
        Some(rest) => {
            assert(key@.take(rest@.len() as int) =~= rest@);
            assert("[]"@.is_suffix_of(key@)) by {
                assert(key@.skip(rest@.len() as int) =~= "[]"@);
            }
            rest.to_owned()
        },
        None => key.to_owned(),
    }
}

/// The key of a change.
pub open spec fn key_of(change: Change) -> Seq<char> {
    match change {
        Change::Assign { key, .. } => key,
        Change::Delete { key } => key,
        Change::Append { key, .. } => key,
    }
}

/// A change whose key is no path is refused.
pub open spec fn keyed(change: Change, bad: Seq<(String, Error)>) -> Result<Change, Refusal> {
    match key_fault(bad, key_of(change)) {
        Some(fault) => Err(Refusal::Key(fault)),
        None => Ok(change),
    }
}

/// The operation that a `--set` flag asks for.
pub open spec fn set_change(flag: Flag, bad: Seq<(String, Error)>) -> Result<Change, Refusal> {
    match flag.split {
        Some((key, value)) => keyed(
            Change::Assign { key: key@, value: Given::Typed(value@) },
            bad,
        ),
        None => Err(Refusal::Missing(flag.raw@, "--set path=value"@)),
    }
}

/// The operation that an `--append` flag asks for.
pub open spec fn append_change(flag: Flag, bad: Seq<(String, Error)>) -> Result<Change, Refusal> {
    match flag.split {
        Some((key, value)) => keyed(
            Change::Append { key: appended_key(key@), value: Given::Typed(value@) },
            bad,
        ),
        None => Err(Refusal::Missing(flag.raw@, "--append path=value"@)),
    }
}

/// `op` is what was asked for, or why it is not.
pub open spec fn is_op(op: Result<Op, Error>, change: Result<Change, Refusal>) -> bool {
    match change {
        Ok(change) => op matches Ok(op) && op.change() == change,
        Err(refusal) => op matches Err(error) && tells(error, refusal),
    }
}

pub fn set_flag(flag: &Flag, bad: &mut BadKeys) -> (r: Result<Op, Error>)
    ensures
        is_op(r, set_change(*flag, old(bad)@)),
        r is Ok ==> final(bad)@ == old(bad)@,
{
    match &flag.split {
        Some((key, value)) => match take_fault(bad, key.as_str()) {
            Some(error) => Err(error),
            None => Ok(Op::Assign { key: key.clone(), value: Operand::Typed(value.clone()) }),
        },
        None => Err(not_found(flag.raw.as_str(), "--set path=value".to_owned())),
    }
}

pub fn delete_op(key: &str, bad: &mut BadKeys) -> (r: Result<Op, Error>)
    ensures
        is_op(r, keyed(Change::Delete { key: key@ }, old(bad)@)),
        r is Ok ==> final(bad)@ == old(bad)@,
{
    match take_fault(bad, key) {
        Some(error) => Err(error),
        None => Ok(Op::Delete { key: key.to_owned() }),
    }
}

pub fn append_flag(flag: &Flag, bad: &mut BadKeys) -> (r: Result<Op, Error>)
    ensures
        is_op(r, append_change(*flag, old(bad)@)),
        r is Ok ==> final(bad)@ == old(bad)@,
{
    match &flag.split {
        Some((key, value)) => {
            let key = append_key(key.as_str());
            match take_fault(bad, key.as_str()) {
                Some(error) => Err(error),
                None => Ok(Op::Append { key, value: Operand::Typed(value.clone()) }),
            }
        },
        None => Err(not_found(flag.raw.as_str(), "--append path=value".to_owned())),
    }
}

/// How many of the first `n` operations are of the kind.
pub open spec fn kind_count(order: Seq<OpKind>, kind: OpKind, n: int) -> nat
    decreases n,
{
    if n <= 0 {
        0
    } else {
        kind_count(order, kind, n - 1) + (if order[n - 1] == kind {
            1nat
        } else {
            0nat
        })
    }
}

proof fn lemma_kind_count(order: Seq<OpKind>, kind: OpKind, m: int, n: int)
    requires
        0 <= m <= n,
    ensures
        kind_count(order, kind, m) <= kind_count(order, kind, n),
    decreases n,
{
    if m < n {
        lemma_kind_count(order, kind, m, n - 1);
    }
}

/// One kind is recorded for each operation flag.
pub open spec fn is_recorded(args: TransformArgs) -> bool {
    let n = args.order@.len() as int;
    &&& kind_count(args.order@, OpKind::Assign, n) == args.set@.len()
    &&& kind_count(args.order@, OpKind::Delete, n) == args.delete@.len()
    &&& kind_count(args.order@, OpKind::Append, n) == args.append@.len()
}

/// The `i`-th operation that was typed.
pub open spec fn typed_change(
    args: TransformArgs,
    bad: Seq<(String, Error)>,
    i: int,
) -> Result<Change, Refusal> {
    let kind = args.order@[i];
    let at = kind_count(args.order@, kind, i) as int;
    match kind {
        OpKind::Assign => set_change(args.set@[at], bad),
        OpKind::Delete => keyed(Change::Delete { key: args.delete@[at]@ }, bad),
        OpKind::Append => append_change(args.append@[at], bad),
    }
}

/// The first `n` operations that were typed, or the first of them that is refused.
pub open spec fn typed_upto(
    args: TransformArgs,
    bad: Seq<(String, Error)>,
    n: int,
) -> Result<Seq<Change>, Refusal>
    decreases n,
{
    if n <= 0 {
        Ok(Seq::empty())
    } else {
        match typed_upto(args, bad, n - 1) {
            Ok(so_far) => match typed_change(args, bad, n - 1) {
                Ok(change) => Ok(so_far.push(change)),
                Err(refusal) => Err(refusal),
            },
            Err(refusal) => Err(refusal),
        }
    }
}

proof fn lemma_typed(args: TransformArgs, bad: Seq<(String, Error)>, m: int, n: int)
    requires
        0 <= m <= n,
        typed_upto(args, bad, m) is Err,
    ensures
        typed_upto(args, bad, n) == typed_upto(args, bad, m),
    decreases n,
{
    if m < n {
        lemma_typed(args, bad, m, n - 1);
    }
}

/// The hash that an `--if` asks for, where there is one.
pub open spec fn if_of(raw: Option<Seq<char>>, target: Seq<char>) -> Result<
    Option<Seq<char>>,
    Refusal,
> {
    match raw {
        None => Ok(None),
        Some(raw) => if is_sha(sha_digits(raw)) {
            Ok(Some(sha_digits(raw).take(12)))
        } else {
            Err(Refusal::Missing(target, "--if sha (must be 12+ hex)"@))
        },
    }
}

pub fn parse_if(raw: Option<&str>, target: &str) -> (r: Result<Option<Sha12>, Error>)
    ensures
        match if_of(
            match raw {
                Some(raw) => Some(raw@),
                None => None,
            },
            target@,
        ) {
            Ok(None) => r matches Ok(None),
            Ok(Some(hex)) => r matches Ok(Some(sha)) && sha.hex@ == hex,
            Err(refusal) => r matches Err(error) && tells(error, refusal),
        },
{
    let raw = match raw {
        Some(raw) => raw,
        None => return Ok(None),
    };
    let digits = match text::strip_prefix(raw, "sha:") {
        Some(rest) => {
            assert(raw@.skip("sha:"@.len() as int) =~= rest@);
            assert("sha:"@.is_prefix_of(raw@)) by {
                assert(raw@.take("sha:"@.len() as int) =~= "sha:"@);
            }
            rest
        },
        None => raw,
    };
    match Sha12::parse(digits) {
        Some(sha) => Ok(Some(sha)),
        None => Err(not_found(target, "--if sha (must be 12+ hex)".to_owned())),
    }
}

/// The target that the flags ask for.
pub open spec fn single_of(args: TransformArgs, bad: Seq<(String, Error)>) -> Result<Aim, Refusal> {
    match args.file {
        None => Err(Refusal::Missing(VERB@, "a file"@)),
        Some(file) => match typed_upto(args, bad, args.order@.len() as int) {
            Err(refusal) => Err(refusal),
            Ok(ops) => if ops.len() == 0 {
                Err(Refusal::Missing(file@, "an operation (--set, --delete or --append)"@))
            } else {
                match if_of(
                    match args.if_sha {
                        Some(sha) => Some(sha@),
                        None => None,
                    },
                    file@,
                ) {
                    Ok(sha) => Ok(Aim { file: file@, ops, sha }),
                    Err(refusal) => Err(refusal),
                }
            },
        },
    }
}

/// `target` is what was asked for, or why it is not.
pub open spec fn is_target(target: Result<Target, Error>, aim: Result<Aim, Refusal>) -> bool {
    match aim {
        Ok(aim) => target matches Ok(target) && target.aim() == aim,
        Err(refusal) => target matches Err(error) && tells(error, refusal),
    }
}

/// The operations run in the order they were typed.
pub fn single(args: &TransformArgs, bad: &mut BadKeys) -> (r: Result<Target, Error>)
    requires
        is_recorded(*args),
    ensures
        is_target(r, single_of(*args, old(bad)@)),
{
    let ghost faults = bad@;
    let file = match &args.file {
        Some(file) => file,
        None => return Err(not_found(VERB, "a file".to_owned())),
    };
    let mut sets: usize = 0;
    let mut deletes: usize = 0;
    let mut appends: usize = 0;
    let mut ops: Vec<Op> = Vec::new();
    let mut i: usize = 0;
    let (all_sets, all_deletes, all_appends) = (
        args.set.len(),
        args.delete.len(),
        args.append.len(),
    );
    let ghost order = args.order@;
    assert(changes(ops@) =~= Seq::empty());
    while i < args.order.len()
        invariant
            i <= args.order@.len(),
            order == args.order@,
            all_sets == args.set@.len(),
            all_deletes == args.delete@.len(),
            all_appends == args.append@.len(),
            is_recorded(*args),
            args.file == Some(*file),
            sets == kind_count(order, OpKind::Assign, i as int),
            deletes == kind_count(order, OpKind::Delete, i as int),
            appends == kind_count(order, OpKind::Append, i as int),
            faults == old(bad)@,
            bad@ == faults,
            typed_upto(*args, faults, i as int) == Ok::<Seq<Change>, Refusal>(changes(ops@)),
        decreases args.order@.len() - i,
    {
        proof {
            lemma_kind_count(order, OpKind::Assign, i + 1, order.len() as int);
            lemma_kind_count(order, OpKind::Delete, i + 1, order.len() as int);
            lemma_kind_count(order, OpKind::Append, i + 1, order.len() as int);
        }
        let ghost had = ops@;
        let op = match args.order[i] {
            OpKind::Assign => {
                let op = set_flag(&args.set[sets], bad);
                sets = sets + 1;
                op
            },
            OpKind::Delete => {
                let op = delete_op(args.delete[deletes].as_str(), bad);
                deletes = deletes + 1;
                op
            },
            OpKind::Append => {
                let op = append_flag(&args.append[appends], bad);
                appends = appends + 1;
                op
            },
        };
        match op {
            Ok(op) => {
                ops.push(op);
                assert(changes(ops@) =~= changes(had).push(op.change()));
            },
            Err(error) => {
                proof {
                    lemma_typed(*args, faults, i + 1, order.len() as int);
                }
                return Err(error);
            },
        }
        i = i + 1;
    }
    assert(changes(ops@).len() == ops@.len());
    if ops.len() == 0 {
        return Err(
            not_found(
                file.as_str(),
                "an operation (--set, --delete or --append)".to_owned(),
            ),
        );
    }
    let asked = match &args.if_sha {
        Some(sha) => Some(sha.as_str()),
        None => None,
    };
    match parse_if(asked, file.as_str()) {
        Ok(if_sha) => Ok(Target { file: file.clone(), ops, if_sha }),
        Err(error) => Err(error),
    }
}

/// A text as `Debug` prints it.
pub uninterp spec fn debug_text(text: Seq<char>) -> Seq<char>;

/// A letter or an underscore.
pub open spec fn is_word_char(c: char) -> bool {
    'a' <= c <= 'z' || 'A' <= c <= 'Z' || c == '_'
}

/// `{:?}` of a `str`: the text in quotes, with what has to be escaped escaped. Of a text of letters
/// and underscores it is just the text in quotes; which other characters are escaped, and how, is
/// left unsaid.
#[verifier::external_body]
fn debug_of(text: &str) -> (r: String)
    ensures
        r@ == debug_text(text@),
        (forall|i: int| 0 <= i < text@.len() ==> is_word_char(#[trigger] text@[i])) ==> r@ == "\""@
            + text@ + "\""@,
{
    format!("{:?}", text)
}

/// The keys that a line of a batch may have.
pub open spec fn is_batch_key(key: Seq<char>) -> bool {
    key == "file"@ || key == "set"@ || key == "delete"@ || key == "append"@ || key == "if"@
}

fn batch_key(key: &str) -> (r: bool)
    ensures
        r == is_batch_key(key@),
{
    text::same(key, "file") || text::same(key, "set") || text::same(key, "delete") || text::same(
        key,
        "append",
    ) || text::same(key, "if")
}

/// The first of the first `n` fields whose key is unknown.
pub open spec fn unknown_key(fields: Seq<(String, Json)>, n: int) -> Option<Seq<char>>
    decreases n,
{
    if n <= 0 {
        None
    } else {
        match unknown_key(fields, n - 1) {
            Some(key) => Some(key),
            None => if is_batch_key(fields[n - 1].0@) {
                None
            } else {
                Some(fields[n - 1].0@)
            },
        }
    }
}

proof fn lemma_unknown_key(fields: Seq<(String, Json)>, m: int, n: int)
    requires
        0 <= m <= n,
        unknown_key(fields, m) is Some,
    ensures
        unknown_key(fields, n) == unknown_key(fields, m),
    decreases n,
{
    if m < n {
        lemma_unknown_key(fields, m, n - 1);
    }
}

/// What is wrong with the operations of a line.
pub ghost enum Fault {
    Detail(Seq<char>),
    /// A key is no path.
    Key(Error),
}

/// `so_far` and one more change.
pub open spec fn one_more(
    so_far: Result<Seq<Change>, Fault>,
    change: Change,
    bad: Seq<(String, Error)>,
) -> Result<Seq<Change>, Fault> {
    match so_far {
        Ok(all) => match key_fault(bad, key_of(change)) {
            Some(fault) => Err(Fault::Key(fault)),
            None => Ok(all.push(change)),
        },
        Err(fault) => Err(fault),
    }
}

/// The changes that the first `n` fields of `"set"` ask for.
pub open spec fn set_changes(
    fields: Seq<(String, Json)>,
    bad: Seq<(String, Error)>,
    n: int,
) -> Result<Seq<Change>, Fault>
    decreases n,
{
    if n <= 0 {
        Ok(Seq::empty())
    } else {
        one_more(
            set_changes(fields, bad, n - 1),
            Change::Assign { key: fields[n - 1].0@, value: Given::Json(fields[n - 1].1) },
            bad,
        )
    }
}

/// The changes that the first `n` fields of `"append"` ask for.
pub open spec fn append_changes(
    fields: Seq<(String, Json)>,
    bad: Seq<(String, Error)>,
    n: int,
) -> Result<Seq<Change>, Fault>
    decreases n,
{
    if n <= 0 {
        Ok(Seq::empty())
    } else {
        one_more(
            append_changes(fields, bad, n - 1),
            Change::Append {
                key: appended_key(fields[n - 1].0@),
                value: Given::Json(fields[n - 1].1),
            },
            bad,
        )
    }
}

/// The changes that the first `n` entries of `"delete"` ask for.
pub open spec fn delete_changes(
    items: Seq<Json>,
    bad: Seq<(String, Error)>,
    n: int,
) -> Result<Seq<Change>, Fault>
    decreases n,
{
    if n <= 0 {
        Ok(Seq::empty())
    } else {
        match items[n - 1] {
            Json::Text(key) => one_more(
                delete_changes(items, bad, n - 1),
                Change::Delete { key: key@ },
                bad,
            ),
            _ => match delete_changes(items, bad, n - 1) {
                Ok(_) => Err(Fault::Detail("a \"delete\" entry is not a string"@)),
                Err(fault) => Err(fault),
            },
        }
    }
}

proof fn lemma_set_changes(
    fields: Seq<(String, Json)>,
    bad: Seq<(String, Error)>,
    m: int,
    n: int,
)
    requires
        0 <= m <= n,
        set_changes(fields, bad, m) is Err,
    ensures
        set_changes(fields, bad, n) == set_changes(fields, bad, m),
    decreases n,
{
    if m < n {
        lemma_set_changes(fields, bad, m, n - 1);
    }
}

proof fn lemma_append_changes(
    fields: Seq<(String, Json)>,
    bad: Seq<(String, Error)>,
    m: int,
    n: int,
)
    requires
        0 <= m <= n,
        append_changes(fields, bad, m) is Err,
    ensures
        append_changes(fields, bad, n) == append_changes(fields, bad, m),
    decreases n,
{
    if m < n {
        lemma_append_changes(fields, bad, m, n - 1);
    }
}

proof fn lemma_delete_changes(items: Seq<Json>, bad: Seq<(String, Error)>, m: int, n: int)
    requires
        0 <= m <= n,
        delete_changes(items, bad, m) is Err,
    ensures
        delete_changes(items, bad, n) == delete_changes(items, bad, m),
    decreases n,
{
    if m < n {
        lemma_delete_changes(items, bad, m, n - 1);
    }
}

/// What `"set"` asks for.
pub open spec fn set_part(
    value: Option<Json>,
    bad: Seq<(String, Error)>,
) -> Result<Seq<Change>, Fault> {
    match value {
        None => Ok(Seq::empty()),
        Some(Json::Object(set)) => set_changes(set@, bad, set@.len() as int),
        Some(_) => Err(Fault::Detail("\"set\" is not an object"@)),
    }
}

/// What `"delete"` asks for.
pub open spec fn delete_part(
    value: Option<Json>,
    bad: Seq<(String, Error)>,
) -> Result<Seq<Change>, Fault> {
    match value {
        None => Ok(Seq::empty()),
        Some(Json::List(items)) => delete_changes(items@, bad, items@.len() as int),
        Some(_) => Err(Fault::Detail("\"delete\" is not an array"@)),
    }
}

/// What `"append"` asks for.
pub open spec fn append_part(
    value: Option<Json>,
    bad: Seq<(String, Error)>,
) -> Result<Seq<Change>, Fault> {
    match value {
        None => Ok(Seq::empty()),
        Some(Json::Object(append)) => append_changes(append@, bad, append@.len() as int),
        Some(_) => Err(Fault::Detail("\"append\" is not an object"@)),
    }
}

/// Within a line the operations run set, delete, append: an object has no typed order to follow.
pub open spec fn line_changes(
    fields: Seq<(String, Json)>,
    bad: Seq<(String, Error)>,
) -> Result<Seq<Change>, Fault> {
    match (
        set_part(field_of(fields, "set"@), bad),
        delete_part(field_of(fields, "delete"@), bad),
        append_part(field_of(fields, "append"@), bad),
    ) {
        (Err(fault), _, _) => Err(fault),
        (_, Err(fault), _) => Err(fault),
        (_, _, Err(fault)) => Err(fault),
        (Ok(sets), Ok(deletes), Ok(appends)) => if (sets + deletes + appends).len() == 0 {
            Err(Fault::Detail("no \"set\", \"delete\" or \"append\""@))
        } else {
            Ok(sets + deletes + appends)
        },
    }
}

/// A fault as it is told of line `number`.
pub open spec fn told_at(fault: Fault, number: nat) -> Refusal {
    match fault {
        Fault::Detail(detail) => Refusal::Malformed(at_line(number) + detail),
        Fault::Key(error) => Refusal::Key(error),
    }
}

/// What the value on line `number` asks for.
pub open spec fn line_aim(
    value: Json,
    bad: Seq<(String, Error)>,
    number: nat,
) -> Result<Aim, Refusal> {
    match value {
        Json::Object(fields) => match unknown_key(fields@, fields@.len() as int) {
            Some(key) => Err(
                Refusal::Malformed(at_line(number) + "unknown key "@ + debug_text(key)),
            ),
            None => match field_of(fields@, "file"@) {
                Some(Json::Text(file)) => match line_changes(fields@, bad) {
                    Err(fault) => Err(told_at(fault, number)),
                    Ok(ops) => match if_of(
                        match field_of(fields@, "if"@) {
                            Some(Json::Text(sha)) => Some(sha@),
                            _ => None,
                        },
                        file@,
                    ) {
                        Ok(sha) => Ok(Aim { file: file@, ops, sha }),
                        Err(refusal) => Err(refusal),
                    },
                },
                _ => Err(Refusal::Malformed(at_line(number) + "no \"file\""@)),
            },
        },
        _ => Err(Refusal::Malformed(at_line(number) + "not a JSON object"@)),
    }
}

proof fn lemma_field_removed(fields: Seq<(String, Json)>, i: int, name: Seq<char>)
    requires
        0 <= i < fields.len(),
        fields[i].0@ != name,
    ensures
        field_of(fields.remove(i), name) == field_of(fields, name),
    decreases fields.len(),
{
    let less = fields.remove(i);
    if i == 0 {
        assert(less =~= fields.drop_first());
    } else {
        assert(less[0] == fields[0]);
        lemma_field_removed(fields.drop_first(), i - 1, name);
        assert(less.drop_first() =~= fields.drop_first().remove(i - 1));
    }
}

proof fn lemma_field_at(fields: Seq<(String, Json)>, i: int, name: Seq<char>)
    requires
        0 <= i <= fields.len(),
        forall|k: int| 0 <= k < i ==> (#[trigger] fields[k]).0@ != name,
    ensures
        i < fields.len() && fields[i].0@ == name ==> field_of(fields, name) == Some(fields[i].1),
        i == fields.len() ==> field_of(fields, name) is None,
    decreases fields.len(),
{
    if fields.len() > 0 && i > 0 {
        assert(fields[0].0@ != name);
        let rest = fields.drop_first();
        assert forall|k: int| 0 <= k < i - 1 implies (#[trigger] rest[k]).0@ != name by {
            assert(rest[k] == fields[k + 1]);
        }
        lemma_field_at(rest, i - 1, name);
    }
}

/// Takes the field `name` out.
fn take_field(fields: &mut Vec<(String, Json)>, name: &str) -> (r: Option<Json>)
    ensures
        r == field_of(old(fields)@, name@),
        forall|other: Seq<char>|
            other != name@ ==> #[trigger] field_of(final(fields)@, other) == field_of(
                old(fields)@,
                other,
            ),
{
    let ghost before = fields@;
    let mut i: usize = 0;
    while i < fields.len() && !text::same(fields[i].0.as_str(), name)
        invariant
            i <= fields@.len(),
            fields@ == before,
            forall|k: int| 0 <= k < i ==> (#[trigger] before[k]).0@ != name@,
        decreases fields@.len() - i,
    {
        i = i + 1;
    }
    proof {
        lemma_field_at(before, i as int, name@);
    }
    if i == fields.len() {
        return None;
    }
    let (_, value) = fields.remove(i);
    proof {
        assert forall|other: Seq<char>| other != name@ implies #[trigger] field_of(
            fields@,
            other,
        ) == field_of(before, other) by {
            lemma_field_removed(before, i as int, other);
        }
    }
    Some(value)
}

/// `r` tells whether the changes were all added, and what is wrong where they were not.
spec fn is_added(
    r: Result<(), Error>,
    changes: Result<Seq<Change>, Fault>,
    number: nat,
    before: Seq<Change>,
    after: Seq<Change>,
) -> bool {
    match changes {
        Ok(all) => r is Ok && after == before + all,
        Err(fault) => r matches Err(error) && tells(error, told_at(fault, number)),
    }
}

fn push_sets(ops: &mut Vec<Op>, set: Vec<(String, Json)>, bad: &mut BadKeys, number: usize) -> (r:
    Result<(), Error>)
    ensures
        is_added(
            r,
            set_changes(set@, old(bad)@, set@.len() as int),
            number as nat,
            changes(old(ops)@),
            changes(final(ops)@),
        ),
        r is Ok ==> final(bad)@ == old(bad)@,
{
    let ghost all = set@;
    let ghost faults = bad@;
    let ghost before = changes(ops@);
    let mut rest = set;
    let count = rest.len();
    let mut i: usize = 0;
    assert(rest@ =~= all.skip(0));
    assert(before + Seq::<Change>::empty() =~= before);
    while i < count
        invariant
            i <= count == all.len(),
            all == set@,
            faults == old(bad)@,
            bad@ == faults,
            before == changes(old(ops)@),
            rest@ == all.skip(i as int),
            set_changes(all, faults, i as int) matches Ok(so_far) && changes(ops@) == before
                + so_far,
        decreases count - i,
    {
        let ghost had = ops@;
        let ghost so_far = set_changes(all, faults, i as int)->Ok_0;
        let (key, value) = rest.remove(0);
        assert((key, value) == all[i as int]);
        assert(rest@ =~= all.skip(i + 1));
        if let Some(error) = take_fault(bad, key.as_str()) {
            proof {
                lemma_set_changes(all, faults, i + 1, count as int);
            }
            return Err(error);
        }
        let op = Op::Assign { key, value: Operand::Json(value) };
        ops.push(op);
        assert(changes(ops@) =~= changes(had).push(op.change()));
        assert(changes(ops@) =~= before + so_far.push(op.change()));
        i = i + 1;
    }
    Ok(())
}

fn push_appends(
    ops: &mut Vec<Op>,
    append: Vec<(String, Json)>,
    bad: &mut BadKeys,
    number: usize,
) -> (r: Result<(), Error>)
    ensures
        is_added(
            r,
            append_changes(append@, old(bad)@, append@.len() as int),
            number as nat,
            changes(old(ops)@),
            changes(final(ops)@),
        ),
        r is Ok ==> final(bad)@ == old(bad)@,
{
    let ghost all = append@;
    let ghost faults = bad@;
    let ghost before = changes(ops@);
    let mut rest = append;
    let count = rest.len();
    let mut i: usize = 0;
    assert(rest@ =~= all.skip(0));
    assert(before + Seq::<Change>::empty() =~= before);
    while i < count
        invariant
            i <= count == all.len(),
            all == append@,
            faults == old(bad)@,
            bad@ == faults,
            before == changes(old(ops)@),
            rest@ == all.skip(i as int),
            append_changes(all, faults, i as int) matches Ok(so_far) && changes(ops@) == before
                + so_far,
        decreases count - i,
    {
        let ghost had = ops@;
        let ghost so_far = append_changes(all, faults, i as int)->Ok_0;
        let (key, value) = rest.remove(0);
        assert((key, value) == all[i as int]);
        assert(rest@ =~= all.skip(i + 1));
        let key = append_key(key.as_str());
        if let Some(error) = take_fault(bad, key.as_str()) {
            proof {
                lemma_append_changes(all, faults, i + 1, count as int);
            }
            return Err(error);
        }
        let op = Op::Append { key, value: Operand::Json(value) };
        ops.push(op);
        assert(changes(ops@) =~= changes(had).push(op.change()));
        assert(changes(ops@) =~= before + so_far.push(op.change()));
        i = i + 1;
    }
    Ok(())
}

fn push_deletes(ops: &mut Vec<Op>, items: &Vec<Json>, bad: &mut BadKeys, number: usize) -> (r:
    Result<(), Error>)
    ensures
        is_added(
            r,
            delete_changes(items@, old(bad)@, items@.len() as int),
            number as nat,
            changes(old(ops)@),
            changes(final(ops)@),
        ),
        r is Ok ==> final(bad)@ == old(bad)@,
{
    let ghost faults = bad@;
    let ghost before = changes(ops@);
    let mut i: usize = 0;
    assert(before + Seq::<Change>::empty() =~= before);
    while i < items.len()
        invariant
            i <= items@.len(),
            faults == old(bad)@,
            bad@ == faults,
            before == changes(old(ops)@),
            delete_changes(items@, faults, i as int) matches Ok(so_far) && changes(ops@) == before
                + so_far,
        decreases items@.len() - i,
    {
        let ghost had = ops@;
        let ghost so_far = delete_changes(items@, faults, i as int)->Ok_0;
        match &items[i] {
            Json::Text(key) => match delete_op(key.as_str(), bad) {
                Ok(op) => {
                    ops.push(op);
                    assert(changes(ops@) =~= changes(had).push(op.change()));
                    assert(changes(ops@) =~= before + so_far.push(op.change()));
                },
                Err(error) => {
                    proof {
                        lemma_delete_changes(items@, faults, i + 1, items@.len() as int);
                    }
                    return Err(error);
                },
            },
            _ => {
                proof {
                    lemma_delete_changes(items@, faults, i + 1, items@.len() as int);
                }
                return Err(at(number, "a \"delete\" entry is not a string"));
            },
        }
        i = i + 1;
    }
    Ok(())
}

/// What is wrong with line `number`.
fn at(number: usize, detail: &str) -> (r: Error)
    ensures
        is_usage(r, malformed_text(at_line(number as nat) + detail@)),
{
    malformed(line_prefix(number).concat(detail).as_str())
}

/// The operations of a line, or what is wrong with them.
fn line_ops(fields: &mut Vec<(String, Json)>, bad: &mut BadKeys, number: usize) -> (r: Result<
    Vec<Op>,
    Error,
>)
    ensures
        match line_changes(old(fields)@, old(bad)@) {
            Ok(all) => r matches Ok(ops) && changes(ops@) == all,
            Err(fault) => r matches Err(error) && tells(error, told_at(fault, number as nat)),
        },
        r is Ok ==> final(bad)@ == old(bad)@,
        forall|other: Seq<char>|
            other != "set"@ && other != "delete"@ && other != "append"@ ==> #[trigger] field_of(
                final(fields)@,
                other,
            ) == field_of(old(fields)@, other),
{
    proof {
        reveal_strlit("set");
        reveal_strlit("delete");
        reveal_strlit("append");
        assert("set"@.len() == 3 && "delete"@.len() == 6 && "append"@.len() == 6);
        assert("delete"@[0] != "append"@[0]);
    }
    let ghost before = fields@;
    let ghost faults = bad@;
    let mut ops: Vec<Op> = Vec::new();
    assert(changes(ops@) =~= Seq::empty());
    let set = take_field(fields, "set");
    let delete = take_field(fields, "delete");
    let append = take_field(fields, "append");
    let ghost (first, second, third) = (
        set_part(set, faults),
        delete_part(delete, faults),
        append_part(append, faults),
    );
    assert(delete == field_of(before, "delete"@));
    assert(append == field_of(before, "append"@));
    match set {
        None => {},
        Some(Json::Object(set)) => {
            if let Err(error) = push_sets(&mut ops, set, bad, number) {
                return Err(error);
            }
        },
        Some(_) => return Err(at(number, "\"set\" is not an object")),
    }
    assert(first matches Ok(sets) && changes(ops@) =~= sets);
    match delete {
        None => {},
        Some(Json::List(items)) => {
            if let Err(error) = push_deletes(&mut ops, &items, bad, number) {
                return Err(error);
            }
        },
        Some(_) => return Err(at(number, "\"delete\" is not an array")),
    }
    assert(second matches Ok(deletes) && changes(ops@) =~= first->Ok_0 + deletes);
    match append {
        None => {},
        Some(Json::Object(append)) => {
            if let Err(error) = push_appends(&mut ops, append, bad, number) {
                return Err(error);
            }
        },
        Some(_) => return Err(at(number, "\"append\" is not an object")),
    }
    assert(third matches Ok(appends) && changes(ops@) =~= first->Ok_0 + second->Ok_0 + appends);
    assert(changes(ops@).len() == ops@.len());
    if ops.len() == 0 {
        return Err(at(number, "no \"set\", \"delete\" or \"append\""));
    }
    Ok(ops)
}

/// One line of a batch, already read.
pub fn line_target(value: Json, bad: &mut BadKeys, number: usize) -> (r: Result<Target, Error>)
    ensures
        is_target(r, line_aim(value, old(bad)@, number as nat)),
        r is Ok ==> final(bad)@ == old(bad)@,
{
    let mut fields = match value {
        Json::Object(fields) => fields,
        _ => return Err(at(number, "not a JSON object")),
    };
    let ghost before = fields@;
    let mut i: usize = 0;
    while i < fields.len()
        invariant
            i <= fields@.len(),
            fields@ == before,
            bad@ == old(bad)@,
            value matches Json::Object(all) && all@ == before,
            unknown_key(before, i as int) is None,
        decreases fields@.len() - i,
    {
        if !batch_key(fields[i].0.as_str()) {
            proof {
                lemma_unknown_key(before, i + 1, before.len() as int);
            }
            let said = debug_of(fields[i].0.as_str());
            return Err(
                malformed(
                    line_prefix(number).concat("unknown key ").concat(said.as_str()).as_str(),
                ),
            );
        }
        i = i + 1;
    }
    proof {
        reveal_strlit("file");
        reveal_strlit("if");
        reveal_strlit("set");
        reveal_strlit("delete");
        reveal_strlit("append");
        assert("file"@.len() == 4 && "if"@.len() == 2 && "set"@.len() == 3 && "delete"@.len() == 6
            && "append"@.len() == 6);
    }
    let file = match take_field(&mut fields, "file") {
        Some(Json::Text(file)) => file,
        _ => return Err(at(number, "no \"file\"")),
    };
    let ghost rest = fields@;
    proof {
        lemma_line_changes(before, rest, bad@);
    }
    let ops = match line_ops(&mut fields, bad, number) {
        Ok(ops) => ops,
        Err(error) => return Err(error),
    };
    let asked = take_field(&mut fields, "if");
    assert(asked == field_of(before, "if"@));
    let sha = match &asked {
        Some(Json::Text(sha)) => Some(sha.as_str()),
        _ => None,
    };
    match parse_if(sha, file.as_str()) {
        Ok(if_sha) => Ok(Target { file, ops, if_sha }),
        Err(error) => Err(error),
    }
}

proof fn lemma_line_changes(
    a: Seq<(String, Json)>,
    b: Seq<(String, Json)>,
    bad: Seq<(String, Error)>,
)
    requires
        field_of(a, "set"@) == field_of(b, "set"@),
        field_of(a, "delete"@) == field_of(b, "delete"@),
        field_of(a, "append"@) == field_of(b, "append"@),
    ensures
        line_changes(a, bad) == line_changes(b, bad),
{
}

/// What the lines of a batch ask for, from the first `n`: blank ones ask for nothing.
pub open spec fn batch_upto(
    lines: Seq<Seq<char>>,
    bad: Seq<(String, Error)>,
    n: int,
) -> Result<Seq<Aim>, Refusal>
    decreases n,
{
    if n <= 0 {
        Ok(Seq::empty())
    } else {
        match batch_upto(lines, bad, n - 1) {
            Err(refusal) => Err(refusal),
            Ok(so_far) => if trimmed(lines[n - 1]).len() == 0 {
                Ok(so_far)
            } else {
                match json_of(lines[n - 1]) {
                    Err(detail) => Err(Refusal::Malformed(at_line(n as nat) + detail@)),
                    Ok(value) => match line_aim(value, bad, n as nat) {
                        Ok(aim) => Ok(so_far.push(aim)),
                        Err(refusal) => Err(refusal),
                    },
                }
            },
        }
    }
}

proof fn lemma_batch(lines: Seq<Seq<char>>, bad: Seq<(String, Error)>, m: int, n: int)
    requires
        0 <= m <= n,
        batch_upto(lines, bad, m) is Err,
    ensures
        batch_upto(lines, bad, n) == batch_upto(lines, bad, m),
    decreases n,
{
    if m < n {
        lemma_batch(lines, bad, m, n - 1);
    }
}

/// What a batch asks for.
pub open spec fn batch_of(
    text: Seq<char>,
    bad: Seq<(String, Error)>,
) -> Result<Seq<Aim>, Refusal> {
    match batch_upto(lines_of(text), bad, lines_of(text).len() as int) {
        Ok(all) => if all.len() == 0 {
            Err(Refusal::Malformed("no targets"@))
        } else {
            Ok(all)
        },
        Err(refusal) => Err(refusal),
    }
}

/// `targets` are what was asked for, or why they are not.
pub open spec fn are_targets(
    targets: Result<Vec<Target>, Error>,
    all: Result<Seq<Aim>, Refusal>,
) -> bool {
    match all {
        Ok(all) => targets matches Ok(targets) && aims(targets@) == all,
        Err(refusal) => targets matches Err(error) && tells(error, refusal),
    }
}

/// The targets of a batch. `bad` holds those of its keys that are no paths.
pub fn parse_batch(input: &str, bad: &mut BadKeys) -> (r: Result<Vec<Target>, Error>)
    ensures
        are_targets(r, batch_of(input@, old(bad)@)),
{
    let ghost faults = bad@;
    let lines = text::lines(input);
    let ghost all = lines_of(input@);
    let mut targets: Vec<Target> = Vec::new();
    let mut i: usize = 0;
    assert(aims(targets@) =~= Seq::empty());
    assert(texts(lines@).len() == lines@.len());
    while i < lines.len()
        invariant
            i <= lines@.len() == all.len(),
            texts(lines@) == all,
            all == lines_of(input@),
            faults == old(bad)@,
            bad@ == faults,
            batch_upto(all, faults, i as int) == Ok::<Seq<Aim>, Refusal>(aims(targets@)),
        decreases lines@.len() - i,
    {
        let ghost had = targets@;
        assert(texts(lines@)[i as int] == lines@[i as int]@);
        let line = lines[i].as_str();
        let number = i + 1;
        if !text::trim(line).is_empty() {
            let value = match read_json(line) {
                Ok(value) => value,
                Err(detail) => {
                    proof {
                        lemma_batch(all, faults, i + 1, all.len() as int);
                    }
                    return Err(malformed(line_prefix(number).concat(detail.as_str()).as_str()));
                },
            };
            match line_target(value, bad, number) {
                Ok(target) => {
                    targets.push(target);
                    assert(aims(targets@) =~= aims(had).push(target.aim()));
                },
                Err(error) => {
                    proof {
                        lemma_batch(all, faults, i + 1, all.len() as int);
                    }
                    return Err(error);
                },
            }
        }
        i = i + 1;
    }
    assert(aims(targets@).len() == targets@.len());
    if targets.len() == 0 {
        return Err(malformed("no targets"));
    }
    Ok(targets)
}

/// A batch comes with nothing beside it.
pub open spec fn is_bare(args: TransformArgs) -> bool {
    args.file is None && args.set@.len() == 0 && args.delete@.len() == 0 && args.append@.len() == 0
        && args.if_sha is None
}

/// Whether the call reads a batch.
pub open spec fn reads_batch(args: TransformArgs) -> bool {
    args.from matches Some(from) && from@ == "-"@
}

/// What keeps a call from reading its batch, or from having one.
pub open spec fn from_refusal(args: TransformArgs) -> Option<Refusal> {
    match args.from {
        None => None,
        Some(from) => if from@ != "-"@ {
            Some(Refusal::Missing(from@, "a batch spec (`--from` reads `-`, stdin, only)"@))
        } else if !is_bare(args) {
            Some(
                Refusal::Missing(
                    "-"@,
                    "`--from -` alone, with the file, operations and `if` in each JSONL line"@,
                ),
            )
        } else {
            None
        },
    }
}

/// Whether standard input is to be read, before it is; refused where it may not be.
pub fn check_from(args: &TransformArgs) -> (r: Result<bool, Error>)
    ensures
        match from_refusal(*args) {
            Some(refusal) => r matches Err(error) && tells(error, refusal),
            None => r == Ok::<bool, Error>(reads_batch(*args)),
        },
{
    let from = match &args.from {
        None => return Ok(false),
        Some(from) => from,
    };
    if !text::same(from.as_str(), "-") {
        return Err(
            not_found(
                from.as_str(),
                "a batch spec (`--from` reads `-`, stdin, only)".to_owned(),
            ),
        );
    }
    if args.file.is_some() || args.set.len() > 0 || args.delete.len() > 0 || args.append.len() > 0
        || args.if_sha.is_some() {
        return Err(
            not_found(
                "-",
                "`--from -` alone, with the file, operations and `if` in each JSONL line".to_owned(),
            ),
        );
    }
    Ok(true)
}

/// What standard input says, where it could be read and is text.
pub open spec fn is_input(r: Result<String, Error>, input: Stdin) -> bool {
    match input {
        Stdin::Failed { detail, missing } => r matches Err(
            Error::Io { path, detail: d, missing: m },
        ) && path@ == "-"@ && d@ == detail@ && m == missing,
        Stdin::Bytes(bytes) => match r {
            Ok(s) => vstd::utf8::encode_utf8(s@) == bytes@,
            Err(error) => !vstd::utf8::valid_utf8(bytes@) && (error matches Error::Unsupported {
                path,
                reason: UnsupportedReason::NonUtf8Region,
            } && path@ == "-"@),
        },
    }
}

fn stdin_text(input: &Stdin) -> (r: Result<String, Error>)
    ensures
        is_input(r, *input),
{
    match input {
        Stdin::Failed { detail, missing } => Err(
            Error::Io { path: "-".to_owned(), detail: detail.clone(), missing: *missing },
        ),
        Stdin::Bytes(bytes) => match utf8_text(bytes.as_slice()) {
            Some(s) => Ok(s),
            None => Err(
                Error::Unsupported {
                    path: "-".to_owned(),
                    reason: UnsupportedReason::NonUtf8Region,
                },
            ),
        },
    }
}

/// The keys of the first `n` flags that can be split.
pub open spec fn flag_keys(flags: Seq<Flag>, n: int) -> Seq<Seq<char>>
    decreases n,
{
    if n <= 0 {
        Seq::empty()
    } else {
        match flags[n - 1].split {
            Some((key, _)) => flag_keys(flags, n - 1).push(key@),
            None => flag_keys(flags, n - 1),
        }
    }
}

/// The texts among the first `n` items.
pub open spec fn item_keys(items: Seq<Json>, n: int) -> Seq<Seq<char>>
    decreases n,
{
    if n <= 0 {
        Seq::empty()
    } else {
        match items[n - 1] {
            Json::Text(key) => item_keys(items, n - 1).push(key@),
            _ => item_keys(items, n - 1),
        }
    }
}

pub open spec fn field_keys(fields: Seq<(String, Json)>) -> Seq<Seq<char>> {
    fields.map_values(|field: (String, Json)| field.0@)
}

/// Keys as they are appended to.
pub open spec fn appended_keys(keys: Seq<Seq<char>>) -> Seq<Seq<char>> {
    keys.map_values(|key: Seq<char>| appended_key(key))
}

/// The keys that a part of a line names.
pub open spec fn part_keys(value: Option<Json>) -> Seq<Seq<char>> {
    match value {
        Some(Json::Object(fields)) => field_keys(fields@),
        Some(Json::List(items)) => item_keys(items@, items@.len() as int),
        _ => Seq::empty(),
    }
}

/// The keys that a line names.
pub open spec fn line_keys(value: Json) -> Seq<Seq<char>> {
    match value {
        Json::Object(fields) => part_keys(field_of(fields@, "set"@)) + part_keys(
            field_of(fields@, "delete"@),
        ) + appended_keys(part_keys(field_of(fields@, "append"@))),
        _ => Seq::empty(),
    }
}

/// The keys that the first `n` lines of a batch name.
pub open spec fn batch_keys(lines: Seq<Seq<char>>, n: int) -> Seq<Seq<char>>
    decreases n,
{
    if n <= 0 {
        Seq::empty()
    } else {
        match json_of(lines[n - 1]) {
            Ok(value) => batch_keys(lines, n - 1) + line_keys(value),
            Err(_) => batch_keys(lines, n - 1),
        }
    }
}

/// The keys that the flags name.
pub open spec fn typed_keys(args: TransformArgs) -> Seq<Seq<char>> {
    flag_keys(args.set@, args.set@.len() as int) + texts(args.delete@) + appended_keys(
        flag_keys(args.append@, args.append@.len() as int),
    )
}

/// Adds the keys that a part of a line names.
fn push_part(keys: &mut Vec<String>, value: Option<&Json>, appended: bool)
    ensures
        ({
            let named = part_keys(
                match value {
                    Some(value) => Some(*value),
                    None => None,
                },
            );
            texts(final(keys)@) == texts(old(keys)@) + (if appended {
                appended_keys(named)
            } else {
                named
            })
        }),
{
    let ghost before = texts(keys@);
    match value {
        Some(Json::Object(fields)) => {
            let ghost all = field_keys(fields@);
            let ghost named = if appended {
                appended_keys(all)
            } else {
                all
            };
            let mut i: usize = 0;
            assert(before + named.take(0) =~= before);
            while i < fields.len()
                invariant
                    i <= fields@.len(),
                    all == field_keys(fields@),
                    named == (if appended {
                        appended_keys(all)
                    } else {
                        all
                    }),
                    texts(keys@) == before + named.take(i as int),
                decreases fields@.len() - i,
            {
                let ghost had = keys@;
                let key = fields[i].0.as_str();
                keys.push(
                    if appended {
                        append_key(key)
                    } else {
                        key.to_owned()
                    },
                );
                assert(all[i as int] == key@);
                assert(texts(keys@) =~= texts(had).push(named[i as int]));
                i = i + 1;
                assert(texts(keys@) =~= before + named.take(i as int));
            }
            assert(named.take(i as int) =~= named);
        },
        Some(Json::List(items)) => {
            let ghost all = item_keys(items@, items@.len() as int);
            let mut i: usize = 0;
            assert(appended_keys(Seq::empty()) =~= Seq::empty());
            assert(texts(keys@) =~= before + Seq::<Seq<char>>::empty());
            while i < items.len()
                invariant
                    i <= items@.len(),
                    texts(keys@) == before + (if appended {
                        appended_keys(item_keys(items@, i as int))
                    } else {
                        item_keys(items@, i as int)
                    }),
                decreases items@.len() - i,
            {
                let ghost had = keys@;
                let ghost so_far = item_keys(items@, i as int);
                if let Json::Text(key) = &items[i] {
                    let one = if appended {
                        append_key(key.as_str())
                    } else {
                        key.clone()
                    };
                    keys.push(one);
                    assert(texts(keys@) =~= texts(had).push(one@));
                    assert(appended_keys(so_far.push(key@)) =~= appended_keys(so_far).push(
                        appended_key(key@),
                    ));
                    assert(texts(keys@) =~= before + (if appended {
                        appended_keys(so_far.push(key@))
                    } else {
                        so_far.push(key@)
                    }));
                }
                i = i + 1;
            }
        },
        _ => {
            assert(appended_keys(Seq::empty()) =~= Seq::empty());
            assert(texts(keys@) =~= before + Seq::<Seq<char>>::empty());
        },
    }
}

/// Adds the keys of flags.
fn push_flags(keys: &mut Vec<String>, flags: &Vec<Flag>, appended: bool)
    ensures
        texts(final(keys)@) == texts(old(keys)@) + (if appended {
            appended_keys(flag_keys(flags@, flags@.len() as int))
        } else {
            flag_keys(flags@, flags@.len() as int)
        }),
{
    let ghost before = texts(keys@);
    let mut i: usize = 0;
    assert(appended_keys(Seq::empty()) =~= Seq::empty());
    assert(texts(keys@) =~= before + Seq::<Seq<char>>::empty());
    while i < flags.len()
        invariant
            i <= flags@.len(),
            texts(keys@) == before + (if appended {
                appended_keys(flag_keys(flags@, i as int))
            } else {
                flag_keys(flags@, i as int)
            }),
        decreases flags@.len() - i,
    {
        let ghost had = keys@;
        let ghost so_far = flag_keys(flags@, i as int);
        if let Some((key, _)) = &flags[i].split {
            let one = if appended {
                append_key(key.as_str())
            } else {
                key.clone()
            };
            keys.push(one);
            assert(texts(keys@) =~= texts(had).push(one@));
            assert(appended_keys(so_far.push(key@)) =~= appended_keys(so_far).push(
                appended_key(key@),
            ));
            assert(texts(keys@) =~= before + (if appended {
                appended_keys(so_far.push(key@))
            } else {
                so_far.push(key@)
            }));
        }
        i = i + 1;
    }
}

/// The keys that a batch names, those of its lines that cannot be read left out.
pub fn keys_in(input: &str) -> (r: Vec<String>)
    ensures
        texts(r@) == batch_keys(lines_of(input@), lines_of(input@).len() as int),
{
    let lines = text::lines(input);
    let ghost all = lines_of(input@);
    let mut keys: Vec<String> = Vec::new();
    let mut i: usize = 0;
    assert(texts(lines@).len() == lines@.len());
    assert(texts(keys@) =~= Seq::empty());
    while i < lines.len()
        invariant
            i <= lines@.len() == all.len(),
            texts(lines@) == all,
            texts(keys@) == batch_keys(all, i as int),
        decreases lines@.len() - i,
    {
        let ghost before = texts(keys@);
        assert(texts(lines@)[i as int] == lines@[i as int]@);
        match read_json(lines[i].as_str()) {
            Ok(Json::Object(fields)) => {
                push_part(&mut keys, field(&fields, "set"), false);
                push_part(&mut keys, field(&fields, "delete"), false);
                push_part(&mut keys, field(&fields, "append"), true);
                assert(texts(keys@) =~= before + line_keys(Json::Object(fields)));
            },
            Ok(_) => {
                assert(before + Seq::<Seq<char>>::empty() =~= before);
            },
            Err(_) => {},
        }
        i = i + 1;
    }
    keys
}

/// The keys that a call names, which have to be tried before it is taken up.
pub fn named_keys(args: &TransformArgs, input: &Stdin) -> (r: Vec<String>)
    ensures
        if reads_batch(*args) {
            exists|read: Result<String, Error>| #[trigger]
                is_input(read, *input) && texts(r@) == (match read {
                    Ok(text) => batch_keys(lines_of(text@), lines_of(text@).len() as int),
                    Err(_) => Seq::empty(),
                })
        } else {
            texts(r@) == typed_keys(*args)
        },
{
    let batch = match &args.from {
        Some(from) => text::same(from.as_str(), "-"),
        None => false,
    };
    if batch {
        return match stdin_text(input) {
            Ok(text) => {
                let ghost read = Ok::<String, Error>(text);
                let keys = keys_in(text.as_str());
                assert(is_input(read, *input));
                keys
            },
            Err(error) => {
                let keys: Vec<String> = Vec::new();
                assert(is_input(Err(error), *input));
                assert(texts(keys@) =~= Seq::empty());
                keys
            },
        };
    }
    let mut keys: Vec<String> = Vec::new();
    assert(texts(keys@) =~= Seq::empty());
    push_flags(&mut keys, &args.set, false);
    let ghost first = texts(keys@);
    let mut i: usize = 0;
    assert(first + texts(args.delete@).take(0) =~= first);
    while i < args.delete.len()
        invariant
            i <= args.delete@.len(),
            texts(keys@) == first + texts(args.delete@).take(i as int),
        decreases args.delete@.len() - i,
    {
        let ghost had = keys@;
        keys.push(args.delete[i].clone());
        assert(texts(keys@) =~= texts(had).push(args.delete@[i as int]@));
        i = i + 1;
        assert(texts(keys@) =~= first + texts(args.delete@).take(i as int));
    }
    assert(texts(args.delete@).take(i as int) =~= texts(args.delete@));
    push_flags(&mut keys, &args.append, true);
    assert(texts(keys@) =~= typed_keys(*args));
    keys
}

/// What a call asks for. `input` is what standard input came to, where the call reads it, and `bad`
/// holds those of the keys that it names that are no paths.
pub fn targets(args: &TransformArgs, input: &Stdin, bad: &mut BadKeys) -> (r: Result<
    Vec<Target>,
    Error,
>)
    requires
        args.from is None ==> is_recorded(*args),
    ensures
        match from_refusal(*args) {
            Some(refusal) => r matches Err(error) && tells(error, refusal),
            None => if reads_batch(*args) {
                exists|read: Result<String, Error>| #[trigger]
                    is_input(read, *input) && (match read {
                        Ok(text) => are_targets(r, batch_of(text@, old(bad)@)),
                        Err(error) => r == Err::<Vec<Target>, Error>(error),
                    })
            } else {
                match single_of(*args, old(bad)@) {
                    Ok(aim) => r matches Ok(list) && aims(list@) == seq![aim],
                    Err(refusal) => r matches Err(error) && tells(error, refusal),
                }
            },
        },
{
    match check_from(args) {
        Err(error) => Err(error),
        Ok(true) => match stdin_text(input) {
            Ok(text) => {
                let ghost read = Ok::<String, Error>(text);
                let r = parse_batch(text.as_str(), bad);
                assert(is_input(read, *input));
                r
            },
            Err(error) => {
                assert(is_input(Err(error), *input));
                Err(error)
            },
        },
        Ok(false) => match single(args, bad) {
            Ok(target) => {
                let mut list: Vec<Target> = Vec::new();
                list.push(target);
                assert(aims(list@) =~= seq![target.aim()]);
                Ok(list)
            },
            Err(error) => Err(error),
        },
    }
}

/// A trailing `[]` on a key that is appended to means nothing, and nothing else of a key is taken
/// off.
pub proof fn law_only_empty_brackets_come_off_a_key(key: Seq<char>)
    ensures
        appended_key(key + "[]"@) == key,
        !"[]"@.is_suffix_of(key) ==> appended_key(key) == key,
        appended_key(key) == key || appended_key(key) + "[]"@ == key,
{
    let all = key + "[]"@;
    assert(all.subrange(all.len() - "[]"@.len(), all.len() as int) =~= "[]"@);
    assert(all.take(all.len() - "[]"@.len()) =~= key);
    if "[]"@.is_suffix_of(key) {
        assert(key.take(key.len() - "[]"@.len()) + "[]"@ =~= key);
    }
}

proof fn lemma_are_sets(fields: Seq<(String, Json)>, bad: Seq<(String, Error)>, n: int)
    requires
        0 <= n <= fields.len(),
    ensures
        set_changes(fields, bad, n) matches Ok(all) ==> all.len() == n && forall|i: int|
            0 <= i < n ==> #[trigger] all[i] == (Change::Assign {
                key: fields[i].0@,
                value: Given::Json(fields[i].1),
            }) && key_fault(bad, key_of(all[i])) is None,
        (forall|i: int| 0 <= i < n ==> key_fault(bad, (#[trigger] fields[i]).0@) is None)
            ==> set_changes(fields, bad, n) is Ok,
    decreases n,
{
    if n > 0 {
        lemma_are_sets(fields, bad, n - 1);
        assert(fields[n - 1] == fields[n - 1]);
    }
}

proof fn lemma_are_appends(fields: Seq<(String, Json)>, bad: Seq<(String, Error)>, n: int)
    requires
        0 <= n <= fields.len(),
    ensures
        append_changes(fields, bad, n) matches Ok(all) ==> all.len() == n && forall|i: int|
            0 <= i < n ==> #[trigger] all[i] == (Change::Append {
                key: appended_key(fields[i].0@),
                value: Given::Json(fields[i].1),
            }) && key_fault(bad, key_of(all[i])) is None,
        (forall|i: int|
            0 <= i < n ==> key_fault(bad, appended_key((#[trigger] fields[i]).0@)) is None)
            ==> append_changes(fields, bad, n) is Ok,
    decreases n,
{
    if n > 0 {
        lemma_are_appends(fields, bad, n - 1);
        assert(fields[n - 1] == fields[n - 1]);
    }
}

proof fn lemma_are_deletes(items: Seq<Json>, bad: Seq<(String, Error)>, n: int)
    requires
        0 <= n <= items.len(),
    ensures
        delete_changes(items, bad, n) matches Ok(all) ==> all.len() == n && forall|i: int|
            0 <= i < n ==> (items[i] matches Json::Text(key) && #[trigger] all[i]
                == (Change::Delete { key: key@ }) && key_fault(bad, key_of(all[i])) is None),
        (forall|i: int|
            0 <= i < n ==> ((#[trigger] items[i]) matches Json::Text(key) && key_fault(bad, key@) is None))
            ==> delete_changes(items, bad, n) is Ok,
    decreases n,
{
    if n > 0 {
        lemma_are_deletes(items, bad, n - 1);
        assert(items[n - 1] == items[n - 1]);
    }
}

/// The part of a line under `name` is this value; where there is none it asks for nothing.
pub open spec fn is_part(
    fields: Seq<(String, Json)>,
    name: Seq<char>,
    value: Json,
    empty: bool,
) -> bool {
    has_field(fields, name, value) || (empty && has_no_field(fields, name))
}

/// Every field under `"set"` is an assignment, every entry under `"delete"` a deletion and every
/// field under `"append"` an appending, in that order, each of the key and the value that stand
/// there, and nothing else is done to the file that the line names.
pub proof fn law_a_line_asks_for_what_stands_in_it(
    target: Target,
    fields: Vec<(String, Json)>,
    bad: Seq<(String, Error)>,
    number: nat,
    sets: Vec<(String, Json)>,
    deletes: Vec<Json>,
    appends: Vec<(String, Json)>,
)
    requires
        is_target(Ok(target), line_aim(Json::Object(fields), bad, number)),
        is_part(fields@, "set"@, Json::Object(sets), sets@.len() == 0),
        is_part(fields@, "delete"@, Json::List(deletes), deletes@.len() == 0),
        is_part(fields@, "append"@, Json::Object(appends), appends@.len() == 0),
    ensures
        ({
            let ops = target.ops@;
            let (n, m) = (sets@.len() as int, deletes@.len() as int);
            &&& ops.len() == n + m + appends@.len()
            &&& ops.len() > 0
            &&& forall|i: int|
                0 <= i < n ==> ((#[trigger] ops[i]) matches Op::Assign { key, value: Operand::Json(value) }
                    && key@ == sets@[i].0@ && value == sets@[i].1)
            &&& forall|i: int|
                n <= i < n + m ==> ((#[trigger] ops[i]) matches Op::Delete { key } && (
                deletes@[i - n] matches Json::Text(said) && key@ == said@))
            &&& forall|i: int|
                n + m <= i < ops.len() ==> ((#[trigger] ops[i]) matches Op::Append {
                    key,
                    value: Operand::Json(value),
                } && (key@ == appends@[i - n - m].0@ || key@ + "[]"@ == appends@[i - n - m].0@)
                    && value == appends@[i - n - m].1)
        }),
        exists|i: int|
            0 <= i < fields@.len() && (#[trigger] fields@[i]).0@ == "file"@ && (
            fields@[i].1 matches Json::Text(file) && target.file@ == file@),
{
    law_a_field_is_found_by_its_name(fields@, "set"@, Json::Object(sets));
    law_a_field_is_found_by_its_name(fields@, "delete"@, Json::List(deletes));
    law_a_field_is_found_by_its_name(fields@, "append"@, Json::Object(appends));
    law_a_field_is_found_by_its_name(fields@, "file"@, field_of(fields@, "file"@)->0);
    let (n, m) = (sets@.len() as int, deletes@.len() as int);
    lemma_are_sets(sets@, bad, n);
    lemma_are_deletes(deletes@, bad, m);
    lemma_are_appends(appends@, bad, appends@.len() as int);
    let ops = target.ops@;
    let all = changes(ops);
    let first = set_part(field_of(fields@, "set"@), bad)->Ok_0;
    let second = delete_part(field_of(fields@, "delete"@), bad)->Ok_0;
    let third = append_part(field_of(fields@, "append"@), bad)->Ok_0;
    assert(all == first + second + third);
    assert(all.len() == ops.len());
    assert(first.len() == n && second.len() == m);
    assert forall|i: int| 0 <= i < n implies ((#[trigger] ops[i]) matches Op::Assign {
        key,
        value: Operand::Json(value),
    } && key@ == sets@[i].0@ && value == sets@[i].1) by {
        assert(all[i] == ops[i].change());
        assert(all[i] == first[i]);
    }
    assert forall|i: int| n <= i < n + m implies ((#[trigger] ops[i]) matches Op::Delete { key } && (
    deletes@[i - n] matches Json::Text(said) && key@ == said@)) by {
        assert(all[i] == ops[i].change());
        assert(all[i] == second[i - n]);
    }
    assert forall|i: int| n + m <= i < ops.len() implies ((#[trigger] ops[i]) matches Op::Append {
        key,
        value: Operand::Json(value),
    } && (key@ == appends@[i - n - m].0@ || key@ + "[]"@ == appends@[i - n - m].0@) && value
        == appends@[i - n - m].1) by {
        assert(all[i] == ops[i].change());
        assert(all[i] == third[i - n - m]);
        law_only_empty_brackets_come_off_a_key(appends@[i - n - m].0@);
    }
}

/// A line whose keys are all paths is taken exactly where it asks for something, if it names a file
/// and has none but the known parts.
pub proof fn law_a_sound_line_is_taken(
    r: Result<Target, Error>,
    fields: Vec<(String, Json)>,
    bad: Seq<(String, Error)>,
    number: nat,
    file: String,
    sets: Vec<(String, Json)>,
    deletes: Vec<Json>,
    appends: Vec<(String, Json)>,
)
    requires
        is_target(r, line_aim(Json::Object(fields), bad, number)),
        forall|i: int|
            0 <= i < fields@.len() ==> {
                let key = (#[trigger] fields@[i]).0@;
                key == "file"@ || key == "set"@ || key == "delete"@ || key == "append"@
            },
        has_field(fields@, "file"@, Json::Text(file)),
        is_part(fields@, "set"@, Json::Object(sets), sets@.len() == 0),
        is_part(fields@, "delete"@, Json::List(deletes), deletes@.len() == 0),
        is_part(fields@, "append"@, Json::Object(appends), appends@.len() == 0),
        forall|i: int| 0 <= i < deletes@.len() ==> (#[trigger] deletes@[i]) is Text,
        bad.len() == 0,
    ensures
        r is Ok <==> sets@.len() + deletes@.len() + appends@.len() > 0,
        r matches Ok(target) ==> target.file@ == file@ && target.if_sha is None,
{
    law_a_field_is_found_by_its_name(fields@, "file"@, Json::Text(file));
    law_a_field_is_found_by_its_name(fields@, "set"@, Json::Object(sets));
    law_a_field_is_found_by_its_name(fields@, "delete"@, Json::List(deletes));
    law_a_field_is_found_by_its_name(fields@, "append"@, Json::Object(appends));
    lemma_are_sets(sets@, bad, sets@.len() as int);
    lemma_are_deletes(deletes@, bad, deletes@.len() as int);
    lemma_are_appends(appends@, bad, appends@.len() as int);
    lemma_all_known(fields@, fields@.len() as int);
    law_a_field_is_found_by_its_name(fields@, "if"@, Json::Null);
    assert(has_no_field(fields@, "if"@)) by {
        reveal_strlit("file");
        reveal_strlit("if");
        reveal_strlit("set");
        reveal_strlit("delete");
        reveal_strlit("append");
        assert("file"@.len() == 4 && "if"@.len() == 2 && "set"@.len() == 3 && "delete"@.len() == 6
            && "append"@.len() == 6);
        assert forall|j: int| 0 <= j < fields@.len() implies (#[trigger] fields@[j]).0@ != "if"@ by {
            let key = fields@[j].0@;
            assert(key == "file"@ || key == "set"@ || key == "delete"@ || key == "append"@);
        }
    }
}

proof fn lemma_all_known(fields: Seq<(String, Json)>, n: int)
    requires
        0 <= n <= fields.len(),
        forall|i: int|
            0 <= i < fields.len() ==> {
                let key = (#[trigger] fields[i]).0@;
                key == "file"@ || key == "set"@ || key == "delete"@ || key == "append"@
            },
    ensures
        unknown_key(fields, n) is None,
    decreases n,
{
    if n > 0 {
        lemma_all_known(fields, n - 1);
        assert(is_batch_key(fields[n - 1].0@));
    }
}

/// The kind of an operation.
pub open spec fn kind_of(op: Op) -> OpKind {
    match op {
        Op::Assign { .. } => OpKind::Assign,
        Op::Delete { .. } => OpKind::Delete,
        Op::Append { .. } => OpKind::Append,
    }
}

proof fn lemma_kind_rank(order: Seq<OpKind>, kind: OpKind, n: int)
    requires
        0 <= n <= order.len(),
    ensures
        kind_count(order, kind, n) == order.take(n).filter(|k: OpKind| k == kind).len(),
    decreases n,
{
    reveal(Seq::filter);
    if n > 0 {
        lemma_kind_rank(order, kind, n - 1);
        assert(order.take(n).drop_last() =~= order.take(n - 1));
        assert(order.take(n).last() == order[n - 1]);
    }
}

proof fn lemma_typed_are(args: TransformArgs, bad: Seq<(String, Error)>, n: int)
    requires
        0 <= n <= args.order@.len(),
    ensures
        typed_upto(args, bad, n) matches Ok(all) ==> all.len() == n && forall|i: int|
            0 <= i < n ==> typed_change(args, bad, i) == Ok::<Change, Refusal>(#[trigger] all[i]),
    decreases n,
{
    if n > 0 {
        lemma_typed_are(args, bad, n - 1);
    }
}

/// The flags ask for their operations in the order in which they were typed, each on the key and
/// with the value that were typed: the first `--set` that was typed is the first assignment, and so
/// on for each kind.
pub proof fn law_flags_ask_for_what_was_typed(
    target: Target,
    args: TransformArgs,
    bad: Seq<(String, Error)>,
)
    requires
        is_target(Ok(target), single_of(args, bad)),
        is_recorded(args),
    ensures
        args.file matches Some(file) && target.file@ == file@,
        target.ops@.len() == args.order@.len(),
        target.ops@.len() > 0,
        forall|i: int|
            0 <= i < target.ops@.len() ==> {
                let op = #[trigger] target.ops@[i];
                let kind = args.order@[i];
                let at = args.order@.take(i).filter(|k: OpKind| k == kind).len() as int;
                &&& kind_of(op) == kind
                &&& op matches Op::Assign { key, value } ==> (args.set@[at].split matches Some((k, v))
                    && key@ == k@ && (value matches Operand::Typed(said) && said@ == v@))
                &&& op matches Op::Delete { key } ==> key@ == args.delete@[at]@
                &&& op matches Op::Append { key, value } ==> (args.append@[at].split matches Some(
                    (k, v),
                ) && (key@ == k@ || key@ + "[]"@ == k@) && (value matches Operand::Typed(said)
                    && said@ == v@))
            },
{
    let ops = target.ops@;
    let n = args.order@.len() as int;
    lemma_typed_are(args, bad, n);
    let all = typed_upto(args, bad, n)->Ok_0;
    assert(changes(ops) == all);
    assert(changes(ops).len() == ops.len());
    assert forall|i: int| 0 <= i < ops.len() implies {
        let op = #[trigger] ops[i];
        let kind = args.order@[i];
        let at = args.order@.take(i).filter(|k: OpKind| k == kind).len() as int;
        &&& kind_of(op) == kind
        &&& op matches Op::Assign { key, value } ==> (args.set@[at].split matches Some((k, v))
            && key@ == k@ && (value matches Operand::Typed(said) && said@ == v@))
        &&& op matches Op::Delete { key } ==> key@ == args.delete@[at]@
        &&& op matches Op::Append { key, value } ==> (args.append@[at].split matches Some((k, v)) && (
        key@ == k@ || key@ + "[]"@ == k@) && (value matches Operand::Typed(said) && said@ == v@))
    } by {
        let kind = args.order@[i];
        lemma_kind_rank(args.order@, kind, i);
        assert(changes(ops)[i] == ops[i].change());
        assert(typed_change(args, bad, i) == Ok::<Change, Refusal>(all[i]));
        let at = kind_count(args.order@, kind, i) as int;
        if kind == OpKind::Append {
            if let Some((k, v)) = args.append@[at].split {
                law_only_empty_brackets_come_off_a_key(k@);
            }
        }
    }
}

/// An `--append` and a batch line that appends to the same key ask for the same kind of operation on
/// the same key, and so do a `--set` and a line that sets it.
pub proof fn law_flags_and_lines_ask_for_the_same(
    typed: Op,
    flag: Flag,
    appends: bool,
    target: Target,
    fields: Vec<(String, Json)>,
    bad: Seq<(String, Error)>,
    number: nat,
    given: Vec<(String, Json)>,
)
    requires
        is_op(
            Ok(typed),
            if appends {
                append_change(flag, bad)
            } else {
                set_change(flag, bad)
            },
        ),
        is_target(Ok(target), line_aim(Json::Object(fields), bad, number)),
        has_field(
            fields@,
            if appends {
                "append"@
            } else {
                "set"@
            },
            Json::Object(given),
        ),
        has_no_field(fields@, "delete"@),
        has_no_field(
            fields@,
            if appends {
                "set"@
            } else {
                "append"@
            },
        ),
        given@.len() == 1,
        flag.split matches Some((key, _)) && key@ == given@[0].0@,
    ensures
        target.ops@.len() == 1,
        kind_of(target.ops@[0]) == kind_of(typed),
        key_of(target.ops@[0].change()) == key_of(typed.change()),
{
    law_a_field_is_found_by_its_name(fields@, "set"@, Json::Object(given));
    law_a_field_is_found_by_its_name(fields@, "delete"@, Json::Null);
    law_a_field_is_found_by_its_name(fields@, "append"@, Json::Object(given));
    lemma_are_sets(given@, bad, 1);
    lemma_are_appends(given@, bad, 1);
    let all = changes(target.ops@);
    assert(all.len() == target.ops@.len());
    assert(all[0] == target.ops@[0].change());
}

/// The key that an operation is on.
pub open spec fn op_key(op: Op) -> Seq<char> {
    match op {
        Op::Assign { key, .. } => key@,
        Op::Delete { key } => key@,
        Op::Append { key, .. } => key@,
    }
}

proof fn lemma_no_fault(bad: Seq<(String, Error)>, key: Seq<char>)
    ensures
        key_fault(bad, key) is None <==> forall|k: int|
            0 <= k < bad.len() ==> (#[trigger] bad[k]).0@ != key,
    decreases bad.len(),
{
    if bad.len() > 0 {
        let rest = bad.drop_first();
        lemma_no_fault(rest, key);
        if key_fault(bad, key) is None {
            assert forall|k: int| 0 <= k < bad.len() implies (#[trigger] bad[k]).0@ != key by {
                if k > 0 {
                    assert(rest[k - 1] == bad[k]);
                }
            }
        } else if bad[0].0@ != key {
            let k = choose|k: int| 0 <= k < rest.len() && (#[trigger] rest[k]).0@ == key;
            assert(bad[k + 1] == rest[k]);
        }
    }
}

/// No operation is taken on a key that is no path, neither from the flags nor from a batch line:
/// then the whole is refused.
pub proof fn law_no_operation_is_on_a_bad_key(
    target: Target,
    args: TransformArgs,
    value: Json,
    bad: Seq<(String, Error)>,
    number: nat,
)
    requires
        is_target(Ok(target), single_of(args, bad)) || is_target(
            Ok(target),
            line_aim(value, bad, number),
        ),
    ensures
        forall|i: int, k: int|
            0 <= i < target.ops@.len() && 0 <= k < bad.len() ==> op_key(#[trigger] target.ops@[i])
                != (#[trigger] bad[k]).0@,
{
    let ops = target.ops@;
    assert(changes(ops).len() == ops.len());
    assert forall|i: int, k: int| 0 <= i < ops.len() && 0 <= k < bad.len() implies op_key(
        #[trigger] ops[i],
    ) != (#[trigger] bad[k]).0@ by {
        assert(changes(ops)[i] == ops[i].change());
        lemma_no_fault(bad, op_key(ops[i]));
        if is_target(Ok(target), single_of(args, bad)) {
            lemma_typed_are(args, bad, args.order@.len() as int);
            let all = typed_upto(args, bad, args.order@.len() as int)->Ok_0;
            assert(typed_change(args, bad, i) == Ok::<Change, Refusal>(all[i]));
        } else {
            let fields = value->Object_0@;
            let set = field_of(fields, "set"@);
            let delete = field_of(fields, "delete"@);
            let append = field_of(fields, "append"@);
            let first = set_part(set, bad)->Ok_0;
            let second = delete_part(delete, bad)->Ok_0;
            let third = append_part(append, bad)->Ok_0;
            if let Some(Json::Object(all)) = set {
                lemma_are_sets(all@, bad, all@.len() as int);
            }
            if let Some(Json::List(all)) = delete {
                lemma_are_deletes(all@, bad, all@.len() as int);
            }
            if let Some(Json::Object(all)) = append {
                lemma_are_appends(all@, bad, all@.len() as int);
            }
            assert(changes(ops) == first + second + third);
            if i < first.len() {
                assert(changes(ops)[i] == first[i]);
            } else if i < first.len() + second.len() {
                assert(changes(ops)[i] == second[i - first.len()]);
            } else {
                assert(changes(ops)[i] == third[i - first.len() - second.len()]);
            }
        }
    }
}

proof fn lemma_batch_lines(lines: Seq<Seq<char>>, bad: Seq<(String, Error)>, n: int)
    requires
        0 <= n <= lines.len(),
        batch_upto(lines, bad, n) is Ok,
    ensures
        batch_upto(lines, bad, n)->Ok_0.len() == lines.take(n).filter(
            |line: Seq<char>| !is_blank(line),
        ).len(),
        forall|i: int|
            0 <= i < n && !is_blank(#[trigger] lines[i]) ==> {
                let at = lines.take(i).filter(|line: Seq<char>| !is_blank(line)).len() as int;
                &&& 0 <= at < batch_upto(lines, bad, n)->Ok_0.len()
                &&& json_of(lines[i]) matches Ok(value) && line_aim(value, bad, (i + 1) as nat)
                    == Ok::<Aim, Refusal>(batch_upto(lines, bad, n)->Ok_0[at])
            },
    decreases n,
{
    reveal(Seq::filter);
    if n > 0 {
        let said = |line: Seq<char>| !is_blank(line);
        let had = batch_upto(lines, bad, n - 1)->Ok_0;
        let all = batch_upto(lines, bad, n)->Ok_0;
        lemma_batch_lines(lines, bad, n - 1);
        assert(lines.take(n).drop_last() =~= lines.take(n - 1));
        let (from, to) = law_trimming_takes_white_space_alone(lines[n - 1]);
        assert(trimmed(lines[n - 1]).len() == 0 <==> is_blank(lines[n - 1]));
        assert forall|i: int| 0 <= i < n && !is_blank(#[trigger] lines[i]) implies {
            let at = lines.take(i).filter(said).len() as int;
            &&& 0 <= at < all.len()
            &&& json_of(lines[i]) matches Ok(value) && line_aim(value, bad, (i + 1) as nat) == Ok::<
                Aim,
                Refusal,
            >(all[at])
        } by {
            let at = lines.take(i).filter(said).len() as int;
            if i < n - 1 {
                assert(all[at] == had[at]);
            } else {
                assert(all[at] == all.last());
            }
        }
    }
}

/// A batch has a target for each of its lines that is not blank, in their order, and none besides;
/// one line that is refused refuses it whole.
pub proof fn law_a_batch_has_a_target_for_each_line(
    r: Result<Vec<Target>, Error>,
    text: Seq<char>,
    bad: Seq<(String, Error)>,
)
    requires
        are_targets(r, batch_of(text, bad)),
    ensures
        r matches Ok(targets) ==> {
            let lines = lines_of(text);
            &&& targets@.len() > 0
            &&& targets@.len() == lines.filter(|line: Seq<char>| !is_blank(line)).len()
            &&& forall|i: int|
                0 <= i < lines.len() && !is_blank(#[trigger] lines[i]) ==> {
                    let at = lines.take(i).filter(|line: Seq<char>| !is_blank(line)).len() as int;
                    &&& 0 <= at < targets@.len()
                    &&& json_of(lines[i]) matches Ok(value) && is_target(
                        Ok(targets@[at]),
                        line_aim(value, bad, (i + 1) as nat),
                    )
                }
        },
{
    if let Ok(targets) = r {
        let lines = lines_of(text);
        lemma_batch_lines(lines, bad, lines.len() as int);
        assert(lines.take(lines.len() as int) =~= lines);
        let all = batch_of(text, bad)->Ok_0;
        assert(aims(targets@) == all);
        assert(aims(targets@).len() == targets@.len());
        assert forall|i: int| 0 <= i < lines.len() && !is_blank(#[trigger] lines[i]) implies {
            let at = lines.take(i).filter(|line: Seq<char>| !is_blank(line)).len() as int;
            &&& 0 <= at < targets@.len()
            &&& json_of(lines[i]) matches Ok(value) && is_target(
                Ok(targets@[at]),
                line_aim(value, bad, (i + 1) as nat),
            )
        } by {
            let at = lines.take(i).filter(|line: Seq<char>| !is_blank(line)).len() as int;
            assert(0 <= at < all.len());
            assert(aims(targets@)[at] == targets@[at].aim());
        }
    }
}

/// A batch is read where the call says so and nothing else is asked for beside it; a call that names
/// another source for it is refused.
pub proof fn law_a_batch_stands_alone(args: TransformArgs)
    ensures
        from_refusal(args) is None <==> (args.from matches Some(from) ==> from@ == "-"@ && is_bare(
            args,
        )),
        reads_batch(args) <==> (args.from is Some && (args.from->0)@ == "-"@),
{
}

proof fn lemma_flag_keys(flags: Seq<Flag>, i: int, n: int)
    requires
        0 <= i < n <= flags.len(),
        flags[i].split is Some,
    ensures
        flag_keys(flags, n).contains((flags[i].split->0).0@),
    decreases n,
{
    let key = (flags[i].split->0).0@;
    let (had, all) = (flag_keys(flags, n - 1), flag_keys(flags, n));
    if i == n - 1 {
        assert(all[all.len() - 1] == key);
    } else {
        lemma_flag_keys(flags, i, n - 1);
        let j = choose|j: int| 0 <= j < had.len() && had[j] == key;
        assert(all[j] == key);
    }
}

proof fn lemma_item_keys(items: Seq<Json>, i: int, n: int)
    requires
        0 <= i < n <= items.len(),
        items[i] is Text,
    ensures
        item_keys(items, n).contains(items[i]->Text_0@),
    decreases n,
{
    let key = items[i]->Text_0@;
    let (had, all) = (item_keys(items, n - 1), item_keys(items, n));
    if i == n - 1 {
        assert(all[all.len() - 1] == key);
    } else {
        lemma_item_keys(items, i, n - 1);
        let j = choose|j: int| 0 <= j < had.len() && had[j] == key;
        assert(all[j] == key);
    }
}

/// Every key that the flags name is one of those that are looked at, an appended one without its
/// brackets.
pub proof fn law_every_key_of_a_flag_is_looked_at(args: TransformArgs, i: int)
    ensures
        0 <= i < args.set@.len() && args.set@[i].split is Some ==> typed_keys(args).contains(
            (args.set@[i].split->0).0@,
        ),
        0 <= i < args.delete@.len() ==> typed_keys(args).contains(args.delete@[i]@),
        0 <= i < args.append@.len() && args.append@[i].split is Some ==> typed_keys(args).contains(
            appended_key((args.append@[i].split->0).0@),
        ),
{
    let all = typed_keys(args);
    let first = flag_keys(args.set@, args.set@.len() as int);
    let second = texts(args.delete@);
    let third = flag_keys(args.append@, args.append@.len() as int);
    if 0 <= i < args.set@.len() && args.set@[i].split is Some {
        lemma_flag_keys(args.set@, i, args.set@.len() as int);
        let j = choose|j: int| 0 <= j < first.len() && first[j] == (args.set@[i].split->0).0@;
        assert(all[j] == first[j]);
    }
    if 0 <= i < args.delete@.len() {
        assert(all[first.len() + i] == second[i]);
    }
    if 0 <= i < args.append@.len() && args.append@[i].split is Some {
        lemma_flag_keys(args.append@, i, args.append@.len() as int);
        let key = (args.append@[i].split->0).0@;
        let j = choose|j: int| 0 <= j < third.len() && third[j] == key;
        assert(appended_keys(third)[j] == appended_key(key));
        assert(all[first.len() + second.len() + j] == appended_keys(third)[j]);
    }
}

/// Every key that a line of a batch names is one of those that are looked at.
pub proof fn law_every_key_of_a_line_is_looked_at(fields: Vec<(String, Json)>, i: int)
    ensures
        ({
            let keys = line_keys(Json::Object(fields));
            &&& field_of(fields@, "set"@) matches Some(Json::Object(set)) ==> (0 <= i < set@.len()
                ==> keys.contains(set@[i].0@))
            &&& field_of(fields@, "append"@) matches Some(Json::Object(append)) ==> (0 <= i
                < append@.len() ==> keys.contains(appended_key(append@[i].0@)))
            &&& field_of(fields@, "delete"@) matches Some(Json::List(items)) ==> (0 <= i
                < items@.len() && items@[i] is Text ==> keys.contains(items@[i]->Text_0@))
        }),
{
    let keys = line_keys(Json::Object(fields));
    let first = part_keys(field_of(fields@, "set"@));
    let second = part_keys(field_of(fields@, "delete"@));
    let third = part_keys(field_of(fields@, "append"@));
    if let Some(Json::Object(set)) = field_of(fields@, "set"@) {
        if 0 <= i < set@.len() {
            assert(keys[i] == first[i]);
        }
    }
    if let Some(Json::Object(append)) = field_of(fields@, "append"@) {
        if 0 <= i < append@.len() {
            assert(appended_keys(third)[i] == appended_key(append@[i].0@));
            assert(keys[first.len() + second.len() + i] == appended_keys(third)[i]);
        }
    }
    if let Some(Json::List(items)) = field_of(fields@, "delete"@) {
        if 0 <= i < items@.len() && items@[i] is Text {
            lemma_item_keys(items@, i, items@.len() as int);
            let key = items@[i]->Text_0@;
            let j = choose|j: int| 0 <= j < second.len() && second[j] == key;
            assert(keys[first.len() + j] == key);
        }
    }
}

/// The keys of every line that can be read are looked at.
pub proof fn law_every_line_is_looked_at(lines: Seq<Seq<char>>, i: int, n: int, key: Seq<char>)
    requires
        0 <= i < n <= lines.len(),
        json_of(lines[i]) matches Ok(value) && line_keys(value).contains(key),
    ensures
        batch_keys(lines, n).contains(key),
    decreases n,
{
    let (had, all) = (batch_keys(lines, n - 1), batch_keys(lines, n));
    if i == n - 1 {
        let more = line_keys(json_of(lines[i])->Ok_0);
        let j = choose|j: int| 0 <= j < more.len() && more[j] == key;
        assert(all[had.len() + j] == key);
    } else {
        law_every_line_is_looked_at(lines, i, n - 1, key);
        let j = choose|j: int| 0 <= j < had.len() && had[j] == key;
        assert(all[j] == key);
    }
}

} // verus!
