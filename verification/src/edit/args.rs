//! The edits that a command line asks for.
use vstd::prelude::*;
use vstd::utf8::{
    decode_utf8, decode_utf8_encode_utf8, encode_utf8, encode_utf8_decode_utf8,
    encode_utf8_valid_utf8, valid_utf8,
};

use crate::edit::batch::{if_message, is_batch, jsonl_asks, jsonl_problems, parse_if, sha_digits};
use crate::edit::fence::{fence_asks, fence_problems, first_said, no_form, parse_batch};
use crate::edit::lines::utf8_text;
use crate::edit::spec::{asked_all, said, Asked, AskedOp, EditOp, EditSpec};
use crate::error::{is_not_found, is_usage, not_found, usage, Error};
use crate::output::{is_sha, AnchorSide};
use crate::text;
use crate::text::{decimal, decimal_of, has_text, lines_of};

verus! {

/// The flags of an edit.
#[derive(Debug)]
pub struct EditArgs {
    pub target: Option<String>,
    pub more_targets: Vec<String>,
    pub old: Option<String>,
    pub new: Option<String>,
    pub all: bool,
    pub expect: Option<String>,
    pub expect_all: bool,
    pub insert_after: Option<String>,
    pub insert_before: Option<String>,
    pub from: Option<String>,
    pub if_sha: Option<String>,
    pub normalize: bool,
    pub literal_newlines: bool,
    pub check: Option<String>,
    pub check_timeout: u64,
}

/// What came of reading standard input.
#[derive(Debug)]
pub enum Stdin {
    Bytes(Vec<u8>),
    /// It could not be read; `missing` where what it stands for is not there.
    Failed { detail: String, missing: bool },
}

/// Why a command line asks for no edit.
pub ghost enum Problem {
    NotFound { target: Seq<char>, what: Seq<char> },
    Usage { message: Seq<char> },
    Unread { detail: Seq<char>, missing: bool },
}

/// `error` tells the problem.
pub open spec fn tells(error: Error, problem: Problem) -> bool {
    match problem {
        Problem::NotFound { target, what } => is_not_found(error, target, what),
        Problem::Usage { message } => is_usage(error, message),
        Problem::Unread { detail, missing } => error matches Error::Io {
            path,
            detail: d,
            missing: m,
        } && path@ == "-"@ && d@ == detail && m == missing,
    }
}

/// The text on standard input, for a flag that reads it.
pub open spec fn stdin_said(stdin: Stdin, flag: Seq<char>) -> Result<Seq<char>, Problem> {
    match stdin {
        Stdin::Failed { detail, missing } => Err(Problem::Unread { detail: detail@, missing }),
        Stdin::Bytes(bytes) => if valid_utf8(bytes@) {
            Ok(decode_utf8(bytes@))
        } else {
            Err(Problem::Usage { message: flag + " input is not valid UTF-8"@ })
        },
    }
}

pub fn stdin_text(stdin: &Stdin, flag: &str) -> (r: Result<String, Error>)
    ensures
        match r {
            Ok(s) => stdin_said(*stdin, flag@) == Ok::<Seq<char>, Problem>(s@),
            Err(e) => stdin_said(*stdin, flag@) matches Err(p) && tells(e, p),
        },
{
    match stdin {
        Stdin::Failed { detail, missing } => Err(
            Error::Io { path: "-".to_owned(), detail: detail.clone(), missing: *missing },
        ),
        Stdin::Bytes(bytes) => match utf8_text(bytes.as_slice()) {
            Some(s) => {
                proof {
                    encode_utf8_valid_utf8(s@);
                    encode_utf8_decode_utf8(s@);
                }
                Ok(s)
            },
            None => Err(usage(flag.to_owned().concat(" input is not valid UTF-8"))),
        },
    }
}

pub open spec fn is_dash(value: Option<String>) -> bool {
    value is Some && value->0@ == "-"@
}

fn dash(value: &Option<String>) -> (r: bool)
    ensures
        r == is_dash(*value),
{
    match value {
        Some(s) => text::same(s.as_str(), "-"),
        None => false,
    }
}

/// Two flags that would both read standard input.
pub open spec fn conflict_of(args: EditArgs) -> Option<Seq<char>> {
    let old = is_dash(args.old);
    let new = is_dash(args.new);
    if old && new {
        Some("--old - and --new - both read stdin"@)
    } else if old && args.expect_all {
        Some("--old - and --expect-all both read stdin"@)
    } else if new && args.expect_all {
        Some("--new - and --expect-all both read stdin"@)
    } else {
        None
    }
}

/// A value of `-` reads all of stdin, and only one flag may: a second claimant beside
/// `--expect-all` would silently starve one of them.
pub fn dash_conflict(args: &EditArgs) -> (r: Option<&'static str>)
    ensures
        match r {
            Some(s) => conflict_of(*args) == Some(s@),
            None => conflict_of(*args) is None,
        },
{
    let old = dash(&args.old);
    let new = dash(&args.new);
    match (old, new, args.expect_all) {
        (true, true, _) => Some("--old - and --new - both read stdin"),
        (true, false, true) => Some("--old - and --expect-all both read stdin"),
        (false, true, true) => Some("--new - and --expect-all both read stdin"),
        _ => None,
    }
}

/// The command line replaces text that it spells out.
pub open spec fn is_replace(args: EditArgs) -> bool {
    args.insert_after is None && args.insert_before is None && args.expect is None
        && !args.expect_all
}

/// Whether a batch, or a flag that this command line uses, reads standard input.
pub fn reads_stdin(args: &EditArgs) -> (r: bool)
    ensures
        r == (if args.from is Some {
            args.target is None && is_dash(args.from)
        } else {
            args.target is Some && conflict_of(*args) is None && (is_dash(args.new)
                || args.expect_all || (is_replace(*args) && is_dash(args.old)))
        }),
{
    if args.from.is_some() {
        return args.target.is_none() && dash(&args.from);
    }
    let plain = args.insert_after.is_none() && args.insert_before.is_none()
        && args.expect.is_none() && !args.expect_all;
    args.target.is_some() && dash_conflict(args).is_none() && (dash(&args.new) || args.expect_all
        || (plain && dash(&args.old)))
}

/// The value of a flag; `-` stands for standard input, which must not be empty where there would
/// be nothing to match.
pub open spec fn flag_value(
    value: Option<String>,
    flag: Seq<char>,
    allow_empty: bool,
    stdin: Stdin,
) -> Result<Option<Seq<char>>, Problem> {
    if is_dash(value) {
        match stdin_said(stdin, flag) {
            Ok(s) => if s.len() == 0 && !allow_empty {
                Err(
                    Problem::Usage {
                        message: flag
                            + " - read empty stdin \u{b7} there is nothing to match"@,
                    },
                )
            } else {
                Ok(Some(s))
            },
            Err(p) => Err(p),
        }
    } else {
        Ok(said(value))
    }
}

pub fn resolve_dash(value: &Option<String>, flag: &str, allow_empty: bool, stdin: &Stdin) -> (r:
    Result<Option<String>, Error>)
    ensures
        match r {
            Ok(v) => flag_value(*value, flag@, allow_empty, *stdin) == Ok::<
                Option<Seq<char>>,
                Problem,
            >(said(v)),
            Err(e) => flag_value(*value, flag@, allow_empty, *stdin) matches Err(p) && tells(e, p),
        },
{
    if dash(value) {
        match stdin_text(stdin, flag) {
            Ok(s) => if s.as_str().is_empty() && !allow_empty {
                Err(
                    usage(
                        flag.to_owned().concat(
                            " - read empty stdin \u{b7} there is nothing to match",
                        ),
                    ),
                )
            } else {
                Ok(Some(s))
            },
            Err(e) => Err(e),
        }
    } else {
        Ok(value.clone())
    }
}

/// The flag that pins one file, where one was given.
pub open spec fn pinning_flag(args: EditArgs) -> Option<Seq<char>> {
    if args.if_sha is Some {
        Some("--if"@)
    } else if args.expect is Some {
        Some("--expect"@)
    } else if args.expect_all {
        Some("--expect-all"@)
    } else {
        None
    }
}

pub fn exclusive_flag(args: &EditArgs) -> (r: Option<&'static str>)
    ensures
        match r {
            Some(s) => pinning_flag(*args) == Some(s@),
            None => pinning_flag(*args) is None,
        },
{
    if args.if_sha.is_some() {
        Some("--if")
    } else if args.expect.is_some() {
        Some("--expect")
    } else if args.expect_all {
        Some("--expect-all")
    } else {
        None
    }
}

/// The bytes of a value that has to be there.
pub open spec fn required_bytes(
    value: Option<Seq<char>>,
    message: Seq<char>,
) -> Result<Seq<u8>, Problem> {
    match value {
        Some(s) => Ok(encode_utf8(s)),
        None => Err(Problem::Usage { message }),
    }
}

/// A missing flag is malformed usage, never a failed match.
pub fn required(value: Option<String>, message: String) -> (r: Result<Vec<u8>, Error>)
    ensures
        match r {
            Ok(bytes) => required_bytes(said(value), message@) == Ok::<Seq<u8>, Problem>(bytes@),
            Err(e) => required_bytes(said(value), message@) matches Err(p) && tells(e, p),
        },
{
    match value {
        Some(s) => Ok(s.as_str().as_bytes_vec()),
        None => Err(usage(message)),
    }
}

pub open spec fn new_missing(raw: Seq<char>) -> Seq<char> {
    raw + ": --new is required \u{b7} --new '' deletes what the edit matches"@
}

pub open spec fn old_missing(raw: Seq<char>) -> Seq<char> {
    raw
        + ": --old is required \u{b7} or --expect with a :a-b range, or --insert-after/--insert-before"@
}

/// What the flags ask to be done to one target.
pub open spec fn op_asked(
    args: EditArgs,
    raw: Seq<char>,
    old: Option<Seq<char>>,
    new: Option<Seq<char>>,
    stdin: Stdin,
) -> Result<AskedOp, Problem> {
    let bytes = required_bytes(new, new_missing(raw));
    if args.insert_after is Some {
        match bytes {
            Ok(new) => Ok(
                AskedOp::Insert { side: AnchorSide::After, anchor: args.insert_after->0@, new },
            ),
            Err(p) => Err(p),
        }
    } else if args.insert_before is Some {
        match bytes {
            Ok(new) => Ok(
                AskedOp::Insert { side: AnchorSide::Before, anchor: args.insert_before->0@, new },
            ),
            Err(p) => Err(p),
        }
    } else if args.expect is Some || args.expect_all {
        let whole = if args.expect_all {
            match stdin_said(stdin, "--expect-all"@) {
                Ok(s) => Ok(Some(s)),
                Err(p) => Err(p),
            }
        } else {
            Ok(None)
        };
        match (whole, bytes) {
            (Ok(expect_all), Ok(new)) => Ok(
                AskedOp::ReplaceRange { expect: said(args.expect), expect_all, new },
            ),
            (Err(p), _) => Err(p),
            (_, Err(p)) => Err(p),
        }
    } else {
        match (required_bytes(old, old_missing(raw)), bytes) {
            (Ok(old), Ok(new)) => Ok(AskedOp::Replace { old, new, all: args.all }),
            (Err(p), _) => Err(p),
            (_, Err(p)) => Err(p),
        }
    }
}

/// The edit of one target that the flags ask for.
pub open spec fn target_asks(
    args: EditArgs,
    raw: Seq<char>,
    old: Option<Seq<char>>,
    new: Option<Seq<char>>,
    stdin: Stdin,
) -> Result<Asked, Problem> {
    match op_asked(args, raw, old, new, stdin) {
        Err(p) => Err(p),
        Ok(op) => if args.if_sha is Some && !is_sha(sha_digits(args.if_sha->0@)) {
            Err(Problem::Usage { message: if_message(raw) })
        } else {
            Ok(
                Asked {
                    raw,
                    op,
                    sha: if args.if_sha is Some {
                        Some(sha_digits(args.if_sha->0@).take(12))
                    } else {
                        None
                    },
                    normalize: args.normalize,
                    literal: args.literal_newlines,
                },
            )
        },
    }
}

fn build_op(
    args: &EditArgs,
    raw: &str,
    old: &Option<String>,
    new: &Option<String>,
    stdin: &Stdin,
) -> (r: Result<EditOp, Error>)
    ensures
        match r {
            Ok(op) => op_asked(*args, raw@, said(*old), said(*new), *stdin) == Ok::<
                AskedOp,
                Problem,
            >(op.asked()),
            Err(e) => op_asked(*args, raw@, said(*old), said(*new), *stdin) matches Err(p)
                && tells(e, p),
        },
{
    let bytes = required(
        new.clone(),
        raw.to_owned().concat(
            ": --new is required \u{b7} --new '' deletes what the edit matches",
        ),
    );
    if let Some(anchor) = &args.insert_after {
        return match bytes {
            Ok(new) => Ok(
                EditOp::Insert { side: AnchorSide::After, anchor: anchor.clone(), new },
            ),
            Err(e) => Err(e),
        };
    }
    if let Some(anchor) = &args.insert_before {
        return match bytes {
            Ok(new) => Ok(
                EditOp::Insert { side: AnchorSide::Before, anchor: anchor.clone(), new },
            ),
            Err(e) => Err(e),
        };
    }
    if args.expect.is_some() || args.expect_all {
        let mut whole: Option<String> = None;
        if args.expect_all {
            match stdin_text(stdin, "--expect-all") {
                Ok(s) => {
                    whole = Some(s);
                },
                Err(e) => return Err(e),
            }
        }
        return match bytes {
            Ok(new) => Ok(
                EditOp::ReplaceRange { expect: args.expect.clone(), expect_all: whole, new },
            ),
            Err(e) => Err(e),
        };
    }
    let old = required(
        old.clone(),
        raw.to_owned().concat(
            ": --old is required \u{b7} or --expect with a :a-b range, or --insert-after/--insert-before",
        ),
    );
    match old {
        Ok(old) => match bytes {
            Ok(new) => Ok(EditOp::Replace { old, new, all: args.all }),
            Err(e) => Err(e),
        },
        Err(e) => Err(e),
    }
}

pub fn one_spec(
    args: &EditArgs,
    raw: &str,
    old: &Option<String>,
    new: &Option<String>,
    stdin: &Stdin,
) -> (r: Result<EditSpec, Error>)
    ensures
        match r {
            Ok(spec) => target_asks(*args, raw@, said(*old), said(*new), *stdin) == Ok::<
                Asked,
                Problem,
            >(spec.asked()),
            Err(e) => target_asks(*args, raw@, said(*old), said(*new), *stdin) matches Err(p)
                && tells(e, p),
        },
{
    let op = match build_op(args, raw, old, new, stdin) {
        Ok(op) => op,
        Err(e) => return Err(e),
    };
    let given = match &args.if_sha {
        Some(s) => Some(s.as_str()),
        None => None,
    };
    let if_sha = match parse_if(given, raw) {
        Ok(sha) => sha,
        Err(e) => return Err(e),
    };
    Ok(
        EditSpec {
            raw: raw.to_owned(),
            op,
            if_sha,
            normalize: args.normalize,
            literal_newlines: args.literal_newlines,
        },
    )
}

/// The targets of a command line, in order.
pub open spec fn targets_of(args: EditArgs) -> Seq<String> {
    seq![args.target->0] + args.more_targets@
}

/// The first `n` targets without those whose file an earlier one has.
pub open spec fn deduped(targets: Seq<String>, keys: Seq<String>, n: int) -> Seq<Seq<char>>
    decreases n,
{
    if n <= 0 {
        Seq::empty()
    } else if has_text(keys.take(n - 1), keys[n - 1]@) {
        deduped(targets, keys, n - 1)
    } else {
        deduped(targets, keys, n - 1).push(targets[n - 1]@)
    }
}

/// A file spelled twice lands the op once rather than failing against its own change. `keys` tells
/// which file each target is of.
pub fn dedup_targets(targets: &Vec<String>, keys: &Vec<String>) -> (r: Vec<String>)
    requires
        keys@.len() == targets@.len(),
    ensures
        text::texts(r@) == deduped(targets@, keys@, targets@.len() as int),
{
    let mut seen: Vec<String> = Vec::new();
    let mut out: Vec<String> = Vec::new();
    let mut i: usize = 0;
    assert(text::texts(out@) =~= Seq::empty());
    while i < targets.len()
        invariant
            i <= targets@.len() == keys@.len(),
            forall|s: Seq<char>| #[trigger]
                has_text(seen@, s) <==> has_text(keys@.take(i as int), s),
            text::texts(out@) == deduped(targets@, keys@, i as int),
        decreases targets@.len() - i,
    {
        let ghost had = seen@;
        let ghost so_far = keys@.take(i as int);
        let ghost more = keys@.take(i + 1);
        let known = text::holds(&seen, keys[i].as_str());
        if !known {
            let ghost kept = out@;
            seen.push(keys[i].clone());
            out.push(targets[i].clone());
            assert(text::texts(out@) =~= text::texts(kept).push(targets@[i as int]@));
        }
        proof {
            assert forall|s: Seq<char>| #[trigger] has_text(seen@, s) <==> has_text(more, s) by {
                lemma_has_text_push(so_far, keys@[i as int], s);
                assert(so_far.push(keys@[i as int]) =~= more);
                if !known {
                    lemma_has_text_push(had, keys@[i as int], s);
                    assert(seen@ =~= had.push(keys@[i as int]));
                }
                assert(has_text(had, s) <==> has_text(so_far, s));
            }
        }
        i = i + 1;
    }
    out
}

pub proof fn lemma_has_text_push(list: Seq<String>, more: String, s: Seq<char>)
    ensures
        has_text(list.push(more), s) <==> has_text(list, s) || more@ == s,
{
    let all = list.push(more);
    if has_text(list, s) {
        let i = choose|i: int| 0 <= i < list.len() && #[trigger] list[i]@ == s;
        assert(all[i]@ == s);
    }
    if more@ == s {
        assert(all[list.len() as int]@ == s);
    }
    if has_text(all, s) {
        let i = choose|i: int| 0 <= i < all.len() && #[trigger] all[i]@ == s;
        if i < list.len() {
            assert(list[i]@ == s);
        }
    }
}

/// The edits of the first `n` targets, or what stands against the first that has something
/// against it.
pub open spec fn each_asks(
    args: EditArgs,
    raws: Seq<Seq<char>>,
    old: Option<Seq<char>>,
    new: Option<Seq<char>>,
    stdin: Stdin,
    n: int,
) -> Result<Seq<Asked>, Problem>
    decreases n,
{
    if n <= 0 {
        Ok(Seq::empty())
    } else {
        match each_asks(args, raws, old, new, stdin, n - 1) {
            Err(p) => Err(p),
            Ok(so_far) => match target_asks(args, raws[n - 1], old, new, stdin) {
                Err(p) => Err(p),
                Ok(asked) => Ok(so_far.push(asked)),
            },
        }
    }
}

/// The edits a command line without a batch asks for.
pub open spec fn flags_ask(args: EditArgs, keys: Seq<String>, stdin: Stdin) -> Result<
    Seq<Asked>,
    Problem,
> {
    if args.target is None {
        Err(Problem::NotFound { target: "edit"@, what: "a target"@ })
    } else if conflict_of(args) is Some {
        Err(
            Problem::Usage {
                message: conflict_of(args)->0
                    + " \u{b7} put every edit in the batch on stdin instead: lets edit --from -"@,
            },
        )
    } else {
        let old = if is_replace(args) {
            flag_value(args.old, "--old"@, false, stdin)
        } else {
            Ok(None)
        };
        let new = flag_value(args.new, "--new"@, true, stdin);
        let count = 1 + args.more_targets@.len();
        match (old, new) {
            (Err(p), _) => Err(p),
            (_, Err(p)) => Err(p),
            (Ok(old), Ok(new)) => if count > 1 && pinning_flag(args) is Some {
                Err(
                    Problem::Usage {
                        message: pinning_flag(args)->0 + " takes one target \u{b7} "@ + decimal_of(
                            count as nat,
                        ) + " were given"@,
                    },
                )
            } else {
                let raws = if count == 1 {
                    seq![args.target->0@]
                } else {
                    deduped(targets_of(args), keys, count as int)
                };
                each_asks(args, raws, old, new, stdin, raws.len() as int)
            },
        }
    }
}

fn all_specs(
    args: &EditArgs,
    raws: &Vec<String>,
    old: &Option<String>,
    new: &Option<String>,
    stdin: &Stdin,
) -> (r: Result<Vec<EditSpec>, Error>)
    ensures
        ({
            let asks = each_asks(
                *args,
                text::texts(raws@),
                said(*old),
                said(*new),
                *stdin,
                raws@.len() as int,
            );
            match r {
                Ok(specs) => asks == Ok::<Seq<Asked>, Problem>(asked_all(specs@)),
                Err(e) => asks matches Err(p) && tells(e, p),
            }
        }),
{
    let mut specs: Vec<EditSpec> = Vec::new();
    let ghost model = text::texts(raws@);
    let mut i: usize = 0;
    assert(asked_all(specs@) =~= Seq::empty());
    while i < raws.len()
        invariant
            i <= raws@.len(),
            model == text::texts(raws@),
            each_asks(*args, model, said(*old), said(*new), *stdin, i as int) == Ok::<
                Seq<Asked>,
                Problem,
            >(asked_all(specs@)),
        decreases raws@.len() - i,
    {
        assert(model[i as int] == raws@[i as int]@);
        let ghost before = specs@;
        match one_spec(args, raws[i].as_str(), old, new, stdin) {
            Ok(spec) => {
                specs.push(spec);
                assert(asked_all(specs@) =~= asked_all(before).push(spec.asked()));
            },
            Err(e) => {
                proof {
                    let p = target_asks(*args, model[i as int], said(*old), said(*new), *stdin)->Err_0;
                    lemma_each_asks_fails(
                        *args,
                        model,
                        said(*old),
                        said(*new),
                        *stdin,
                        i + 1,
                        model.len() as int,
                        p,
                    );
                }
                return Err(e);
            },
        }
        i = i + 1;
    }
    Ok(specs)
}

proof fn lemma_each_asks_fails(
    args: EditArgs,
    raws: Seq<Seq<char>>,
    old: Option<Seq<char>>,
    new: Option<Seq<char>>,
    stdin: Stdin,
    i: int,
    n: int,
    p: Problem,
)
    requires
        0 < i <= n,
        each_asks(args, raws, old, new, stdin, i) == Err::<Seq<Asked>, Problem>(p),
    ensures
        each_asks(args, raws, old, new, stdin, n) == Err::<Seq<Asked>, Problem>(p),
    decreases n,
{
    if i < n {
        lemma_each_asks_fails(args, raws, old, new, stdin, i, n - 1, p);
    }
}

/// `--if`, `--expect` and `--expect-all` pin one file, so none survives several targets.
pub fn from_args(args: &EditArgs, keys: &Vec<String>, stdin: &Stdin) -> (r: Result<
    Vec<EditSpec>,
    Error,
>)
    requires
        args.more_targets@.len() > 0 ==> keys@.len() == args.more_targets@.len() + 1,
    ensures
        match r {
            Ok(specs) => flags_ask(*args, keys@, *stdin) == Ok::<Seq<Asked>, Problem>(
                asked_all(specs@),
            ),
            Err(e) => flags_ask(*args, keys@, *stdin) matches Err(p) && tells(e, p),
        },
{
    let raw = match &args.target {
        Some(raw) => raw,
        None => return Err(not_found("edit", "a target".to_owned())),
    };
    if let Some(conflict) = dash_conflict(args) {
        return Err(
            usage(
                conflict.to_owned().concat(
                    " \u{b7} put every edit in the batch on stdin instead: lets edit --from -",
                ),
            ),
        );
    }
    // Only the replace form reads `--old`; resolving it otherwise could consume or refuse stdin.

    let plain = args.insert_after.is_none() && args.insert_before.is_none()
        && args.expect.is_none() && !args.expect_all;
    let mut old: Option<String> = None;
    if plain {
        match resolve_dash(&args.old, "--old", false, stdin) {
            Ok(value) => {
                old = value;
            },
            Err(e) => return Err(e),
        }
    }
    // Empty `--new` is a deletion, so only `--old -` enforces non-empty stdin.

    let new = match resolve_dash(&args.new, "--new", true, stdin) {
        Ok(value) => value,
        Err(e) => return Err(e),
    };
    let mut targets: Vec<String> = Vec::new();
    targets.push(raw.clone());
    if args.more_targets.len() == 0 {
        assert(text::texts(targets@) =~= seq![args.target->0@]);
        return all_specs(args, &targets, &old, &new, stdin);
    }
    let mut i: usize = 0;
    assert(targets@ =~= seq![args.target->0] + args.more_targets@.take(0));
    while i < args.more_targets.len()
        invariant
            i <= args.more_targets@.len(),
            targets@ == seq![args.target->0] + args.more_targets@.take(i as int),
        decreases args.more_targets@.len() - i,
    {
        targets.push(args.more_targets[i].clone());
        i = i + 1;
        assert(targets@ =~= seq![args.target->0] + args.more_targets@.take(i as int));
    }
    assert(targets@ =~= targets_of(*args));
    if let Some(flag) = exclusive_flag(args) {
        return Err(
            usage(
                flag.to_owned().concat(" takes one target \u{b7} ").concat(
                    decimal(targets.len()).as_str(),
                ).concat(" were given"),
            ),
        );
    }
    let kept = dedup_targets(&targets, keys);
    all_specs(args, &kept, &old, &new, stdin)
}

pub const BATCH_EXAMPLE: &'static str = "lets edit --from - <<'LETS'\n@@ a.ts\n<<<<<<< old\ncap = 10\n======= new\ncap = 20\n>>>>>>>\n<<<<<<< old\nfloor = 1\n======= new\nfloor = 2\n>>>>>>>\nLETS";

/// A caller that got the batch format wrong has only the parse failure to go on; the example runs
/// as written.
pub fn with_batch_example(error: &Error) -> (r: Error)
    ensures
        is_usage(r, error.text_of() + "\n\n"@ + BATCH_EXAMPLE@),
{
    usage(error.text().concat("\n\n").concat(BATCH_EXAMPLE))
}

/// The edits a batch on standard input asks for, in whichever form it is written.
pub open spec fn batch_asks(r: Result<Vec<EditSpec>, Error>, batch: Seq<char>) -> bool {
    let lines = lines_of(batch);
    match first_said(lines) {
        None => r matches Err(e) && is_usage(e, "no edits"@),
        Some(first) => if "{"@.is_prefix_of(first) {
            is_batch(
                r,
                jsonl_problems(lines, lines.len() as int),
                jsonl_asks(lines, lines.len() as int),
            )
        } else if "@@"@.is_prefix_of(first) {
            is_batch(r, fence_problems(lines), fence_asks(lines))
        } else {
            r matches Err(e) && is_usage(e, no_form())
        },
    }
}

/// A batch is asked for in a way that allows none.
pub open spec fn from_problem(args: EditArgs) -> Option<Problem> {
    if args.target is Some {
        Some(
            Problem::Usage {
                message:
                    "--from - takes no positional target \u{b7} put every edit in the batch on stdin"@,
            },
        )
    } else if !is_dash(args.from) {
        Some(
            Problem::NotFound {
                target: args.from->0@,
                what: "an edit spec (`--from` reads `-`, stdin, only)"@,
            },
        )
    } else {
        None
    }
}

/// The edits a command line asks for, with a batch or without; a batch that does not parse is
/// answered with an example of one that does.
pub open spec fn are_built(
    r: Result<Vec<EditSpec>, Error>,
    args: EditArgs,
    keys: Seq<String>,
    stdin: Stdin,
) -> bool {
    if args.from is None {
        match r {
            Ok(specs) => flags_ask(args, keys, stdin) == Ok::<Seq<Asked>, Problem>(
                asked_all(specs@),
            ),
            Err(e) => flags_ask(args, keys, stdin) matches Err(p) && tells(e, p),
        }
    } else if from_problem(args) is Some {
        r matches Err(e) && tells(e, from_problem(args)->0)
    } else {
        match stdin_said(stdin, "--from -"@) {
            Err(p) => r matches Err(e) && tells(e, p),
            Ok(batch) => match r {
                Ok(_) => batch_asks(r, batch),
                Err(e) => exists|inner: Error| #[trigger]
                    batch_asks(Err(inner), batch) && is_usage(
                        e,
                        inner.text_of() + "\n\n"@ + BATCH_EXAMPLE@,
                    ),
            },
        }
    }
}

pub fn build_specs(args: &EditArgs, keys: &Vec<String>, stdin: &Stdin) -> (r: Result<
    Vec<EditSpec>,
    Error,
>)
    requires
        args.more_targets@.len() > 0 ==> keys@.len() == args.more_targets@.len() + 1,
    ensures
        are_built(r, *args, keys@, *stdin),
{
    if let Some(from) = &args.from {
        if args.target.is_some() {
            return Err(
                usage(
                    "--from - takes no positional target \u{b7} put every edit in the batch on stdin".to_owned(),
                ),
            );
        }
        if !text::same(from.as_str(), "-") {
            return Err(
                not_found(
                    from.as_str(),
                    "an edit spec (`--from` reads `-`, stdin, only)".to_owned(),
                ),
            );
        }
        let batch = match stdin_text(stdin, "--from -") {
            Ok(batch) => batch,
            Err(e) => return Err(e),
        };
        return match parse_batch(batch.as_str()) {
            Ok(specs) => Ok(specs),
            Err(inner) => {
                assert(batch_asks(Err(inner), batch@));
                Err(with_batch_example(&inner))
            },
        };
    }
    from_args(args, keys, stdin)
}

proof fn lemma_each_asked(
    args: EditArgs,
    raws: Seq<Seq<char>>,
    old: Option<Seq<char>>,
    new: Option<Seq<char>>,
    stdin: Stdin,
    n: int,
)
    requires
        0 <= n <= raws.len(),
        each_asks(args, raws, old, new, stdin, n) is Ok,
    ensures
        ({
            let all = each_asks(args, raws, old, new, stdin, n)->Ok_0;
            all.len() == n && forall|i: int|
                0 <= i < n ==> target_asks(args, raws[i], old, new, stdin) == Ok::<Asked, Problem>(
                    #[trigger] all[i],
                )
        }),
    decreases n,
{
    if n > 0 {
        lemma_each_asked(args, raws, old, new, stdin, n - 1);
    }
}

/// An earlier target is of the same file.
pub open spec fn is_repeated(keys: Seq<String>, i: int) -> bool {
    exists|j: int| 0 <= j < i && #[trigger] keys[j]@ == keys[i]@
}

proof fn lemma_deduped(targets: Seq<String>, keys: Seq<String>, n: int) -> (at: Seq<int>)
    requires
        0 <= n <= targets.len(),
        keys.len() == targets.len(),
    ensures
        ({
            let raws = deduped(targets, keys, n);
            &&& raws.len() == at.len()
            &&& forall|k: int|
                0 <= k < at.len() ==> 0 <= #[trigger] at[k] < n && raws[k] == targets[at[k]]@
            &&& forall|i: int, j: int| 0 <= i < j < at.len() ==> #[trigger] at[i] < #[trigger] at[j]
            &&& forall|i: int|
                0 <= i < n ==> (at.contains(i) <==> !#[trigger] is_repeated(keys, i))
        }),
    decreases n,
{
    if n == 0 {
        Seq::empty()
    } else {
        let had = lemma_deduped(targets, keys, n - 1);
        assert(has_text(keys.take(n - 1), keys[n - 1]@) <==> is_repeated(keys, n - 1)) by {
            if is_repeated(keys, n - 1) {
                let j = choose|j: int| 0 <= j < n - 1 && #[trigger] keys[j]@ == keys[n - 1]@;
                assert(keys.take(n - 1)[j]@ == keys[n - 1]@);
            }
            if has_text(keys.take(n - 1), keys[n - 1]@) {
                let j = choose|j: int|
                    0 <= j < n - 1 && #[trigger] keys.take(n - 1)[j]@ == keys[n - 1]@;
                assert(keys[j]@ == keys[n - 1]@);
            }
        }
        if is_repeated(keys, n - 1) {
            assert(!had.contains(n - 1));
            had
        } else {
            let at = had.push(n - 1);
            assert(at[had.len() as int] == n - 1);
            assert forall|i: int| 0 <= i < n implies (at.contains(i) <==> !#[trigger] is_repeated(
                keys,
                i,
            )) by {
                if i < n - 1 {
                    if had.contains(i) {
                        let k = choose|k: int| 0 <= k < had.len() && had[k] == i;
                        assert(at[k] == i);
                    }
                    if at.contains(i) {
                        let k = choose|k: int| 0 <= k < at.len() && at[k] == i;
                        assert(had[k] == i);
                    }
                }
            }
            at
        }
    }
}

/// Flags that name several files ask for one edit of each file, in the order in which the files were
/// first named; a file that is named again is not edited again.
pub proof fn law_each_file_is_edited_once(
    specs: Vec<EditSpec>,
    args: EditArgs,
    keys: Seq<String>,
    stdin: Stdin,
) -> (at: Seq<int>)
    requires
        are_built(Ok(specs), args, keys, stdin),
        args.from is None,
        args.more_targets@.len() > 0 ==> keys.len() == args.more_targets@.len() + 1,
    ensures
        ({
            let targets = seq![args.target->0] + args.more_targets@;
            &&& args.target is Some
            &&& at.len() == specs@.len()
            &&& forall|k: int|
                0 <= k < at.len() ==> 0 <= #[trigger] at[k] < targets.len() && specs@[k].raw@
                    == targets[at[k]]@
            &&& forall|i: int, j: int| 0 <= i < j < at.len() ==> #[trigger] at[i] < #[trigger] at[j]
            &&& args.more_targets@.len() == 0 ==> at == seq![0int]
            &&& args.more_targets@.len() > 0 ==> forall|i: int|
                0 <= i < targets.len() ==> (at.contains(i) <==> !#[trigger] is_repeated(keys, i))
        }),
{
    let targets = targets_of(args);
    let count = 1 + args.more_targets@.len();
    let old = if is_replace(args) {
        flag_value(args.old, "--old"@, false, stdin)
    } else {
        Ok(None)
    };
    let new = flag_value(args.new, "--new"@, true, stdin);
    let raws = if count == 1 {
        seq![args.target->0@]
    } else {
        deduped(targets, keys, count as int)
    };
    lemma_each_asked(args, raws, old->Ok_0, new->Ok_0, stdin, raws.len() as int);
    let all = asked_all(specs@);
    assert(all.len() == specs@.len());
    let at = if count == 1 {
        seq![0int]
    } else {
        lemma_deduped(targets, keys, count as int)
    };
    assert forall|k: int| 0 <= k < at.len() implies 0 <= #[trigger] at[k] < targets.len()
        && specs@[k].raw@ == targets[at[k]]@ by {
        assert(all[k] == specs@[k].asked());
    }
    at
}

/// The value of a flag is what was typed, or what standard input holds where that was `-`.
pub open spec fn is_value(value: Option<String>, stdin: Stdin, bytes: Seq<u8>) -> bool {
    value matches Some(typed) && if typed@ == "-"@ {
        stdin matches Stdin::Bytes(read) && read@ == bytes
    } else {
        bytes == encode_utf8(typed@)
    }
}

/// Each edit that the flags ask for does what they say: with an anchor it inserts the new text on
/// that side of it, with something expected of the lines it replaces them, else it replaces the old
/// text by the new, everywhere where `--all` is given. A hash, and the flags on how texts are
/// compared and put in, hold for each of them.
pub proof fn law_flags_ask_for_what_they_say(
    specs: Vec<EditSpec>,
    args: EditArgs,
    keys: Seq<String>,
    stdin: Stdin,
    k: int,
    old: Seq<u8>,
    new: Seq<u8>,
)
    requires
        are_built(Ok(specs), args, keys, stdin),
        args.from is None,
        0 <= k < specs@.len(),
        is_value(args.new, stdin, new),
        args.old is Some ==> is_value(args.old, stdin, old),
    ensures
        ({
            let spec = specs@[k];
            &&& args.insert_after matches Some(at) ==> (spec.op matches EditOp::Insert {
                side: AnchorSide::After,
                anchor,
                new: w,
            } && anchor@ == at@ && w@ == new)
            &&& args.insert_after is None && args.insert_before is Some ==> (
            spec.op matches EditOp::Insert { side: AnchorSide::Before, anchor, new: w } && anchor@
                == args.insert_before->0@ && w@ == new)
            &&& args.insert_after is None && args.insert_before is None && (args.expect is Some
                || args.expect_all) ==> (spec.op matches EditOp::ReplaceRange {
                expect,
                expect_all,
                new: w,
            } && w@ == new && (expect is Some <==> args.expect is Some) && (expect is Some
                ==> expect->0@ == args.expect->0@) && (expect_all is Some <==> args.expect_all) && (
            expect_all is Some ==> (stdin matches Stdin::Bytes(read) && encode_utf8(expect_all->0@)
                == read@)))
            &&& args.insert_after is None && args.insert_before is None && args.expect is None
                && !args.expect_all ==> args.old is Some && (spec.op matches EditOp::Replace {
                old: o,
                new: w,
                all,
            } && o@ == old && w@ == new && all == args.all)
            &&& spec.if_sha is Some <==> args.if_sha is Some
            &&& spec.normalize == args.normalize
            &&& spec.literal_newlines == args.literal_newlines
        }),
{
    let count = 1 + args.more_targets@.len();
    let old_value = if is_replace(args) {
        flag_value(args.old, "--old"@, false, stdin)
    } else {
        Ok(None)
    };
    let new_value = flag_value(args.new, "--new"@, true, stdin);
    let raws = if count == 1 {
        seq![args.target->0@]
    } else {
        deduped(targets_of(args), keys, count as int)
    };
    lemma_each_asked(args, raws, old_value->Ok_0, new_value->Ok_0, stdin, raws.len() as int);
    let all = asked_all(specs@);
    assert(all[k] == specs@[k].asked());
    if let Stdin::Bytes(read) = stdin {
        if valid_utf8(read@) {
            decode_utf8_encode_utf8(read@);
        }
    }
}

/// Two flags that both want standard input are refused, and so are several files where a flag pins
/// down one.
pub proof fn law_what_can_be_had_once_is_asked_for_once(
    r: Result<Vec<EditSpec>, Error>,
    args: EditArgs,
    keys: Seq<String>,
    stdin: Stdin,
)
    requires
        are_built(r, args, keys, stdin),
        args.from is None,
    ensures
        r is Ok ==> !(args.old matches Some(old) && old@ == "-"@ && (args.new matches Some(new) && new@
            == "-"@)),
        r is Ok && args.expect_all ==> !(args.new matches Some(new) && new@ == "-"@),
        r is Ok && args.more_targets@.len() > 0 ==> args.if_sha is None && args.expect is None
            && !args.expect_all,
        r is Ok ==> args.new is Some,
{
    if r is Ok {
        let specs = r->Ok_0;
        assert(asked_all(specs@).len() == specs@.len());
        if args.new is None {
            let count = 1 + args.more_targets@.len();
            let old_value = if is_replace(args) {
                flag_value(args.old, "--old"@, false, stdin)
            } else {
                Ok(None)
            };
            let raws = if count == 1 {
                seq![args.target->0@]
            } else {
                deduped(targets_of(args), keys, count as int)
            };
            lemma_each_asked(args, raws, old_value->Ok_0, None, stdin, raws.len() as int);
            lemma_some_target(targets_of(args), keys, count as int);
            let all = asked_all(specs@);
            assert(target_asks(args, raws[0], old_value->Ok_0, None, stdin) == Ok::<
                Asked,
                Problem,
            >(all[0]));
        }
    }
}

proof fn lemma_some_target(targets: Seq<String>, keys: Seq<String>, n: int)
    requires
        n >= 1,
    ensures
        deduped(targets, keys, n).len() > 0,
    decreases n,
{
    if n > 1 {
        lemma_some_target(targets, keys, n - 1);
    } else {
        reveal_with_fuel(deduped, 2);
        assert(!has_text(keys.take(0), keys[0]@));
    }
}

/// A flag that pins one file is named where one was given, and none where none was.
pub proof fn law_a_flag_that_pins_a_file_is_named(args: EditArgs)
    ensures
        pinning_flag(args) is None <==> args.if_sha is None && args.expect is None
            && !args.expect_all,
        args.if_sha is Some ==> pinning_flag(args) == Some("--if"@),
        args.if_sha is None && args.expect is Some ==> pinning_flag(args) == Some("--expect"@),
        args.if_sha is None && args.expect is None && args.expect_all ==> pinning_flag(args) == Some(
            "--expect-all"@,
        ),
{
}

/// Standard input is read once: no two of the flags that would read it stand together.
pub proof fn law_standard_input_is_read_once(args: EditArgs)
    ensures
        conflict_of(args) is None <==> !(is_dash(args.old) && is_dash(args.new)) && !(is_dash(
            args.old,
        ) && args.expect_all) && !(is_dash(args.new) && args.expect_all),
        from_problem(args) is None <==> args.target is None && is_dash(args.from),
{
}

} // verus!
