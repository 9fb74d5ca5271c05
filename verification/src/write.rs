//! Writing a whole file. A new file has no earlier state to go back to, so a failing check leaves
//! the file in place.
use vstd::prelude::*;
use vstd::utf8::*;

use crate::edit::bytes::{lemma_newlines_concat, newlines};
use crate::error::{Error, RefusedReason, UnsupportedReason};
use crate::find::args::Global;
use crate::output::{
    Body, CheckResult, Omission, Outcome, Response, Stats, WriteOutcome, WriteResult,
};
use crate::shell::{extension, extension_of};
use crate::text;
use crate::text::{lemma_line_end, line_end, lines_of};

verus! {

pub const VERB: &'static str = "write";

#[derive(Debug)]
pub struct WriteArgs {
    pub path: String,
    pub force: bool,
    pub empty: bool,
}

/// How many lines the bytes make: one for each line end, and one more for what stands after the
/// last.
pub open spec fn line_count(bytes: Seq<u8>) -> nat {
    if bytes.len() > 0 && bytes.last() != 10 {
        newlines(bytes) + 1
    } else {
        newlines(bytes)
    }
}

/// Lines counted on raw bytes, which need not be UTF-8.
pub fn count_lines(bytes: &[u8]) -> (r: usize)
    ensures
        r == line_count(bytes@),
        r <= bytes@.len(),
{
    let count = bytes.len();
    let mut found: usize = 0;
    let mut i: usize = 0;
    assert(bytes@.take(0) =~= Seq::empty());
    while i < count
        invariant
            i <= count == bytes@.len(),
            found <= i,
            i > 0 && bytes@[i - 1] != 10 ==> found < i,
            found == newlines(bytes@.take(i as int)),
        decreases count - i,
    {
        assert(bytes@.take(i + 1).drop_last() =~= bytes@.take(i as int));
        if bytes[i] == 10 {
            found = found + 1;
        }
        i = i + 1;
    }
    assert(bytes@.take(i as int) =~= bytes@);
    if count > 0 && bytes[count - 1] != 10 {
        found + 1
    } else {
        found
    }
}

/// Only a newline is encoded with the byte of one, and with that byte alone.
proof fn lemma_newlines_of_scalar(c: u32)
    requires
        is_scalar(c),
    ensures
        newlines(encode_scalar(c)) == (if c == 10 {
            1nat
        } else {
            0
        }),
        encode_scalar(c).len() > 0,
        encode_scalar(c).last() == 10 <==> c == 10,
{
    assert(0xC0 | ((c >> 6) & 0x1F) as u8 >= 0x80) by (bit_vector);
    assert(0xE0 | ((c >> 12) & 0x0F) as u8 >= 0x80) by (bit_vector);
    assert(0xF0 | ((c >> 18) & 0x7) as u8 >= 0x80) by (bit_vector);
    assert(0x80 | (c & 0x3F) as u8 >= 0x80) by (bit_vector);
    assert(0x80 | ((c >> 6) & 0x3F) as u8 >= 0x80) by (bit_vector);
    assert(0x80 | ((c >> 12) & 0x3F) as u8 >= 0x80) by (bit_vector);
    let bytes = encode_scalar(c);
    if has_width_1_encoding(c) {
        assert((c & 0x7F) as u8 == 10 <==> c == 10) by (bit_vector)
            requires
                c <= 0x7F,
        ;
        assert(bytes.drop_last() =~= Seq::empty());
        assert(newlines(bytes.drop_last()) == 0);
    } else {
        lemma_no_newlines(bytes);
    }
}

proof fn lemma_no_newlines(bytes: Seq<u8>)
    requires
        forall|i: int| 0 <= i < bytes.len() ==> #[trigger] bytes[i] >= 0x80,
    ensures
        newlines(bytes) == 0,
    decreases bytes.len(),
{
    if bytes.len() > 0 {
        assert(bytes.last() >= 0x80);
        lemma_no_newlines(bytes.drop_last());
    }
}

/// A text without a newline is one line.
proof fn lemma_one_line(s: Seq<char>)
    requires
        forall|i: int| 0 <= i < s.len() ==> s[i] != '\n',
    ensures
        newlines(encode_utf8(s)) == 0,
        s.len() > 0 ==> encode_utf8(s).len() > 0 && encode_utf8(s).last() != 10,
    decreases s.len(),
{
    if s.len() > 0 {
        let c = s[0] as u32;
        char_is_scalar(s[0]);
        char_u32_cast(s[0], c);
        assert(c != 10);
        lemma_newlines_of_scalar(c);
        let rest = s.drop_first();
        assert forall|i: int| 0 <= i < rest.len() implies rest[i] != '\n' by {
            assert(rest[i] == s[i + 1]);
        }
        lemma_one_line(rest);
        lemma_newlines_concat(encode_scalar(c), encode_utf8(rest));
        if rest.len() == 0 {
            assert(encode_utf8(s) =~= encode_scalar(c));
        }
    }
}

/// Counting on the bytes of a text is counting the lines of the text.
pub proof fn law_bytes_count_as_their_text_does(s: Seq<char>)
    ensures
        line_count(encode_utf8(s)) == lines_of(s).len(),
    decreases s.len(),
{
    let end = line_end(s);
    lemma_line_end(s);
    if s.len() == 0 {
    } else if end >= s.len() {
        lemma_one_line(s);
    } else {
        let head = s.subrange(0, end);
        let rest = s.subrange(end + 1, s.len() as int);
        law_bytes_count_as_their_text_does(rest);
        assert(s =~= head + (seq!['\n'] + rest));
        text::lemma_encode_concat(head, seq!['\n'] + rest);
        assert((seq!['\n'] + rest).drop_first() =~= rest);
        let mark = encode_scalar('\n' as u32);
        lemma_newlines_of_scalar('\n' as u32);
        lemma_one_line(head);
        lemma_newlines_concat(encode_utf8(head), mark + encode_utf8(rest));
        lemma_newlines_concat(mark, encode_utf8(rest));
        let all = encode_utf8(s);
        assert(all == encode_utf8(head) + (mark + encode_utf8(rest)));
        if rest.len() == 0 {
            assert(encode_utf8(rest) =~= Seq::empty());
            assert(all.last() == mark.last());
        } else {
            char_is_scalar(rest[0]);
            lemma_newlines_of_scalar(rest[0] as u32);
            assert(all.last() == encode_utf8(rest).last());
        }
    }
}

/// The failure of content over the limit.
pub open spec fn is_too_large(error: Error, path: Seq<char>, bytes: u64, limit: u64) -> bool {
    error matches Error::Unsupported {
        path: p,
        reason: UnsupportedReason::TooLarge { bytes: b, limit: l },
    } && p@ == path && b == bytes && l == limit
}

/// Content at the limit is let through; a byte more is not.
pub fn too_large(path: &str, len: usize, limit: u64) -> (r: Option<Error>)
    ensures
        match r {
            Some(error) => len > limit && is_too_large(error, path@, len as u64, limit),
            None => len <= limit,
        },
{
    let bytes = len as u64;
    if bytes > limit {
        Some(
            Error::Unsupported {
                path: path.to_owned(),
                reason: UnsupportedReason::TooLarge { bytes, limit },
            },
        )
    } else {
        None
    }
}

/// The content of a file, and the first digits of its hash.
#[derive(Debug)]
pub struct Content {
    pub bytes: Vec<u8>,
    pub sha: String,
}

/// What a checker says of a file.
#[derive(Debug)]
pub struct Checked {
    pub label: String,
    pub ok: bool,
    pub status: String,
    pub errors_before: usize,
    pub errors_after: usize,
}

/// A file that was written: what it holds now, what it held, and what the check said, where the
/// file was to be checked (`None` within where there is no checker for it).
#[derive(Debug)]
pub struct Written {
    pub sha: String,
    pub prior: Option<Content>,
    pub checked: Option<Option<Checked>>,
}

/// What has happened.
#[derive(Debug)]
pub enum Event {
    Started,
    /// The path was held against the tree that may be written to.
    Guarded(Result<(), Error>),
    /// Links were followed, and something was looked for at the end of them; a failure carries
    /// its detail, and whether a part of the path is not there.
    Looked(Result<bool, (String, bool)>),
    /// What stands in the way was read, under the lock.
    Existing(Result<Content, Error>),
    Written(Result<Written, Error>),
}

/// What is to be done.
#[derive(Debug)]
pub enum Action {
    Guard,
    Look,
    ReadExisting,
    /// Write the file; `overwriting` asks for what is there to be read first, under the same lock.
    Write { overwriting: bool },
    Answer(Outcome),
}

/// The answer for a file that stands in the way.
pub open spec fn is_refused_exists(outcome: Outcome, path: Seq<char>, existing: Content) -> bool {
    let lines = line_count(existing.bytes@);
    &&& (Response {
        body: Body::Empty,
        stats: Stats { lines: 0, bytes: 0 },
        ..outcome.response
    }).is_empty_for(VERB@)
    &&& outcome.response.stats.lines == lines
    &&& outcome.response.stats.bytes == existing.bytes@.len()
    &&& outcome.response.body matches Body::Write(result) && {
        &&& result.path@ == path
        &&& result.outcome is Exists
        &&& result.lines == lines
        &&& result.bytes == existing.bytes@.len()
        &&& result.sha@ == existing.sha@
        &&& result.check is None
    }
    &&& outcome.error matches Some(
        Error::Refused { path: p, reason: RefusedReason::Exists { lines: n, sha } },
    ) && p@ == path && n == lines && sha@ == existing.sha@
}

fn refuse_exists(args: &WriteArgs, existing: Content) -> (r: Outcome)
    ensures
        is_refused_exists(r, args.path@, existing),
{
    let lines = count_lines(existing.bytes.as_slice());
    let bytes = existing.bytes.len();
    let mut response = Response::empty(VERB);
    response.stats = Stats { lines, bytes };
    response.body = Body::Write(
        WriteResult {
            path: args.path.clone(),
            outcome: WriteOutcome::Exists,
            lines,
            bytes,
            sha: existing.sha.clone(),
            check: None,
        },
    );
    Outcome::partial(
        response,
        Error::Refused {
            path: args.path.clone(),
            reason: RefusedReason::Exists { lines, sha: existing.sha },
        },
    )
}

/// A check as it is answered. A failing one keeps its label and says that the file was kept, since
/// nothing is put back.
pub open spec fn is_check(result: CheckResult, checked: Checked) -> bool {
    &&& result.layer@ == checked.label@
    &&& result.status@ == if checked.ok {
        checked.status@
    } else {
        checked.status@ + " \u{b7} file kept"@
    }
    &&& result.errors_before == checked.errors_before
    &&& result.errors_after == checked.errors_after
}

/// What is answered of a check.
pub open spec fn are_checked(
    check: Option<CheckResult>,
    omitted: Seq<Omission>,
    path: Seq<char>,
    checked: Option<Option<Checked>>,
) -> bool {
    match checked {
        None => check is None && omitted.len() == 0,
        Some(Some(checked)) => omitted.len() == 0 && (check matches Some(result) && is_check(
            result,
            checked,
        )),
        Some(None) => check is None && omitted.len() == 1 && (
        omitted[0] matches Omission::CheckSkipped { reason } && reason@ == "no grammar for ."@
            + match extension_of(path) {
            Some(ext) => ext,
            None => ""@,
        }),
    }
}

fn checked(path: &str, said: Option<Option<Checked>>) -> (r: (
    Option<CheckResult>,
    Vec<Omission>,
))
    ensures
        are_checked(r.0, r.1@, path@, said),
{
    let mut omitted: Vec<Omission> = Vec::new();
    match said {
        None => (None, omitted),
        Some(Some(said)) => {
            let status = if said.ok {
                said.status
            } else {
                said.status.concat(" \u{b7} file kept")
            };
            let result = CheckResult {
                layer: said.label,
                status,
                errors_before: said.errors_before,
                errors_after: said.errors_after,
            };
            (Some(result), omitted)
        },
        Some(None) => {
            let ext = match extension(path) {
                Some(ext) => ext,
                None => "",
            };
            omitted.push(
                Omission::CheckSkipped { reason: "no grammar for .".to_owned().concat(ext) },
            );
            (None, omitted)
        },
    }
}

/// What became of the file.
pub open spec fn is_outcome(outcome: WriteOutcome, prior: Option<Content>) -> bool {
    match prior {
        Some(prior) => outcome matches WriteOutcome::Overwritten { prior_lines, prior_sha }
            && prior_lines == line_count(prior.bytes@) && prior_sha@ == prior.sha@,
        None => outcome is Created,
    }
}

/// The answer for a file that was written.
pub open spec fn is_created(
    outcome: Outcome,
    path: Seq<char>,
    content: Seq<u8>,
    written: Written,
) -> bool {
    let lines = line_count(content);
    &&& outcome.error is None
    &&& outcome.response.verb@ == VERB@
    &&& outcome.response.summary@ == ""@
    &&& !outcome.response.no_header
    &&& outcome.response.top_files@.len() == 0
    &&& outcome.response.top_files_more == 0
    &&& outcome.response.stats.lines == lines
    &&& outcome.response.stats.bytes == content.len()
    &&& outcome.response.body matches Body::Write(result) && {
        &&& result.path@ == path
        &&& is_outcome(result.outcome, written.prior)
        &&& result.lines == lines
        &&& result.bytes == content.len()
        &&& result.sha@ == written.sha@
        &&& are_checked(result.check, outcome.response.omitted@, path, written.checked)
    }
}

fn create(args: &WriteArgs, content: &Vec<u8>, written: Written) -> (r: Outcome)
    ensures
        is_created(r, args.path@, content@, written),
{
    let (check, omitted) = checked(args.path.as_str(), written.checked);
    let lines = count_lines(content.as_slice());
    let bytes = content.len();
    let mut response = Response::empty(VERB);
    response.stats = Stats { lines, bytes };
    response.omitted = omitted;
    let outcome = match written.prior {
        Some(prior) => WriteOutcome::Overwritten {
            prior_lines: count_lines(prior.bytes.as_slice()),
            prior_sha: prior.sha,
        },
        None => WriteOutcome::Created,
    };
    response.body = Body::Write(
        WriteResult {
            path: args.path.clone(),
            outcome,
            lines,
            bytes,
            sha: written.sha,
            check,
        },
    );
    Outcome::ok(response)
}

/// A failure to read.
pub open spec fn is_io(error: Error, path: Seq<char>, detail: Seq<char>, missing: bool) -> bool {
    error matches Error::Io { path: p, detail: d, missing: m } && p@ == path && d@ == detail && m
        == missing
}

/// The only thing in the answer is this failure.
pub open spec fn answers_failure(action: Action, failure: spec_fn(Error) -> bool) -> bool {
    action matches Action::Answer(outcome) && outcome.response.is_empty_for(VERB@) && (
    outcome.error matches Some(error) && failure(error))
}

/// What is to be done after an event.
pub open spec fn is_next(
    args: WriteArgs,
    limit: u64,
    content: Seq<u8>,
    event: Event,
    action: Action,
) -> bool {
    match event {
        Event::Started => if content.len() == 0 && !args.empty {
            answers_failure(
                action,
                |error: Error|
                    error matches Error::Refused { path, reason: RefusedReason::EmptyInput }
                        && path@ == args.path@,
            )
        } else if content.len() > limit {
            answers_failure(
                action,
                |error: Error| is_too_large(error, args.path@, content.len() as u64, limit),
            )
        } else {
            action is Guard
        },
        Event::Guarded(Err(error)) => answers_failure(action, |e: Error| e == error),
        Event::Guarded(Ok(())) => action is Look,
        Event::Looked(Err((detail, missing))) => answers_failure(
            action,
            |e: Error| is_io(e, args.path@, detail@, missing),
        ),
        Event::Looked(Ok(exists)) => if exists && !args.force {
            action is ReadExisting
        } else {
            action == Action::Write { overwriting: exists }
        },
        Event::Existing(Err(error)) => answers_failure(action, |e: Error| e == error),
        Event::Existing(Ok(existing)) => action matches Action::Answer(outcome)
            && is_refused_exists(outcome, args.path@, existing),
        Event::Written(Err(error)) => answers_failure(action, |e: Error| e == error),
        Event::Written(Ok(written)) => action matches Action::Answer(outcome) && is_created(
            outcome,
            args.path@,
            content,
            written,
        ),
    }
}

/// What is to be done after an event, with `content` to be written.
pub fn decide(args: &WriteArgs, global: &Global, content: &Vec<u8>, event: Event) -> (r: Action)
    ensures
        is_next(*args, global.max_file_bytes, content@, event, r),
{
    match event {
        Event::Started => {
            if content.len() == 0 && !args.empty {
                return Action::Answer(
                    Outcome::failed(
                        VERB,
                        Error::Refused {
                            path: args.path.clone(),
                            reason: RefusedReason::EmptyInput,
                        },
                    ),
                );
            }
            match too_large(args.path.as_str(), content.len(), global.max_file_bytes) {
                Some(error) => Action::Answer(Outcome::failed(VERB, error)),
                None => Action::Guard,
            }
        },
        Event::Guarded(Err(error)) => Action::Answer(Outcome::failed(VERB, error)),
        Event::Guarded(Ok(())) => Action::Look,
        Event::Looked(Err((detail, missing))) => Action::Answer(
            Outcome::failed(VERB, Error::Io { path: args.path.clone(), detail, missing }),
        ),
        Event::Looked(Ok(exists)) => if exists && !args.force {
            Action::ReadExisting
        } else {
            Action::Write { overwriting: exists }
        },
        Event::Existing(Err(error)) => Action::Answer(Outcome::failed(VERB, error)),
        Event::Existing(Ok(existing)) => Action::Answer(refuse_exists(args, existing)),
        Event::Written(Err(error)) => Action::Answer(Outcome::failed(VERB, error)),
        Event::Written(Ok(written)) => Action::Answer(create(args, content, written)),
    }
}

/// What is there is written over only where that is forced.
pub proof fn law_nothing_is_overwritten_unasked(
    args: WriteArgs,
    limit: u64,
    content: Seq<u8>,
    event: Event,
    action: Action,
)
    requires
        is_next(args, limit, content, event, action),
        action == (Action::Write { overwriting: true }),
    ensures
        args.force,
        event == Event::Looked(Ok(true)),
{
}

/// Empty input reaches the disk only where that was asked for, and nothing over the limit does.
pub proof fn law_only_admitted_content_goes_on(
    args: WriteArgs,
    limit: u64,
    content: Seq<u8>,
    action: Action,
)
    requires
        is_next(args, limit, content, Event::Started, action),
        action !is Answer,
    ensures
        content.len() == 0 ==> args.empty,
        content.len() <= limit,
{
}

/// A file that was written is never a failure, whatever the check says of it.
pub proof fn law_a_failing_check_keeps_the_file(
    args: WriteArgs,
    limit: u64,
    content: Seq<u8>,
    written: Written,
    action: Action,
)
    requires
        is_next(args, limit, content, Event::Written(Ok(written)), action),
    ensures
        action matches Action::Answer(outcome) && outcome.error is None,
{
}

/// A check is answered as it came out, and only one that failed says that the file was kept.
pub proof fn law_a_failing_check_says_that_the_file_was_kept(result: CheckResult, checked: Checked)
    requires
        is_check(result, checked),
    ensures
        result.layer@ == checked.label@,
        checked.ok ==> result.status@ == checked.status@,
        !checked.ok ==> result.status@ == checked.status@ + " \u{b7} file kept"@,
{
}

} // verus!
