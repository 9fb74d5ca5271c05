//! Why a call failed, as data, with the short name a script reads and the line a person reads.
use vstd::prelude::*;

use crate::text;
use crate::text::{decimal, decimal_of, joined};

verus! {

/// A place a target could have meant.
#[derive(Debug)]
pub struct Candidate {
    pub path: String,
    pub line: usize,
    pub text: String,
}

/// Which check refused an edit.
#[derive(Debug, Clone, Copy, PartialEq, Eq, Structural)]
pub enum CheckLayer {
    Structure,
    Structured,
    Command,
}

/// Why the text a caller expected does not license the edit.
#[derive(Debug)]
pub enum ExpectReason {
    /// One expected line says nothing about the rest of a range.
    Range { first: usize, last: usize },
    /// The file holds something else on that line.
    Mismatch { line: usize, actual: String },
}

/// Why a file cannot be worked on at all.
#[derive(Debug, Clone, Copy, PartialEq, Eq, Structural)]
pub enum UnsupportedReason {
    Binary,
    NonUtf8Region,
    NotStructured,
    TooLarge { bytes: u64, limit: u64 },
}

/// Why a file is not written.
#[derive(Debug)]
pub enum RefusedReason {
    EmptyInput,
    Exists { lines: usize, sha: String },
}

/// What else licenses an edit of lines.
pub open spec fn expect_hint() -> Seq<char> {
    " \u{b7} pass --expect-all, or --if sha:<hash> from the last read"@
}

impl Candidate {
    /// The place and what stands there, as a line of a list.
    pub open spec fn text_of(self) -> Seq<char> {
        "\n"@ + self.path@ + ":"@ + decimal_of(self.line as nat) + "\t"@ + self.text@
    }

    pub fn text(&self) -> (r: String)
        ensures
            r@ == self.text_of(),
    {
        "\n".to_owned().concat(self.path.as_str()).concat(":").concat(
            decimal(self.line).as_str(),
        ).concat("\t").concat(self.text.as_str())
    }
}

/// The first `n` candidates, line by line.
pub open spec fn candidates_text(candidates: Seq<Candidate>, n: int) -> Seq<char>
    decreases n,
{
    if n <= 0 {
        Seq::empty()
    } else {
        candidates_text(candidates, n - 1) + candidates[n - 1].text_of()
    }
}

fn list_candidates(candidates: &Vec<Candidate>) -> (r: String)
    ensures
        r@ == candidates_text(candidates@, candidates@.len() as int),
{
    let mut out = String::new();
    let mut i: usize = 0;
    while i < candidates.len()
        invariant
            i <= candidates@.len(),
            out@ == candidates_text(candidates@, i as int),
        decreases candidates@.len() - i,
    {
        out = out.concat(candidates[i].text().as_str());
        i = i + 1;
    }
    out
}

/// The line that comes closest to what was looked for.
pub open spec fn nearest_text(nearest: Option<Candidate>) -> Seq<char> {
    match nearest {
        Some(candidate) => " \u{b7} nearest: line "@ + decimal_of(candidate.line as nat) + ": "@
            + candidate.text@,
        None => ""@,
    }
}

fn tell_nearest(nearest: &Option<Candidate>) -> (r: String)
    ensures
        r@ == nearest_text(*nearest),
{
    match nearest {
        Some(candidate) => " \u{b7} nearest: line ".to_owned().concat(
            decimal(candidate.line).as_str(),
        ).concat(": ").concat(candidate.text.as_str()),
        None => "".to_owned(),
    }
}

impl ExpectReason {
    pub open spec fn text_of(self) -> Seq<char> {
        match self {
            ExpectReason::Range { first, last } => "--expect names line "@ + decimal_of(
                first as nat,
            ) + " only, and the range runs to line "@ + decimal_of(last as nat) + expect_hint(),
            ExpectReason::Mismatch { line, actual } => "line "@ + decimal_of(line as nat)
                + " is not what --expect says \u{b7} it reads: "@ + actual@ + expect_hint(),
        }
    }

    pub fn text(&self) -> (r: String)
        ensures
            r@ == self.text_of(),
    {
        match self {
            ExpectReason::Range { first, last } => "--expect names line ".to_owned().concat(
                decimal(*first).as_str(),
            ).concat(" only, and the range runs to line ").concat(decimal(*last).as_str()).concat(
                " \u{b7} pass --expect-all, or --if sha:<hash> from the last read",
            ),
            ExpectReason::Mismatch { line, actual } => "line ".to_owned().concat(
                decimal(*line).as_str(),
            ).concat(" is not what --expect says \u{b7} it reads: ").concat(actual.as_str()).concat(
                " \u{b7} pass --expect-all, or --if sha:<hash> from the last read",
            ),
        }
    }
}

impl UnsupportedReason {
    pub open spec fn text_of(self) -> Seq<char> {
        match self {
            UnsupportedReason::Binary => "binary file"@,
            UnsupportedReason::NonUtf8Region => "not UTF-8"@,
            UnsupportedReason::NotStructured =>
                "not JSON, YAML, TOML or Markdown with frontmatter"@,
            UnsupportedReason::TooLarge { .. } => "too large"@,
        }
    }

    pub fn text(&self) -> (r: String)
        ensures
            r@ == self.text_of(),
    {
        match self {
            UnsupportedReason::Binary => "binary file".to_owned(),
            UnsupportedReason::NonUtf8Region => "not UTF-8".to_owned(),
            UnsupportedReason::NotStructured => "not JSON, YAML, TOML or Markdown with frontmatter".to_owned(),
            UnsupportedReason::TooLarge { .. } => "too large".to_owned(),
        }
    }
}

#[derive(Debug)]
#[allow(inconsistent_fields)]
pub enum Error {
    NotFound { target: String, what: String, nearest: Option<Candidate> },
    Ambiguous { target: String, candidates: Vec<Candidate> },
    Usage { message: String },
    Several { errors: Vec<Error> },
    MixedEndings { path: String },
    EmptyFile { path: String },
    ExpectRefused { target: String, reason: ExpectReason },
    GuessedSpan { target: String, command: String },
    Unsupported { path: String, reason: UnsupportedReason },
    /// Reading or writing failed; `missing` when the file is not there.
    Io { path: String, detail: String, missing: bool },
    MistypedTarget { target: String, meant: String },
    CheckFailed { path: String, layer: CheckLayer, detail: String },
    PartialBatch { written: Vec<String>, failed: String, detail: String },
    OutsideTree { path: String },
    /// The file is not the one whose hash was given.
    Changed { path: String, expected: String, actual: String },
    Locked { path: String },
    InvalidPattern { pattern: String, message: String },
    NoHits { pattern: String, grep_style: Option<String> },
    OverCap { hits: usize, files: usize, cap: usize },
    OverBudget { bytes: u64, limit: u64 },
    /// The file's extension belongs to no language with a grammar.
    NoGrammar { path: String, ext: String },
    Refused { path: String, reason: RefusedReason },
    UpdateAvailable { current: String, latest: String },
    UpdateFailed { detail: String },
    /// Nothing can be installed as things stand.
    InstallRefused { detail: String },
}

impl Error {
    /// The first failure of several names them all.
    pub open spec fn slug_of(self) -> Seq<char>
        decreases self,
    {
        match self {
            Error::NotFound { .. } => "not_found"@,
            Error::Ambiguous { .. } => "ambiguous"@,
            Error::Usage { .. } => "usage"@,
            Error::Several { errors } => if errors@.len() > 0 {
                errors@[0].slug_of()
            } else {
                "ok"@
            },
            Error::MixedEndings { .. } => "not_found"@,
            Error::EmptyFile { .. } => "not_found"@,
            Error::ExpectRefused { .. } => "expect_refused"@,
            Error::GuessedSpan { .. } => "ambiguous"@,
            Error::Unsupported { .. } => "unsupported_file"@,
            Error::Io { missing: true, .. } => "not_found"@,
            Error::Io { .. } => "io_error"@,
            Error::MistypedTarget { .. } => "not_found"@,
            Error::CheckFailed { .. } => "check_failed"@,
            Error::PartialBatch { .. } => "partial_batch"@,
            Error::OutsideTree { .. } => "outside_tree"@,
            Error::Changed { .. } => "changed"@,
            Error::Locked { .. } => "locked"@,
            Error::InvalidPattern { .. } => "invalid_pattern"@,
            Error::NoHits { .. } => "not_found"@,
            Error::OverCap { .. } => "over_cap"@,
            Error::OverBudget { .. } => "over_budget"@,
            Error::NoGrammar { .. } => "no_grammar"@,
            Error::Refused { reason: RefusedReason::EmptyInput, .. } => "empty_input"@,
            Error::Refused { reason: RefusedReason::Exists { .. }, .. } => "exists"@,
            Error::UpdateAvailable { .. } => "update_available"@,
            Error::UpdateFailed { .. } => "update_failed"@,
            Error::InstallRefused { .. } => "install_refused"@,
        }
    }

    /// The short name of the failure; the first of several sets it.
    pub fn slug(&self) -> (r: &'static str)
        ensures
            r@ == self.slug_of(),
        decreases self,
    {
        match self {
            Error::NotFound { .. } => "not_found",
            Error::Ambiguous { .. } => "ambiguous",
            Error::Usage { .. } => "usage",
            Error::Several { errors } => if errors.len() > 0 {
                errors[0].slug()
            } else {
                "ok"
            },
            Error::MixedEndings { .. } => "not_found",
            Error::EmptyFile { .. } => "not_found",
            Error::ExpectRefused { .. } => "expect_refused",
            Error::GuessedSpan { .. } => "ambiguous",
            Error::Unsupported { .. } => "unsupported_file",
            Error::Io { missing: true, .. } => "not_found",
            Error::Io { .. } => "io_error",
            Error::MistypedTarget { .. } => "not_found",
            Error::CheckFailed { .. } => "check_failed",
            Error::PartialBatch { .. } => "partial_batch",
            Error::OutsideTree { .. } => "outside_tree",
            Error::Changed { .. } => "changed",
            Error::Locked { .. } => "locked",
            Error::InvalidPattern { .. } => "invalid_pattern",
            Error::NoHits { .. } => "not_found",
            Error::OverCap { .. } => "over_cap",
            Error::OverBudget { .. } => "over_budget",
            Error::NoGrammar { .. } => "no_grammar",
            Error::Refused { reason: RefusedReason::EmptyInput, .. } => "empty_input",
            Error::Refused { reason: RefusedReason::Exists { .. }, .. } => "exists",
            Error::UpdateAvailable { .. } => "update_available",
            Error::UpdateFailed { .. } => "update_failed",
            Error::InstallRefused { .. } => "install_refused",
        }
    }

    /// What the first `n` failures say.
    pub open spec fn texts_of(errors: Seq<Error>, n: int) -> Seq<Seq<char>>
        decreases errors, n,
    {
        if n <= 0 || n > errors.len() {
            Seq::empty()
        } else {
            Error::texts_of(errors, n - 1).push(errors[n - 1].text_of())
        }
    }

    /// What the failure says.
    pub open spec fn text_of(self) -> Seq<char>
        decreases self, 0int,
    {
        match self {
            Error::NotFound { target, what, nearest } => what@ + " not found in "@ + target@
                + nearest_text(nearest),
            Error::Ambiguous { target, candidates } => target@ + ": "@ + decimal_of(
                candidates@.len(),
            ) + " candidates"@ + candidates_text(candidates@, candidates@.len() as int),
            Error::Usage { message } => message@,
            Error::Several { errors } => joined(
                Error::texts_of(errors@, errors@.len() as int),
                "\n"@,
            ),
            Error::MixedEndings { path } => path@ + ": mixed line endings"@,
            Error::EmptyFile { path } => path@ + ": the file is empty"@,
            Error::ExpectRefused { target, reason } => target@ + ": "@ + reason.text_of(),
            Error::GuessedSpan { target, command } => target@
                + ": where it ends is a guess \u{b7} "@ + command@,
            Error::Unsupported { path, reason } => path@ + " is unsupported: "@ + reason.text_of(),
            Error::Io { path, detail, .. } => path@ + ": "@ + detail@,
            Error::MistypedTarget { target, meant } => target@
                + ": no such file \u{b7} did you mean "@ + meant@,
            Error::CheckFailed { path, detail, .. } => path@ + ": "@ + detail@,
            Error::PartialBatch { failed, detail, .. } => failed@ + ": "@ + detail@,
            Error::OutsideTree { path } => path@ + ": outside the working tree"@,
            Error::Changed { path, expected, actual } => path@ + ": changed since it was read \u{b7} expected sha:"@
                + expected@ + ", found sha:"@ + actual@,
            Error::Locked { path } => path@ + ": locked"@,
            Error::InvalidPattern { message, .. } => "invalid pattern: "@ + message@,
            Error::NoHits { pattern, grep_style } => "no hits for \u{ab}"@ + pattern@ + "\u{bb}"@
                + (match grep_style {
                Some(read_as) => " or, read as grep does, \u{ab}"@ + read_as@ + "\u{bb}"@,
                None => ""@,
            }),
            Error::OverCap { hits, files, cap } => decimal_of(hits as nat) + " hits in "@
                + decimal_of(files as nat) + " files are over the cap of "@ + decimal_of(cap as nat),
            Error::OverBudget { .. } => "the answer is over --max-bytes"@,
            Error::NoGrammar { path, ext } => path@ + ": no grammar for ."@ + ext@ + " files"@,
            Error::Refused { path, reason: RefusedReason::EmptyInput } => path@
                + ": nothing on stdin \u{b7} pass --empty to write an empty file"@,
            Error::Refused { path, reason: RefusedReason::Exists { lines, sha } } => path@
                + " exists ("@ + decimal_of(lines as nat) + " line"@ + text::plural(lines as nat)
                + ", sha:"@ + sha@ + ") \u{b7} pass --force to overwrite"@,
            Error::UpdateAvailable { current, latest } => "version "@ + latest@
                + " is available \u{b7} this is "@ + current@,
            Error::UpdateFailed { detail } => detail@,
            Error::InstallRefused { detail } => detail@,
        }
    }

    /// What the failure says; several say theirs line by line.
    pub fn text(&self) -> (r: String)
        ensures
            r@ == self.text_of(),
        decreases self,
    {
        match self {
            Error::NotFound { target, what, nearest } => what.clone().concat(" not found in ").concat(
                target.as_str(),
            ).concat(tell_nearest(nearest).as_str()),
            Error::Ambiguous { target, candidates } => target.clone().concat(": ").concat(
                decimal(candidates.len()).as_str(),
            ).concat(" candidates").concat(list_candidates(candidates).as_str()),
            Error::Usage { message } => message.clone(),
            Error::Several { errors } => {
                let mut parts: Vec<String> = Vec::new();
                let mut i: usize = 0;
                assert(text::texts(parts@) =~= Seq::empty());
                while i < errors.len()
                    invariant
                        i <= errors@.len(),
                        self matches Error::Several { errors: own } && own == errors,
                        text::texts(parts@) == Error::texts_of(errors@, i as int),
                    decreases errors@.len() - i,
                {
                    let ghost before = parts@;
                    parts.push(errors[i].text());
                    assert(text::texts(parts@) =~= text::texts(before).push(
                        errors@[i as int].text_of(),
                    ));
                    i = i + 1;
                }
                text::join(&parts, "\n")
            },
            Error::MixedEndings { path } => path.clone().concat(": mixed line endings"),
            Error::EmptyFile { path } => path.clone().concat(": the file is empty"),
            Error::ExpectRefused { target, reason } => target.clone().concat(": ").concat(
                reason.text().as_str(),
            ),
            Error::GuessedSpan { target, command } => target.clone().concat(
                ": where it ends is a guess \u{b7} ",
            ).concat(command.as_str()),
            Error::Unsupported { path, reason } => path.clone().concat(
                " is unsupported: ",
            ).concat(reason.text().as_str()),
            Error::Io { path, detail, .. } => path.clone().concat(": ").concat(detail.as_str()),
            Error::MistypedTarget { target, meant } => target.clone().concat(
                ": no such file \u{b7} did you mean ",
            ).concat(meant.as_str()),
            Error::CheckFailed { path, detail, .. } => path.clone().concat(": ").concat(
                detail.as_str(),
            ),
            Error::PartialBatch { failed, detail, .. } => failed.clone().concat(": ").concat(
                detail.as_str(),
            ),
            Error::OutsideTree { path } => path.clone().concat(": outside the working tree"),
            Error::Changed { path, expected, actual } => path.clone().concat(
                ": changed since it was read \u{b7} expected sha:",
            ).concat(expected.as_str()).concat(", found sha:").concat(actual.as_str()),
            Error::Locked { path } => path.clone().concat(": locked"),
            Error::InvalidPattern { message, .. } => "invalid pattern: ".to_owned().concat(
                message.as_str(),
            ),
            Error::NoHits { pattern, grep_style } => {
                let reading = match grep_style {
                    Some(read_as) => " or, read as grep does, \u{ab}".to_owned().concat(
                        read_as.as_str(),
                    ).concat("\u{bb}"),
                    None => "".to_owned(),
                };
                "no hits for \u{ab}".to_owned().concat(pattern.as_str()).concat("\u{bb}").concat(
                    reading.as_str(),
                )
            },
            Error::OverCap { hits, files, cap } => decimal(*hits).concat(" hits in ").concat(
                decimal(*files).as_str(),
            ).concat(" files are over the cap of ").concat(decimal(*cap).as_str()),
            Error::OverBudget { .. } => "the answer is over --max-bytes".to_owned(),
            Error::NoGrammar { path, ext } => path.clone().concat(": no grammar for .").concat(
                ext.as_str(),
            ).concat(" files"),
            Error::Refused { path, reason: RefusedReason::EmptyInput } => path.clone().concat(
                ": nothing on stdin \u{b7} pass --empty to write an empty file",
            ),
            Error::Refused { path, reason: RefusedReason::Exists { lines, sha } } => path.clone().concat(
                " exists (",
            ).concat(decimal(*lines).as_str()).concat(" line").concat(
                text::plural_suffix(*lines),
            ).concat(", sha:").concat(sha.as_str()).concat(") \u{b7} pass --force to overwrite"),
            Error::UpdateAvailable { current, latest } => "version ".to_owned().concat(
                latest.as_str(),
            ).concat(" is available \u{b7} this is ").concat(current.as_str()),
            Error::UpdateFailed { detail } => detail.clone(),
            Error::InstallRefused { detail } => detail.clone(),
        }
    }

    /// `failure` stands for all of `errors`: none, the only one, or the list of them.
    pub open spec fn stands_for(failure: Option<Error>, errors: Seq<Error>) -> bool {
        match failure {
            None => errors.len() == 0,
            Some(Error::Several { errors: all }) if errors.len() != 1 => errors.len() > 1 && all@
                == errors,
            Some(one) => errors.len() == 1 && errors[0] == one,
        }
    }

    /// One failure for all of `errors`.
    pub fn all(errors: Vec<Error>) -> (r: Option<Error>)
        ensures
            Error::stands_for(r, errors@),
    {
        let mut errors = errors;
        if errors.len() > 1 {
            Some(Error::Several { errors })
        } else {
            errors.pop()
        }
    }
}

/// A usage failure with this message.
pub open spec fn is_usage(error: Error, message: Seq<char>) -> bool {
    error matches Error::Usage { message: m } && m@ == message
}

/// A failure to find `what` in `target`, with nothing near it to offer.
pub open spec fn is_not_found(error: Error, target: Seq<char>, what: Seq<char>) -> bool {
    error matches Error::NotFound { target: t, what: w, nearest: None } && t@ == target && w@
        == what
}

pub fn usage(message: String) -> (r: Error)
    ensures
        is_usage(r, message@),
{
    Error::Usage { message }
}

pub fn not_found(raw: &str, what: String) -> (r: Error)
    ensures
        is_not_found(r, raw@, what@),
{
    Error::NotFound { target: raw.to_owned(), what, nearest: None }
}

/// Every one of `errors` is a usage failure.
pub open spec fn all_usage(errors: Seq<Error>) -> bool {
    forall|i: int| 0 <= i < errors.len() ==> (#[trigger] errors[i]) is Usage
}

/// What a usage failure says.
pub open spec fn message_of(error: Error) -> Seq<char> {
    match error {
        Error::Usage { message } => message@,
        _ => Seq::empty(),
    }
}

/// What the usage failures say.
pub open spec fn messages(errors: Seq<Error>) -> Seq<Seq<char>> {
    errors.map_values(|error: Error| message_of(error))
}

/// Adds a usage failure to a list of them.
pub fn note(errors: &mut Vec<Error>, message: String)
    requires
        all_usage(old(errors)@),
    ensures
        all_usage(final(errors)@),
        messages(final(errors)@) == messages(old(errors)@).push(message@),
{
    let ghost before = errors@;
    errors.push(usage(message));
    assert(messages(errors@) =~= messages(before).push(message@));
}

/// `error` is the failure that stands for usage failures that say `all`: the one of them, or the
/// list.
pub open spec fn is_usage_failure(error: Error, all: Seq<Seq<char>>) -> bool {
    if all.len() == 1 {
        is_usage(error, all[0])
    } else {
        error matches Error::Several { errors } && all_usage(errors@) && messages(errors@) == all
    }
}

/// The failure for a list of usage failures, where there is one.
pub fn usage_failure(errors: Vec<Error>) -> (r: Option<Error>)
    requires
        all_usage(errors@),
    ensures
        match r {
            Some(error) => errors@.len() > 0 && is_usage_failure(error, messages(errors@)),
            None => errors@.len() == 0,
        },
{
    let ghost all = errors@;
    let r = Error::all(errors);
    proof {
        if all.len() == 1 {
            assert(all[0] is Usage);
            assert(messages(all)[0] == message_of(all[0]));
        }
    }
    r
}

/// Usage failures are all told, in their order: a lone one as itself.
pub proof fn law_every_usage_failure_is_told(error: Error, all: Seq<Seq<char>>)
    requires
        is_usage_failure(error, all),
    ensures
        all.len() == 1 ==> (error matches Error::Usage { message } && message@ == all[0]),
        all.len() != 1 ==> (error matches Error::Several { errors } && errors@.len() == all.len()
            && forall|i: int|
            0 <= i < all.len() ==> ((#[trigger] errors@[i]) matches Error::Usage { message }
                && message@ == all[i])),
{
    if all.len() != 1 {
        if let Error::Several { errors } = error {
            assert forall|i: int| 0 <= i < all.len() implies ((#[trigger] errors@[i]) matches
                Error::Usage { message } && message@ == all[i]) by {
                assert(messages(errors@)[i] == message_of(errors@[i]));
            }
        }
    }
}

} // verus!
