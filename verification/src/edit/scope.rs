//! The part of a file that an edit searches.
use vstd::prelude::*;
use vstd::utf8::*;

use crate::edit::bytes::Span;
use crate::edit::lines::{are_starts, line_span, line_says, line_text, span_of, utf8_text};
use crate::edit::spec::{Kind, Lookup, SymbolMatch};
use crate::error::{is_not_found, not_found, Candidate, Error, UnsupportedReason};
use crate::pattern::{escape, escaped};
use crate::text;
use crate::text::{decimal, decimal_of, joined, texts};

verus! {

/// The file is not text where the edit has to read it as such.
pub open spec fn is_not_text(error: Error, file: Seq<char>) -> bool {
    error matches Error::Unsupported { path, reason: UnsupportedReason::NonUtf8Region } && path@
        == file
}

/// `candidates` are the definitions found, each in `file`.
pub open spec fn are_candidates(
    candidates: Seq<Candidate>,
    file: Seq<char>,
    found: Seq<SymbolMatch>,
) -> bool {
    &&& candidates.len() == found.len()
    &&& forall|i: int|
        0 <= i < found.len() ==> (#[trigger] candidates[i]).path@ == file && candidates[i].line
            == found[i].line && candidates[i].text@ == found[i].text@
}

/// Each of several definitions could be the one meant.
pub open spec fn is_ambiguous(
    error: Error,
    raw: Seq<char>,
    file: Seq<char>,
    found: Seq<SymbolMatch>,
) -> bool {
    error matches Error::Ambiguous { target, candidates } && target@ == raw && are_candidates(
        candidates@,
        file,
        found,
    )
}

pub fn ambiguous(raw: &str, file: &str, found: &Vec<SymbolMatch>) -> (r: Error)
    ensures
        is_ambiguous(r, raw@, file@, found@),
{
    let mut candidates: Vec<Candidate> = Vec::new();
    let mut i: usize = 0;
    while i < found.len()
        invariant
            i <= found@.len(),
            candidates@.len() == i,
            forall|j: int|
                0 <= j < i ==> (#[trigger] candidates@[j]).path@ == file@ && candidates@[j].line
                    == found@[j].line && candidates@[j].text@ == found@[j].text@,
        decreases found@.len() - i,
    {
        candidates.push(
            Candidate {
                path: file.to_owned(),
                line: found[i].line,
                text: found[i].text.clone(),
            },
        );
        i = i + 1;
    }
    Error::Ambiguous { target: raw.to_owned(), candidates }
}

/// The pattern to try for a name in a file with no grammar.
pub fn symbol_hint(segments: &Vec<String>) -> (r: String)
    ensures
        r@ == escaped(
            if segments@.len() == 0 {
                ""@
            } else {
                segments@.last()@
            },
        ),
{
    if segments.len() == 0 {
        escape("")
    } else {
        escape(segments[segments.len() - 1].as_str())
    }
}

/// What is missing, with the pattern to try where there is one.
pub open spec fn missing_text(base: Seq<char>, hint: Option<String>) -> Seq<char> {
    match hint {
        Some(name) => base + " (try @'"@ + name@ + "')"@,
        None => base,
    }
}

pub fn missing(base: &str, hint: &Option<String>) -> (r: String)
    ensures
        r@ == missing_text(base@, *hint),
{
    match hint {
        Some(name) => base.to_owned().concat(" (try @'").concat(name.as_str()).concat("')"),
        None => base.to_owned(),
    }
}

/// `:first-last`.
pub open spec fn range_text(first: nat, last: nat) -> Seq<char> {
    ":"@ + decimal_of(first) + "-"@ + decimal_of(last)
}

pub fn range_name(first: usize, last: usize) -> (r: String)
    ensures
        r@ == range_text(first as nat, last as nat),
{
    ":".to_owned().concat(decimal(first).as_str()).concat("-").concat(decimal(last).as_str())
}

/// The lines `first..=last`, where the file has them.
pub open spec fn is_bounded(
    raw: Seq<char>,
    before: Seq<u8>,
    starts: Seq<usize>,
    first: usize,
    last: usize,
    r: Result<Span, Error>,
) -> bool {
    match r {
        Ok(span) => first != 0 && last <= starts.len() && (span.start as int, span.end as int)
            == span_of(before, starts, first as int, last as int),
        Err(e) => (first == 0 || last > starts.len()) && is_not_found(
            e,
            raw,
            range_text(first as nat, last as nat),
        ),
    }
}

pub fn bounded(
    raw: &str,
    before: &[u8],
    starts: &[usize],
    first: usize,
    last: usize,
) -> (r: Result<Span, Error>)
    requires
        are_starts(before@, starts@),
        first <= last,
    ensures
        is_bounded(raw@, before@, starts@, first, last, r),
        r matches Ok(span) ==> span.within(before@.len()),
{
    if first == 0 || last > starts.len() {
        return Err(not_found(raw, range_name(first, last)));
    }
    Ok(line_span(before, starts, first, last))
}

/// The name of a symbol as it was typed.
pub open spec fn symbol_text(segments: Seq<String>) -> Seq<char> {
    "#"@ + joined(texts(segments), "."@)
}

/// The pattern of a target as it was typed.
pub open spec fn pattern_text(pattern: Seq<char>) -> Seq<char> {
    "@'"@ + pattern + "'"@
}

pub fn pattern_name(pattern: &str) -> (r: String)
    ensures
        r@ == pattern_text(pattern@),
{
    "@'".to_owned().concat(pattern).concat("'")
}

pub open spec fn plain_span(r: Result<(Span, bool), Error>) -> Result<Span, Error> {
    match r {
        Ok((span, _)) => Ok(span),
        Err(e) => Err(e),
    }
}

/// What an edit of a target searches: the whole file, lines of it, the line a pattern matches or
/// the one definition a symbol names, and whether the end of that is a guess.
pub open spec fn is_scope(
    raw: Seq<char>,
    file: Seq<char>,
    kind: Kind,
    before: Seq<u8>,
    starts: Seq<usize>,
    lookup: Lookup,
    r: Result<(Span, bool), Error>,
) -> bool {
    match kind {
        Kind::Whole => r == Ok::<(Span, bool), Error>(
            (Span { start: 0, end: before.len() as usize }, false),
        ),
        Kind::Line(line) => (r matches Ok((_, guessed)) ==> !guessed) && is_bounded(
            raw,
            before,
            starts,
            line,
            line,
            plain_span(r),
        ),
        Kind::Range(first, last) => (r matches Ok((_, guessed)) ==> !guessed) && is_bounded(
            raw,
            before,
            starts,
            first,
            last,
            plain_span(r),
        ),
        Kind::Regex { pattern, .. } => if !valid_utf8(before) {
            r matches Err(e) && is_not_text(e, file)
        } else {
            match lookup {
                Lookup::Line(line) => (r matches Ok((_, guessed)) ==> !guessed) && is_bounded(
                    raw,
                    before,
                    starts,
                    line,
                    line,
                    plain_span(r),
                ),
                Lookup::BadPattern => r matches Err(e) && is_not_found(
                    e,
                    raw,
                    pattern_text(pattern@) + " (invalid regex)"@,
                ),
                _ => r matches Err(e) && is_not_found(e, raw, pattern_text(pattern@)),
            }
        },
        Kind::Symbol(segments) => if !valid_utf8(before) {
            r matches Err(e) && is_not_text(e, file)
        } else {
            match lookup {
                Lookup::Symbols { found, hint } => if found@.len() == 0 {
                    r matches Err(e) && is_not_found(
                        e,
                        raw,
                        missing_text(symbol_text(segments@), hint),
                    )
                } else if found@.len() == 1 {
                    r == Ok::<(Span, bool), Error>(
                        (
                            Span { start: found@[0].start, end: found@[0].end },
                            found@[0].end_guessed,
                        ),
                    )
                } else {
                    r matches Err(e) && is_ambiguous(e, raw, file, found@)
                },
                _ => r matches Err(e) && is_not_found(e, raw, symbol_text(segments@)),
            }
        },
    }
}

fn not_text(file: &str) -> (r: Error)
    ensures
        is_not_text(r, file@),
{
    Error::Unsupported { path: file.to_owned(), reason: UnsupportedReason::NonUtf8Region }
}

/// The text of `bytes`, or the refusal of a file that is none.
pub fn utf8(bytes: &[u8], file: &str) -> (r: Result<String, Error>)
    ensures
        match r {
            Ok(s) => encode_utf8(s@) == bytes@ && valid_utf8(bytes@),
            Err(e) => !valid_utf8(bytes@) && is_not_text(e, file@),
        },
{
    match utf8_text(bytes) {
        Some(s) => {
            proof {
                encode_utf8_valid_utf8(s@);
            }
            Ok(s)
        },
        None => Err(not_text(file)),
    }
}

/// The `bool` is whether the plaintext heuristic guessed the span's end.
pub fn scope_span(
    raw: &str,
    file: &str,
    kind: &Kind,
    before: &[u8],
    starts: &[usize],
    lookup: &Lookup,
) -> (r: Result<(Span, bool), Error>)
    requires
        are_starts(before@, starts@),
        kind.in_order(),
        lookup.within(before@.len()),
    ensures
        is_scope(raw@, file@, *kind, before@, starts@, *lookup, r),
        r matches Ok((span, _)) ==> span.within(before@.len()),
{
    match kind {
        Kind::Whole => Ok((Span { start: 0, end: before.len() }, false)),
        Kind::Line(line) => match bounded(raw, before, starts, *line, *line) {
            Ok(span) => Ok((span, false)),
            Err(e) => Err(e),
        },
        Kind::Range(first, last) => match bounded(raw, before, starts, *first, *last) {
            Ok(span) => Ok((span, false)),
            Err(e) => Err(e),
        },
        Kind::Regex { pattern, .. } => {
            match utf8(before, file) {
                Ok(_) => {},
                Err(e) => return Err(e),
            }
            let what = pattern_name(pattern.as_str());
            match lookup {
                Lookup::Line(line) => match bounded(raw, before, starts, *line, *line) {
                    Ok(span) => Ok((span, false)),
                    Err(e) => Err(e),
                },
                Lookup::BadPattern => Err(not_found(raw, what.concat(" (invalid regex)"))),
                _ => Err(not_found(raw, what)),
            }
        },
        Kind::Symbol(segments) => {
            match utf8(before, file) {
                Ok(_) => {},
                Err(e) => return Err(e),
            }
            let symbol = "#".to_owned().concat(text::join(segments, ".").as_str());
            match lookup {
                Lookup::Symbols { found, hint } => if found.len() == 0 {
                    Err(not_found(raw, missing(symbol.as_str(), hint)))
                } else if found.len() == 1 {
                    Ok((Span { start: found[0].start, end: found[0].end }, found[0].end_guessed))
                } else {
                    Err(ambiguous(raw, file, found))
                },
                _ => Err(not_found(raw, symbol)),
            }
        },
    }
}

/// Line `first + i` of the file, as a candidate.
pub open spec fn are_line_candidates(
    candidates: Seq<Candidate>,
    file: Seq<char>,
    before: Seq<u8>,
    starts: Seq<usize>,
    first: int,
    last: int,
) -> bool {
    &&& candidates.len() == last - first + 1
    &&& forall|i: int|
        0 <= i < candidates.len() ==> (#[trigger] candidates[i]).path@ == file && candidates[i].line
            == first + i && candidates[i].text@ == line_says(before, starts, first + i)
}

/// The lines `first..=last` themselves, for a caller whose idea of them is out of date.
pub fn candidates_for(
    file: &str,
    before: &[u8],
    starts: &[usize],
    first: usize,
    last: usize,
) -> (r: Vec<Candidate>)
    requires
        are_starts(before@, starts@),
        1 <= first <= last <= starts@.len(),
    ensures
        are_line_candidates(r@, file@, before@, starts@, first as int, last as int),
{
    let mut out: Vec<Candidate> = Vec::new();
    let total = starts.len();
    let mut line: usize = first;
    while line <= last
        invariant
            are_starts(before@, starts@),
            1 <= first <= line <= last + 1,
            last <= total == starts@.len(),
            out@.len() == line - first,
            forall|i: int|
                0 <= i < out@.len() ==> (#[trigger] out@[i]).path@ == file@ && out@[i].line
                    == first + i && out@[i].text@ == line_says(before@, starts@, first + i),
        decreases last + 1 - line,
    {
        let said = line_text(before, starts, line);
        out.push(Candidate { path: file.to_owned(), line, text: said });
        if line == last {
            return out;
        }
        line = line + 1;
    }
    out
}

} // verus!
