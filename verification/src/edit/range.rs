//! Replacing lines that the caller says it knows.
use vstd::prelude::*;
use vstd::slice::slice_subrange;

use crate::edit::bytes::{append, dominant_ending, ending_of, joined, replacement_of, Span};
use crate::edit::lines::{are_starts, line_says, line_span, line_text, lossy, lossy_text, span_of};
use crate::edit::scope::{are_line_candidates, candidates_for, range_name, range_text};
use crate::edit::spec::{Applied, Kind};
use crate::edit::splice::{lines_covered, span_lines, splice, splice_of};
use crate::error::{is_not_found, not_found, Error, ExpectReason};
use crate::output::{EditKind, Marker};
use crate::text;
use crate::text::{chomped, trimmed};

verus! {

/// The lines a target names, where it names lines.
pub open spec fn lines_named(kind: Kind) -> Option<(usize, usize)> {
    match kind {
        Kind::Line(line) => Some((line, line)),
        Kind::Range(from, to) => Some((from, to)),
        _ => None,
    }
}

/// Why the lines are not replaced: the target names none, the file lacks them, or what the caller
/// expects of them is too little or does not hold. `None` where nothing stands against it.
pub open spec fn is_range_error(
    error: Option<Error>,
    raw: Seq<char>,
    file: Seq<char>,
    kind: Kind,
    has_sha: bool,
    before: Seq<u8>,
    starts: Seq<usize>,
    expect: Option<&str>,
    expect_all: Option<&str>,
) -> bool {
    match lines_named(kind) {
        None => error matches Some(e) && is_not_found(
            e,
            raw,
            "a :line or :a-b target for --expect"@,
        ),
        Some((first, last)) => {
            let (start, end) = span_of(before, starts, first as int, last as int);
            if first == 0 || last > starts.len() {
                error matches Some(e) && is_not_found(
                    e,
                    raw,
                    range_text(first as nat, last as nat),
                )
            } else if last > first && expect is Some && expect_all is None && !has_sha {
                error matches Some(Error::ExpectRefused { target, reason }) && target@ == raw
                    && reason == ExpectReason::Range { first, last }
            } else if expect is Some && trimmed(line_says(before, starts, first as int)) != trimmed(
                expect->0@,
            ) {
                error matches Some(Error::ExpectRefused { target, reason }) && target@ == raw && (
                reason matches ExpectReason::Mismatch { line, actual } && line == first && actual@
                    == line_says(before, starts, first as int))
            } else if expect_all is Some && chomped(lossy(before.subrange(start, end))) != chomped(
                expect_all->0@,
            ) {
                error matches Some(Error::Ambiguous { target, candidates }) && target@ == raw
                    && are_line_candidates(
                    candidates@,
                    file,
                    before,
                    starts,
                    first as int,
                    last as int,
                )
            } else {
                error is None
            }
        },
    }
}

/// What goes in the place of the lines: a replacement of lines that end in a newline ends in one.
pub open spec fn lines_replacement(
    new: Seq<u8>,
    before: Seq<u8>,
    literal: bool,
    end: int,
) -> Seq<u8> {
    let text = replacement_of(new, before, literal);
    if before[end - 1] == 10 && !(text.len() > 0 && text.last() == 10) {
        text + ending_of(before)
    } else {
        text
    }
}

/// Which of the caller's expectations held.
pub open spec fn held_text(expect: bool, expect_all: bool, sha: bool) -> Seq<char> {
    let a = if expect {
        "expect matched"@
    } else {
        ""@
    };
    let b = if !expect_all {
        a
    } else if expect {
        a + " \u{b7} expect-all matched"@
    } else {
        "expect-all matched"@
    };
    if !sha {
        b
    } else if expect || expect_all {
        b + " \u{b7} sha matched"@
    } else {
        "sha matched"@
    }
}

fn held(expect: bool, expect_all: bool, sha: bool) -> (r: String)
    ensures
        r@ == held_text(expect, expect_all, sha),
{
    let a = if expect {
        "expect matched".to_owned()
    } else {
        "".to_owned()
    };
    let b = if !expect_all {
        a
    } else if expect {
        a.concat(" \u{b7} expect-all matched")
    } else {
        "expect-all matched".to_owned()
    };
    if !sha {
        b
    } else if expect || expect_all {
        b.concat(" \u{b7} sha matched")
    } else {
        "sha matched".to_owned()
    }
}

/// What replacing the one span leaves behind.
pub open spec fn is_replaced_lines(
    applied: Applied,
    before: Seq<u8>,
    span: Span,
    replacement: Seq<u8>,
) -> bool {
    &&& applied.after@ == splice_of(before, span, replacement)
    &&& applied.edits@ == seq![(span, replacement.len() as usize)]
    &&& applied.changed@.len() == 1
    &&& (applied.changed@[0].0 as nat, applied.changed@[0].1 as nat) == lines_covered(
        applied.after@,
        span.start as int,
        replacement.len() as int,
    )
    &&& applied.kind == EditKind::Replaced { count: 1 }
    &&& applied.marker == Marker::Replaced
    &&& !applied.normalized
    &&& !applied.crlf
    &&& !applied.span_guessed
}

/// Replaces the lines the target names, once what the caller expects of them holds.
pub fn replace_range(
    raw: &str,
    file: &str,
    kind: &Kind,
    has_sha: bool,
    literal: bool,
    before: &[u8],
    starts: &[usize],
    expect: Option<&str>,
    expect_all: Option<&str>,
    new: &[u8],
) -> (r: Result<Applied, Error>)
    requires
        are_starts(before@, starts@),
        kind.in_order(),
        before@.len() + replacement_of(new@, before@, literal).len() + 2 < usize::MAX,
    ensures
        match r {
            Ok(applied) => {
                let (first, last) = lines_named(*kind)->0;
                let (start, end) = span_of(before@, starts@, first as int, last as int);
                let span = Span { start: start as usize, end: end as usize };
                &&& is_range_error(
                    None,
                    raw@,
                    file@,
                    *kind,
                    has_sha,
                    before@,
                    starts@,
                    expect,
                    expect_all,
                )
                &&& span.within(before@.len())
                &&& is_replaced_lines(
                    applied,
                    before@,
                    span,
                    lines_replacement(new@, before@, literal, end),
                )
                &&& applied.match_kind@ == held_text(expect is Some, expect_all is Some, has_sha)
            },
            Err(e) => is_range_error(
                Some(e),
                raw@,
                file@,
                *kind,
                has_sha,
                before@,
                starts@,
                expect,
                expect_all,
            ),
        },
{
    let (first, last) = match kind {
        Kind::Line(line) => (*line, *line),
        Kind::Range(from, to) => (*from, *to),
        _ => return Err(not_found(raw, "a :line or :a-b target for --expect".to_owned())),
    };
    if first == 0 || last > starts.len() {
        return Err(not_found(raw, range_name(first, last)));
    }
    // A matching first line says nothing about a later one another process may have changed.

    if last > first && expect.is_some() && expect_all.is_none() && !has_sha {
        return Err(
            Error::ExpectRefused {
                target: raw.to_owned(),
                reason: ExpectReason::Range { first, last },
            },
        );
    }
    if let Some(expected) = expect {
        let actual = line_text(before, starts, first);
        if !text::same(text::trim(actual.as_str()), text::trim(expected)) {
            return Err(
                Error::ExpectRefused {
                    target: raw.to_owned(),
                    reason: ExpectReason::Mismatch { line: first, actual },
                },
            );
        }
    }
    let span = line_span(before, starts, first, last);
    if let Some(whole) = expect_all {
        let actual = lossy_text(slice_subrange(before, span.start, span.end));
        if !text::same(text::chomp(actual.as_str()), text::chomp(whole)) {
            return Err(
                Error::Ambiguous {
                    target: raw.to_owned(),
                    candidates: candidates_for(file, before, starts, first, last),
                },
            );
        }
    }
    let mut replacement = joined(new, before, literal);
    if before[span.end - 1] == 10 {
        let open = replacement.len() == 0 || replacement[replacement.len() - 1] != 10;
        if open {
            let ending = dominant_ending(before);
            append(&mut replacement, ending.as_slice());
        }
    }
    let after = splice(before, span, replacement.as_slice());
    let size = replacement.len();
    let mut changed: Vec<(usize, usize)> = Vec::new();
    changed.push(span_lines(after.as_slice(), span.start, size));
    let mut edits: Vec<(Span, usize)> = Vec::new();
    edits.push((span, size));
    Ok(
        Applied {
            after,
            edits,
            kind: EditKind::Replaced { count: 1 },
            match_kind: held(expect.is_some(), expect_all.is_some(), has_sha),
            changed,
            marker: Marker::Replaced,
            normalized: false,
            crlf: false,
            span_guessed: false,
        },
    )
}

/// Lines are replaced exactly where the file has them and what the caller expects of them holds: the
/// first line says what was expected but for white space at its ends, all of them say what was
/// expected of all, and of several lines more than the first is vouched for.
pub proof fn law_lines_are_replaced_where_the_caller_knows_them(
    error: Option<Error>,
    raw: Seq<char>,
    file: Seq<char>,
    kind: Kind,
    has_sha: bool,
    before: Seq<u8>,
    starts: Seq<usize>,
    expect: Option<&str>,
    expect_all: Option<&str>,
    first: usize,
    last: usize,
)
    requires
        is_range_error(error, raw, file, kind, has_sha, before, starts, expect, expect_all),
        first <= last,
        kind == Kind::Range(first, last) || (kind == Kind::Line(first) && last == first),
    ensures
        error is None <==> {
            let (start, end) = span_of(before, starts, first as int, last as int);
            &&& 1 <= first && last <= starts.len()
            &&& expect matches Some(said) ==> (first == last || expect_all is Some || has_sha)
                && trimmed(line_says(before, starts, first as int)) == trimmed(said@)
            &&& expect_all matches Some(said) ==> chomped(lossy(before.subrange(start, end)))
                == chomped(said@)
        },
        1 <= first && last <= starts.len() && (error matches Some(
            Error::ExpectRefused { reason: ExpectReason::Mismatch { line, actual }, .. },
        )) ==> error->0->ExpectRefused_reason->line == first
            && error->0->ExpectRefused_reason->actual@ == line_says(before, starts, first as int),
{
}

/// Lines that end in a newline give way to lines that do: no line is joined to the one below.
pub proof fn law_replaced_lines_stay_lines(
    new: Seq<u8>,
    before: Seq<u8>,
    literal: bool,
    end: int,
)
    requires
        0 < end <= before.len(),
    ensures
        ({
            let text = lines_replacement(new, before, literal, end);
            &&& before[end - 1] == 10 ==> text.len() > 0 && text.last() == 10
            &&& replacement_of(new, before, literal).is_prefix_of(text)
            &&& text.len() <= replacement_of(new, before, literal).len() + 2
        }),
{
    let text = lines_replacement(new, before, literal, end);
    let put = replacement_of(new, before, literal);
    assert(text.subrange(0, put.len() as int) =~= put);
}

} // verus!
