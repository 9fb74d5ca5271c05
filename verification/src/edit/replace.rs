//! Replacing text that a search found.
use vstd::prelude::*;
use vstd::slice::slice_subrange;
use vstd::utf8::*;

use crate::edit::bytes::{
    crlf_needle, crlf_of, endings_of, has_bare_lf, holds_bare_lf, joined, lemma_newlines_bound,
    lemma_newlines_concat, line_at, line_of, newlines, replacement_of, Endings, Span,
};
use crate::edit::indent::{indent_hint, is_indent_hint};
use crate::edit::lines::utf8_text;
use crate::edit::spec::Applied;
use crate::edit::splice::{
    are_apart, lands_at, law_a_splice_keeps_every_other_byte, lines_covered, removed, span_lines,
    splice_all, spliced,
};
use crate::error::{Candidate, Error};
use crate::output::{EditKind, Marker};
use crate::text::{decimal, decimal_of};

verus! {

/// One place where the needle stands; `normalized` when only its folded form does.
#[derive(Debug, Clone, Copy, PartialEq, Eq, Structural)]
pub struct Located {
    pub span: Span,
    pub normalized: bool,
}

/// What a search of the scope for the needle came to. Spans and lines are the scope's own.
#[derive(Debug)]
pub enum Found {
    Unique(Located),
    All(Vec<Located>),
    Ambiguous(Vec<Candidate>),
    NotFound { nearest: Option<Candidate>, normalized_hint: Option<Span> },
}

/// The spans of `located`.
pub open spec fn spans_in(located: Seq<Located>) -> Seq<Span> {
    located.map_values(|one: Located| one.span)
}

impl Found {
    /// What was found lies in the searched bytes: matches in order and apart, lines among its
    /// own.
    pub open spec fn within(self, hay: Seq<u8>) -> bool {
        match self {
            Found::Unique(one) => one.span.within(hay.len()),
            Found::All(located) => located@.len() > 0 && are_apart(
                spans_in(located@),
                hay.len(),
            ),
            Found::Ambiguous(candidates) => forall|i: int|
                0 <= i < candidates@.len() ==> (#[trigger] candidates@[i]).line <= newlines(hay)
                    + 1,
            Found::NotFound { nearest, normalized_hint } => {
                &&& nearest matches Some(near) ==> near.line <= newlines(hay) + 1
                &&& normalized_hint matches Some(span) ==> span.within(hay.len())
            },
        }
    }

    /// The matches to replace.
    pub open spec fn located(self) -> Seq<Located> {
        match self {
            Found::Unique(one) => seq![one],
            Found::All(located) => located@,
            _ => Seq::empty(),
        }
    }
}

/// What a folding search takes for what: a character it does not name stands for itself.
#[derive(Debug)]
pub struct Fold {
    pub pairs: Vec<(char, char)>,
}

pub open spec fn folded(pairs: Seq<(char, char)>, c: char) -> char
    decreases pairs.len(),
{
    if pairs.len() == 0 {
        c
    } else if pairs[0].0 == c {
        pairs[0].1
    } else {
        folded(pairs.drop_first(), c)
    }
}

impl Fold {
    pub fn of(&self, c: char) -> (r: char)
        ensures
            r == folded(self.pairs@, c),
    {
        let mut i: usize = 0;
        assert(self.pairs@.skip(0) =~= self.pairs@);
        while i < self.pairs.len()
            invariant
                i <= self.pairs@.len(),
                folded(self.pairs@, c) == folded(self.pairs@.skip(i as int), c),
            decreases self.pairs@.len() - i,
        {
            let pair = self.pairs[i];
            if pair.0 == c {
                return pair.1;
            }
            assert(self.pairs@.skip(i as int).drop_first() =~= self.pairs@.skip(i + 1));
            i = i + 1;
        }
        c
    }
}

/// The first character of `had` that is not the one `typed` has there.
pub open spec fn first_difference(had: Seq<char>, typed: Seq<char>) -> Option<char>
    decreases had.len(),
{
    if had.len() == 0 || typed.len() == 0 {
        None
    } else if had[0] != typed[0] {
        Some(had[0])
    } else {
        first_difference(had.drop_first(), typed.drop_first())
    }
}

fn differing(had: &str, typed: &str) -> (r: Option<char>)
    ensures
        r == first_difference(had@, typed@),
{
    let n = had.unicode_len();
    let m = typed.unicode_len();
    let mut i: usize = 0;
    assert(had@.skip(0) =~= had@ && typed@.skip(0) =~= typed@);
    while i < n && i < m
        invariant
            i <= n == had@.len(),
            i <= m == typed@.len(),
            first_difference(had@, typed@) == first_difference(
                had@.skip(i as int),
                typed@.skip(i as int),
            ),
        decreases n - i,
    {
        let c = had.get_char(i);
        if c != typed.get_char(i) {
            return Some(c);
        }
        assert(had@.skip(i as int).drop_first() =~= had@.skip(i + 1));
        assert(typed@.skip(i as int).drop_first() =~= typed@.skip(i + 1));
        i = i + 1;
    }
    None
}

/// How the needle matched; a folded match names the first character that had to be folded.
pub open spec fn match_text(
    normalized: bool,
    matched: Seq<u8>,
    needle: Seq<u8>,
    fold: Fold,
) -> Seq<char> {
    if !normalized {
        "exact"@
    } else if valid_utf8(matched) && valid_utf8(needle) && first_difference(
        decode_utf8(matched),
        decode_utf8(needle),
    ) is Some {
        let had = first_difference(decode_utf8(matched), decode_utf8(needle))->0;
        "normalized ("@.push(had) + " \u{2192} "@.push(folded(fold.pairs@, had)) + ")"@
    } else {
        "normalized"@
    }
}

pub fn match_kind(normalized: bool, matched: &[u8], needle: &[u8], fold: &Fold) -> (r: String)
    ensures
        r@ == match_text(normalized, matched@, needle@, *fold),
{
    if !normalized {
        return "exact".to_owned();
    }
    match (utf8_text(matched), utf8_text(needle)) {
        (Some(had), Some(typed)) => {
            proof {
                encode_utf8_decode_utf8(had@);
                encode_utf8_decode_utf8(typed@);
                encode_utf8_valid_utf8(had@);
                encode_utf8_valid_utf8(typed@);
            }
            match differing(had.as_str(), typed.as_str()) {
                Some(c) => {
                    let mut out = "normalized (".to_owned();
                    out.push(c);
                    let mut arrow = " \u{2192} ".to_owned();
                    arrow.push(fold.of(c));
                    out.concat(arrow.as_str()).concat(")")
                },
                None => "normalized".to_owned(),
            }
        },
        _ => "normalized".to_owned(),
    }
}

/// Whether the needle is searched for in CRLF form: only where the file ends every line so, and
/// the caller typed bare newlines and did not ask for them.
pub open spec fn in_crlf_form(old: Seq<u8>, before: Seq<u8>, literal: bool) -> bool {
    holds_bare_lf(old) && !literal && endings_of(before) == Endings::Crlf
}

/// The bytes that are searched for.
pub open spec fn needle_of(old: Seq<u8>, before: Seq<u8>, literal: bool) -> Seq<u8> {
    if in_crlf_form(old, before, literal) {
        crlf_of(old)
    } else {
        old
    }
}

/// A shown file hides its `\r`, so a caller types LF. Only the needle is translated, never the
/// splice, and only on a file with no bare LF, where it cannot pick the wrong bytes.
pub fn needle(old: &[u8], before: &[u8], literal: bool) -> (r: (Vec<u8>, bool))
    ensures
        r.0@ == needle_of(old@, before@, literal),
        r.1 == in_crlf_form(old@, before@, literal),
{
    let crlf = has_bare_lf(old) && !literal && Endings::of(before) == Endings::Crlf;
    if crlf {
        (crlf_needle(old), true)
    } else {
        let mut out: Vec<u8> = Vec::new();
        crate::edit::bytes::append(&mut out, old);
        assert(out@ =~= old@);
        (out, false)
    }
}

/// `moved` is `one` with its line counted from the top of the file.
pub open spec fn is_shifted(moved: Candidate, one: Candidate, shift: int) -> bool {
    moved.line == one.line + shift && moved.path == one.path && moved.text == one.text
}

/// A match found inside a `:a-b` scope carries a line number relative to that slice.
pub fn shifted(candidate: Candidate, shift: usize) -> (r: Candidate)
    requires
        candidate.line + shift <= usize::MAX,
    ensures
        is_shifted(r, candidate, shift as int),
{
    Candidate { path: candidate.path, line: candidate.line + shift, text: candidate.text }
}

/// What could not be found, with the one hint that helps most.
pub open spec fn is_not_found_text(
    what: Seq<char>,
    before: Seq<u8>,
    scope: Span,
    old: Seq<u8>,
    normalized_hint: Option<Span>,
) -> bool {
    match normalized_hint {
        Some(hint) => what == "--old (a normalized match exists at line "@ + decimal_of(
            line_at(before, scope.start + hint.start),
        ) + " \u{2014} pass --normalize)"@,
        None => exists|hint: Option<Seq<char>>| #[trigger]
            is_indent_hint(before, scope, old, hint) && what == (match hint {
                Some(text) => "--old ("@ + text + ")"@,
                None => "--old"@,
            }),
    }
}

/// The refusal of a replacement whose needle is in no place, or in more than one.
pub open spec fn is_replace_error(
    error: Error,
    raw: Seq<char>,
    file: Seq<char>,
    before: Seq<u8>,
    scope: Span,
    old: Seq<u8>,
    literal: bool,
    found: Found,
) -> bool {
    let shift = newlines(before.take(scope.start as int)) as int;
    match found {
        Found::Ambiguous(candidates) => error matches Error::Ambiguous {
            target,
            candidates: moved,
        } && target@ == raw && moved@.len() == candidates@.len() && forall|i: int|
            0 <= i < moved@.len() ==> is_shifted(#[trigger] moved@[i], candidates@[i], shift),
        Found::NotFound { nearest, normalized_hint } => if holds_bare_lf(old) && !literal
            && endings_of(before) == Endings::Mixed {
            error matches Error::MixedEndings { path } && path@ == file
        } else {
            error matches Error::NotFound { target, what, nearest: near } && target@ == raw
                && is_not_found_text(what@, before, scope, old, normalized_hint) && match nearest {
                Some(one) => near matches Some(moved) && is_shifted(moved, one, shift),
                None => near is None,
            }
        },
        _ => false,
    }
}

/// The spans to replace, counted from the top of the file.
pub open spec fn moved_spans(located: Seq<Located>, by: usize) -> Seq<Span> {
    located.map_values(
        |one: Located|
            Span { start: (one.span.start + by) as usize, end: (one.span.end + by) as usize },
    )
}

/// What replacing `spans` by `replacement` leaves behind.
pub open spec fn is_replaced(
    applied: Applied,
    before: Seq<u8>,
    spans: Seq<Span>,
    replacement: Seq<u8>,
) -> bool {
    let size = replacement.len() as int;
    &&& applied.after@ == spliced(before, spans, replacement)
    &&& applied.edits@.len() == spans.len()
    &&& applied.changed@.len() == spans.len()
    &&& forall|k: int|
        0 <= k < spans.len() ==> #[trigger] applied.edits@[k] == (spans[k], replacement.len() as usize)
    &&& forall|k: int|
        0 <= k < spans.len() ==> {
            let (first, last) = #[trigger] applied.changed@[k];
            (first as nat, last as nat) == lines_covered(
                applied.after@,
                lands_at(spans, size, k),
                size,
            )
        }
    &&& applied.kind == EditKind::Replaced { count: spans.len() as usize }
    &&& applied.marker == Marker::Replaced
}

fn moved(located: &Vec<Located>, by: usize, Ghost(len): Ghost<nat>, Ghost(hay): Ghost<nat>) -> (r:
    (Vec<Span>, bool))
    requires
        are_apart(spans_in(located@), hay),
        by + hay <= len <= usize::MAX,
    ensures
        r.0@ == moved_spans(located@, by),
        are_apart(r.0@, len),
        r.1 == exists|i: int| 0 <= i < located@.len() && (#[trigger] located@[i]).normalized,
{
    let mut out: Vec<Span> = Vec::new();
    let mut normalized = false;
    let mut i: usize = 0;
    while i < located.len()
        invariant
            i <= located@.len(),
            are_apart(spans_in(located@), hay),
            by + hay <= len <= usize::MAX,
            out@ == moved_spans(located@, by).take(i as int),
            normalized == exists|j: int|
                0 <= j < i && (#[trigger] located@[j]).normalized,
        decreases located@.len() - i,
    {
        let one = located[i];
        assert(spans_in(located@)[i as int] == one.span);
        assert(spans_in(located@)[i as int].within(hay));
        out.push(Span { start: one.span.start + by, end: one.span.end + by });
        assert(out@ =~= moved_spans(located@, by).take(i + 1));
        if one.normalized {
            assert(located@[i as int].normalized);
            normalized = true;
        }
        i = i + 1;
    }
    assert(out@ =~= moved_spans(located@, by));
    proof {
        let spans = spans_in(located@);
        assert forall|k: int| 0 <= k < out@.len() implies (#[trigger] out@[k]).within(len) by {
            assert(spans[k].within(hay));
        }
        assert forall|a: int, b: int| 0 <= a < b < out@.len() implies #[trigger] out@[a].end
            <= #[trigger] out@[b].start by {
            assert(spans[a].within(hay) && spans[b].within(hay));
            assert(spans[a].end <= spans[b].start);
        }
    }
    (out, normalized)
}

proof fn lemma_removed_mono(spans: Seq<Span>, len: nat, n: int)
    requires
        are_apart(spans, len),
        0 <= n < spans.len(),
    ensures
        0 <= removed(spans, n) <= spans[n].start,
    decreases n,
{
    assert(spans[n].within(len));
    if n > 0 {
        lemma_removed_mono(spans, len, n - 1);
        assert(spans[n - 1].within(len));
        assert(spans[n - 1].end <= spans[n].start);
    }
}

/// The lines that each replacement covers once all of them are in.
fn changed_lines(after: &Vec<u8>, before: &[u8], spans: &Vec<Span>, replacement: &Vec<u8>) -> (r:
    Vec<(usize, usize)>)
    requires
        are_apart(spans@, before@.len()),
        after@ == spliced(before@, spans@, replacement@),
        after@.len() < usize::MAX,
    ensures
        r@.len() == spans@.len(),
        forall|k: int|
            0 <= k < spans@.len() ==> {
                let (first, last) = #[trigger] r@[k];
                (first as nat, last as nat) == lines_covered(
                    after@,
                    lands_at(spans@, replacement@.len() as int, k),
                    replacement@.len() as int,
                )
            },
{
    let mut changed: Vec<(usize, usize)> = Vec::new();
    let size = replacement.len();
    let total = after.len();
    let mut lost: usize = 0;
    let mut i: usize = 0;
    proof {
        law_a_splice_keeps_every_other_byte(before@, spans@, replacement@);
    }
    while i < spans.len()
        invariant
            i <= spans@.len(),
            size == replacement@.len(),
            total == after@.len(),
            are_apart(spans@, before@.len()),
            after@.len() < usize::MAX,
            changed@.len() == i,
            lost == removed(spans@, i as int),
            lost <= before@.len(),
            forall|k: int|
                0 <= k < spans@.len() ==> {
                    let at = #[trigger] lands_at(spans@, size as int, k);
                    0 <= at <= at + size <= after@.len()
                },
            forall|k: int|
                0 <= k < i ==> {
                    let (first, last) = #[trigger] changed@[k];
                    (first as nat, last as nat) == lines_covered(
                        after@,
                        lands_at(spans@, size as int, k),
                        size as int,
                    )
                },
        decreases spans@.len() - i,
    {
        proof {
            lemma_removed_mono(spans@, before@.len(), i as int);
            assert(spans@[i as int].within(before@.len()));
            let at = lands_at(spans@, size as int, i as int);
            assert(0 <= at <= after@.len());
            assert(at == spans@[i as int].start + i * size - removed(spans@, i as int));
            assert(0 <= i * size <= total) by (nonlinear_arith)
                requires
                    i * size <= total,
                    i >= 0,
                    size >= 0,
            ;
        }
        // Spans are disjoint and ascending, so earlier splices shift this start by their growth.
        let start = (spans[i].start - lost) + i * size;
        changed.push(span_lines(after.as_slice(), start, size));
        lost = lost + (spans[i].end - spans[i].start);
        i = i + 1;
    }
    changed
}

/// Replaces what was found, or says why nothing was.
pub fn replace(
    raw: &str,
    file: &str,
    before: &[u8],
    scope: Span,
    span_guessed: bool,
    old: &[u8],
    new: &[u8],
    literal: bool,
    found: Found,
    fold: &Fold,
) -> (r: Result<Applied, Error>)
    requires
        scope.within(before@.len()),
        found.within(before@.subrange(scope.start as int, scope.end as int)),
        before@.len() < usize::MAX,
        spliced(
            before@,
            moved_spans(found.located(), scope.start),
            replacement_of(new@, before@, literal),
        ).len() < usize::MAX,
    ensures
        match r {
            Ok(applied) => {
                let located = found.located();
                let spans = moved_spans(located, scope.start);
                let crlf = in_crlf_form(old@, before@, literal);
                &&& found is Unique || found is All
                &&& is_replaced(applied, before@, spans, replacement_of(new@, before@, literal))
                &&& applied.normalized == exists|i: int|
                    0 <= i < located.len() && (#[trigger] located[i]).normalized
                &&& applied.crlf == crlf
                &&& applied.span_guessed == span_guessed
                &&& applied.match_kind@ == match_text(
                    applied.normalized,
                    before@.subrange(spans[0].start as int, spans[0].end as int),
                    needle_of(old@, before@, literal),
                    *fold,
                )
            },
            Err(e) => is_replace_error(e, raw@, file@, before@, scope, old@, literal, found),
        },
{
    let ghost hay = before@.subrange(scope.start as int, scope.end as int);
    proof {
        lemma_newlines_concat(before@.take(scope.start as int), hay);
        assert(before@.take(scope.start as int) + hay =~= before@.take(scope.end as int));
        lemma_newlines_bound(before@.take(scope.end as int));
    }
    let shift = line_of(before, scope.start) - 1;
    let (typed, crlf) = needle(old, before, literal);
    let located: Vec<Located> = match found {
        Found::Unique(one) => {
            let mut list: Vec<Located> = Vec::new();
            list.push(one);
            assert(list@ =~= seq![one]);
            assert(are_apart(spans_in(list@), hay.len()));
            list
        },
        Found::All(located) => located,
        Found::Ambiguous(candidates) => {
            return Err(
                Error::Ambiguous {
                    target: raw.to_owned(),
                    candidates: all_shifted(candidates, shift),
                },
            );
        },
        Found::NotFound { nearest, normalized_hint } => {
            if has_bare_lf(old) && !literal && Endings::of(before) == Endings::Mixed {
                return Err(Error::MixedEndings { path: file.to_owned() });
            }
            // A normalized match already names the fix; an indent hint would be a weaker second
            // one.
            let what = match normalized_hint {
                Some(hint) => {
                    "--old (a normalized match exists at line ".to_owned().concat(
                        decimal(line_of(before, scope.start + hint.start)).as_str(),
                    ).concat(" \u{2014} pass --normalize)")
                },
                None => match indent_hint(before, scope, old) {
                    Some(hint) => {
                        assert(is_indent_hint(before@, scope, old@, Some(hint@)));
                        "--old (".to_owned().concat(hint.as_str()).concat(")")
                    },
                    None => {
                        assert(is_indent_hint(before@, scope, old@, None));
                        "--old".to_owned()
                    },
                },
            };
            let near = match nearest {
                Some(near) => Some(shifted(near, shift)),
                None => None,
            };
            return Err(Error::NotFound { target: raw.to_owned(), what, nearest: near });
        },
    };
    assert(located@ == found.located());
    let (spans, normalized) = moved(
        &located,
        scope.start,
        Ghost(before@.len()),
        Ghost(hay.len()),
    );
    let replacement = joined(new, before, literal);
    let after = splice_all(before, spans.as_slice(), replacement.as_slice());
    let changed = changed_lines(&after, before, &spans, &replacement);
    let mut edits: Vec<(Span, usize)> = Vec::new();
    let size = replacement.len();
    let count = spans.len();
    let mut i: usize = 0;
    while i < spans.len()
        invariant
            i <= spans@.len(),
            edits@.len() == i,
            forall|k: int| 0 <= k < i ==> #[trigger] edits@[k] == (spans@[k], size),
        decreases spans@.len() - i,
    {
        edits.push((spans[i], size));
        i = i + 1;
    }
    assert(spans@[0].within(before@.len()));
    let matched = match_kind(
        normalized,
        slice_subrange(before, spans[0].start, spans[0].end),
        typed.as_slice(),
        fold,
    );
    Ok(
        Applied {
            after,
            edits,
            kind: EditKind::Replaced { count },
            match_kind: matched,
            changed,
            marker: Marker::Replaced,
            normalized,
            crlf,
            span_guessed,
        },
    )
}

fn all_shifted(candidates: Vec<Candidate>, shift: usize) -> (r: Vec<Candidate>)
    requires
        forall|i: int|
            0 <= i < candidates@.len() ==> (#[trigger] candidates@[i]).line + shift <= usize::MAX,
    ensures
        r@.len() == candidates@.len(),
        forall|i: int|
            0 <= i < r@.len() ==> is_shifted(#[trigger] r@[i], candidates@[i], shift as int),
{
    let ghost all = candidates@;
    let mut rest = candidates;
    let mut out: Vec<Candidate> = Vec::new();
    let count = rest.len();
    let mut i: usize = 0;
    while i < count
        invariant
            i <= count == all.len(),
            rest@ == all.skip(i as int),
            out@.len() == i,
            forall|i: int|
                0 <= i < all.len() ==> (#[trigger] all[i]).line + shift <= usize::MAX,
            forall|j: int| 0 <= j < i ==> is_shifted(#[trigger] out@[j], all[j], shift as int),
        decreases count - i,
    {
        let one = rest.remove(0);
        assert(one == all[i as int]);
        out.push(shifted(one, shift));
        i = i + 1;
        assert(rest@ =~= all.skip(i as int));
    }
    out
}

/// A folding search takes a character for what the first pair that names it says, and one that no
/// pair names for itself.
pub proof fn law_a_character_folds_to_its_pair(pairs: Seq<(char, char)>, c: char)
    ensures
        (forall|i: int| 0 <= i < pairs.len() ==> (#[trigger] pairs[i]).0 != c) ==> folded(pairs, c)
            == c,
        forall|i: int|
            0 <= i < pairs.len() && (#[trigger] pairs[i]).0 == c && (forall|j: int|
                0 <= j < i ==> (#[trigger] pairs[j]).0 != c) ==> folded(pairs, c) == pairs[i].1,
    decreases pairs.len(),
{
    if pairs.len() > 0 && pairs[0].0 != c {
        let rest = pairs.drop_first();
        law_a_character_folds_to_its_pair(rest, c);
        assert forall|i: int|
            0 <= i < pairs.len() && (#[trigger] pairs[i]).0 == c && (forall|j: int|
                0 <= j < i ==> (#[trigger] pairs[j]).0 != c) implies folded(pairs, c)
            == pairs[i].1 by {
            assert(rest[i - 1] == pairs[i]);
            assert forall|j: int| 0 <= j < i - 1 implies (#[trigger] rest[j]).0 != c by {
                assert(rest[j] == pairs[j + 1]);
            }
        }
        if forall|i: int| 0 <= i < pairs.len() ==> (#[trigger] pairs[i]).0 != c {
            assert forall|i: int| 0 <= i < rest.len() implies (#[trigger] rest[i]).0 != c by {
                assert(rest[i] == pairs[i + 1]);
            }
        }
    }
}

/// What a folded match is told by is the first character in which the file differs from what was
/// typed.
pub proof fn law_the_first_difference_is_the_first(had: Seq<char>, typed: Seq<char>)
    ensures
        match first_difference(had, typed) {
            None => had.is_prefix_of(typed) || typed.is_prefix_of(had),
            Some(c) => exists|i: int|
                0 <= i < had.len() && i < typed.len() && #[trigger] had[i] == c && typed[i] != c
                    && had.take(i) == typed.take(i),
        },
    decreases had.len(),
{
    if had.len() > 0 && typed.len() > 0 {
        if had[0] != typed[0] {
            assert(had.take(0) =~= typed.take(0));
        } else {
            let (h, t) = (had.drop_first(), typed.drop_first());
            law_the_first_difference_is_the_first(h, t);
            match first_difference(h, t) {
                None => {
                    if h.is_prefix_of(t) {
                        assert(typed.subrange(0, had.len() as int) =~= seq![typed[0]] + t.subrange(
                            0,
                            h.len() as int,
                        ));
                        assert(had =~= seq![had[0]] + h);
                    } else {
                        assert(had.subrange(0, typed.len() as int) =~= seq![had[0]] + h.subrange(
                            0,
                            t.len() as int,
                        ));
                        assert(typed =~= seq![typed[0]] + t);
                    }
                },
                Some(c) => {
                    let i = choose|i: int|
                        0 <= i < h.len() && i < t.len() && #[trigger] h[i] == c && t[i] != c
                            && h.take(i) == t.take(i);
                    assert(had[i + 1] == h[i] && typed[i + 1] == t[i]);
                    assert(had.take(i + 1) =~= seq![had[0]] + h.take(i));
                    assert(typed.take(i + 1) =~= seq![typed[0]] + t.take(i));
                },
            }
        }
    } else if had.len() == 0 {
        assert(typed.subrange(0, 0) =~= had);
    } else {
        assert(had.subrange(0, 0) =~= typed);
    }
}

/// Where the needle stands more than once, every place is named by its line in the whole file.
pub proof fn law_each_candidate_is_named_by_its_line_in_the_file(
    error: Error,
    raw: Seq<char>,
    file: Seq<char>,
    before: Seq<u8>,
    scope: Span,
    old: Seq<u8>,
    literal: bool,
    found: Found,
)
    requires
        is_replace_error(error, raw, file, before, scope, old, literal, found),
        found is Ambiguous,
    ensures
        error matches Error::Ambiguous { target, candidates } && target@ == raw
            && candidates@.len() == found->Ambiguous_0@.len() && forall|i: int|
            0 <= i < candidates@.len() ==> (#[trigger] candidates@[i]).line
                == found->Ambiguous_0@[i].line + line_at(before, scope.start as int) - 1
                && candidates@[i].text == found->Ambiguous_0@[i].text,
{
    if let Error::Ambiguous { target, candidates } = error {
        let shift = newlines(before.take(scope.start as int)) as int;
        assert forall|i: int| 0 <= i < candidates@.len() implies (#[trigger] candidates@[i]).line
            == found->Ambiguous_0@[i].line + line_at(before, scope.start as int) - 1
            && candidates@[i].text == found->Ambiguous_0@[i].text by {
            assert(is_shifted(candidates@[i], found->Ambiguous_0@[i], shift));
        }
    }
}

/// A match is told as exact where it was, and else by the first character in which the file differs
/// from what was typed and what that was taken for.
pub proof fn law_a_match_is_told_as_what_it_was(
    matched: Seq<char>,
    typed: Seq<char>,
    fold: Fold,
    c: char,
)
    ensures
        match_text(false, encode_utf8(matched), encode_utf8(typed), fold) == "exact"@,
        first_difference(matched, typed) == Some(c) ==> match_text(
            true,
            encode_utf8(matched),
            encode_utf8(typed),
            fold,
        ) == "normalized ("@.push(c) + " \u{2192} "@.push(folded(fold.pairs@, c)) + ")"@,
        first_difference(matched, typed) is None ==> match_text(
            true,
            encode_utf8(matched),
            encode_utf8(typed),
            fold,
        ) == "normalized"@,
{
    encode_utf8_valid_utf8(matched);
    encode_utf8_valid_utf8(typed);
    encode_utf8_decode_utf8(matched);
    encode_utf8_decode_utf8(typed);
}

} // verus!
