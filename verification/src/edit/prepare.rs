//! One edit, from the bytes it starts from to those it leaves.
use vstd::prelude::*;

use crate::edit::apply::{
    edit_failure, edit_notes, fold, goes_on, has_failed, is_binary, is_tried, one, refuse_binary, shows_tried,
    Checked, Plan,
};
use crate::edit::bytes::{
    crlf_of, ending_of, has_crlf, holds_bare_lf, law_a_crlf_needle_has_no_bare_lf, line_at,
    replacement_of, Span,
};
use crate::edit::insert::{
    anchor_line, anchors, has_bom, insert, is_anchor, is_inserted,
    law_an_insert_lands_outside_the_lines_of_its_anchor, unterminated,
};
use crate::edit::lines::{
    are_starts, law_a_line_ends_at_its_newline, law_a_span_holds_the_bytes_of_its_lines,
    law_the_lines_are_the_file, lemma_starts_of, line_says, line_starts, lossy, span_of, starts_of,
};
use crate::edit::range::{
    held_text, is_range_error, is_replaced_lines, lines_named, lines_replacement, replace_range,
};
use crate::edit::replace::{
    in_crlf_form, is_replace_error, is_replaced, match_text, moved_spans, needle, needle_of,
    replace, Fold, Found,
};
use crate::edit::scope::{is_scope, scope_span};
use crate::edit::spec::{Applied, EditOp, EditSpec, Kind, Lookup};
use crate::edit::splice::{law_one_span_is_a_list_of_one, spliced};
use crate::error::{is_not_found, not_found, CheckLayer, Error, UnsupportedReason};
use crate::output::{told_all, Anchor, AnchorSide, EditKind, EditResult, Omission, Sha12};
use crate::text::{chomped, decimal_of, trimmed};

verus! {

/// What one edit comes to before anything is searched for.
#[derive(Debug)]
pub enum Prepared {
    /// The text to replace has to be found: `needle` within `scope`.
    Search { scope: Span, guessed: bool, needle: Vec<u8> },
    Done(Applied),
}

/// The failure that is answered: nothing can be found in a file that is empty on disk.
pub open spec fn is_answered(
    inner: Error,
    path: Seq<char>,
    carried: bool,
    before: Seq<u8>,
    error: Error,
) -> bool {
    if inner is NotFound && !carried && before.len() == 0 {
        error matches Error::EmptyFile { path: p } && p@ == path
    } else {
        error == inner
    }
}

/// The file is refused for what it holds.
pub open spec fn is_refused_binary(error: Error, path: Seq<char>) -> bool {
    error matches Error::Unsupported { path: p, reason: UnsupportedReason::Binary } && p@ == path
}

/// The lines that the edit names are replaced.
pub open spec fn is_range_done(
    applied: Applied,
    spec: EditSpec,
    kind: Kind,
    before: Seq<u8>,
) -> bool {
    &&& spec.op matches EditOp::ReplaceRange { expect, expect_all, new } && {
        let (first, last) = lines_named(kind)->0;
        let (start, end) = span_of(before, starts_of(before), first as int, last as int);
        let span = Span { start: start as usize, end: end as usize };
        &&& span.within(before.len())
        &&& is_replaced_lines(
            applied,
            before,
            span,
            lines_replacement(new@, before, spec.literal_newlines, end),
        )
        &&& applied.match_kind@ == held_text(
            expect is Some,
            expect_all is Some,
            spec.if_sha is Some,
        )
    }
}

/// What stands between `expect` and the edit, if anything.
pub open spec fn is_range_said(
    error: Option<Error>,
    spec: EditSpec,
    file: Seq<char>,
    kind: Kind,
    before: Seq<u8>,
) -> bool {
    spec.op matches EditOp::ReplaceRange { expect, expect_all, new } && exists|
        one: Option<&str>,
        all: Option<&str>,
    | #[trigger]
        stand_for(one, all, expect, expect_all) && is_range_error(
            error,
            spec.raw@,
            file,
            kind,
            spec.if_sha is Some,
            before,
            starts_of(before),
            one,
            all,
        )
}

/// The borrowed texts are those of the edit.
pub open spec fn stand_for(
    one: Option<&str>,
    all: Option<&str>,
    expect: Option<String>,
    expect_all: Option<String>,
) -> bool {
    &&& one is Some == expect is Some
    &&& one is Some ==> one->0@ == expect->0@
    &&& all is Some == expect_all is Some
    &&& all is Some ==> all->0@ == expect_all->0@
}

/// The insert lands at the line that its anchor names.
pub open spec fn is_insert_done(
    applied: Applied,
    spec: EditSpec,
    file: Seq<char>,
    kind: Kind,
    before: Seq<u8>,
    lookup: Lookup,
    line: usize,
    anchor: Anchor,
) -> bool {
    spec.op matches EditOp::Insert { side, anchor: typed, new } && is_anchor(
        spec.raw@,
        file,
        typed@,
        kind,
        before,
        side,
        new@,
        lookup,
        Ok((line, anchor)),
    ) && (side == AnchorSide::After || line <= starts_of(before).len()) && is_inserted(
        applied,
        before,
        starts_of(before),
        side,
        line as int,
        replacement_of(unterminated(new@), before, spec.literal_newlines),
        anchor,
    )
}

/// The insert has nowhere to land.
pub open spec fn is_insert_error(
    error: Error,
    spec: EditSpec,
    file: Seq<char>,
    kind: Kind,
    before: Seq<u8>,
    lookup: Lookup,
) -> bool {
    spec.op matches EditOp::Insert { side, anchor: typed, new } && (is_anchor(
        spec.raw@,
        file,
        typed@,
        kind,
        before,
        side,
        new@,
        lookup,
        Err(error),
    ) || exists|line: usize, anchor: Anchor| #[trigger]
        is_anchor(
            spec.raw@,
            file,
            typed@,
            kind,
            before,
            side,
            new@,
            lookup,
            Ok((line, anchor)),
        ) && side == AnchorSide::Before && line > starts_of(before).len() && is_not_found(
            error,
            spec.raw@,
            ":"@ + decimal_of(line as nat),
        ))
}

/// The failure of an edit by its operation.
pub open spec fn is_op_error(
    error: Error,
    spec: EditSpec,
    file: Seq<char>,
    kind: Kind,
    before: Seq<u8>,
    lookup: Lookup,
) -> bool {
    match spec.op {
        EditOp::Replace { .. } => is_scope(
            spec.raw@,
            file,
            kind,
            before,
            starts_of(before),
            lookup,
            Err(error),
        ),
        EditOp::ReplaceRange { .. } => is_range_said(Some(error), spec, file, kind, before),
        EditOp::Insert { .. } => is_insert_error(error, spec, file, kind, before, lookup),
    }
}

/// What an edit comes to before anything is searched for.
pub open spec fn is_prepared(
    r: Result<Prepared, Error>,
    spec: EditSpec,
    path: Seq<char>,
    file: Seq<char>,
    kind: Kind,
    before: Seq<u8>,
    carried: bool,
    lookup: Lookup,
) -> bool {
    if is_binary(before) {
        r matches Err(error) && is_refused_binary(error, path)
    } else {
        match r {
            Err(error) => exists|inner: Error| #[trigger]
                is_answered(inner, path, carried, before, error) && is_op_error(
                    inner,
                    spec,
                    file,
                    kind,
                    before,
                    lookup,
                ),
            Ok(Prepared::Search { scope, guessed, needle }) => spec.op matches EditOp::Replace {
                old,
                ..
            } && scope.within(before.len()) && is_scope(
                spec.raw@,
                file,
                kind,
                before,
                starts_of(before),
                lookup,
                Ok((scope, guessed)),
            ) && needle@ == needle_of(old@, before, spec.literal_newlines),
            Ok(Prepared::Done(applied)) => {
                ||| is_range_said(None, spec, file, kind, before) && is_range_done(
                    applied,
                    spec,
                    kind,
                    before,
                )
                ||| exists|line: usize, anchor: Anchor| #[trigger]
                    is_insert_done(applied, spec, file, kind, before, lookup, line, anchor)
            },
        }
    }
}

/// The bytes after the edit can be counted.
pub open spec fn can_hold(spec: EditSpec, before: Seq<u8>) -> bool {
    &&& before.len() < usize::MAX
    &&& match spec.op {
        EditOp::Replace { .. } => true,
        EditOp::ReplaceRange { new, .. } => before.len() + replacement_of(
            new@,
            before,
            spec.literal_newlines,
        ).len() + 2 < usize::MAX,
        EditOp::Insert { new, .. } => before.len() + replacement_of(
            unterminated(new@),
            before,
            spec.literal_newlines,
        ).len() + 2 < usize::MAX,
    }
}

fn borrowed(s: &Option<String>) -> (r: Option<&str>)
    ensures
        r is Some == s is Some,
        r is Some ==> r->0@ == s->0@,
{
    match s {
        Some(s) => Some(s.as_str()),
        None => None,
    }
}

/// The edit on the bytes `before`: carried out where nothing has to be searched for, else what to
/// search for. `carried` says that an earlier edit left those bytes; `file` is the file part of
/// the target, `kind` what follows it (for an insert, what its anchor names), and `lookup` what
/// looking that up in the bytes came to.
pub fn prepare(
    spec: &EditSpec,
    path: &str,
    file: &str,
    kind: &Kind,
    before: &Vec<u8>,
    carried: bool,
    lookup: &Lookup,
) -> (r: Result<Prepared, Error>)
    requires
        kind.in_order(),
        lookup.within(before@.len()),
        can_hold(*spec, before@),
    ensures
        is_prepared(r, *spec, path@, file@, *kind, before@, carried, *lookup),
{
    if let Some(error) = refuse_binary(path, before.as_slice()) {
        return Err(error);
    }
    let starts = line_starts(before.as_slice());
    proof {
        lemma_starts_of(before@, starts@);
    }
    let raw = spec.raw.as_str();
    let literal = spec.literal_newlines;
    match &spec.op {
        EditOp::Replace { old, .. } => match scope_span(
            raw,
            file,
            kind,
            before.as_slice(),
            starts.as_slice(),
            lookup,
        ) {
            Ok((scope, guessed)) => {
                let (needle, _) = needle(old.as_slice(), before.as_slice(), literal);
                Ok(Prepared::Search { scope, guessed, needle })
            },
            Err(inner) => {
                let error = edit_failure(inner, path, carried, before.as_slice());
                assert(is_answered(inner, path@, carried, before@, error));
                Err(error)
            },
        },
        EditOp::ReplaceRange { expect, expect_all, new } => {
            let first = borrowed(expect);
            let all = borrowed(expect_all);
            assert(stand_for(first, all, *expect, *expect_all));
            match replace_range(
                raw,
                file,
                kind,
                spec.if_sha.is_some(),
                literal,
                before.as_slice(),
                starts.as_slice(),
                first,
                all,
                new.as_slice(),
            ) {
                Ok(applied) => Ok(Prepared::Done(applied)),
                Err(inner) => {
                    let error = edit_failure(inner, path, carried, before.as_slice());
                    assert(is_answered(inner, path@, carried, before@, error));
                    Err(error)
                },
            }
        },
        EditOp::Insert { side, anchor, new } => match anchor_line(
            raw,
            file,
            anchor.as_str(),
            kind,
            before.as_slice(),
            *side,
            new.as_slice(),
            lookup,
        ) {
            Ok((line, at)) => {
                let ghost there = at;
                match insert(
                    raw,
                    literal,
                    before.as_slice(),
                    starts.as_slice(),
                    *side,
                    line,
                    at,
                    new.as_slice(),
                ) {
                    Ok(applied) => {
                        assert(is_insert_done(
                            applied,
                            *spec,
                            file@,
                            *kind,
                            before@,
                            *lookup,
                            line,
                            there,
                        ));
                        Ok(Prepared::Done(applied))
                    },
                    Err(inner) => {
                        let error = edit_failure(inner, path, carried, before.as_slice());
                        assert(is_answered(inner, path@, carried, before@, error));
                        Err(error)
                    },
                }
            },
            Err(inner) => {
                let error = edit_failure(inner, path, carried, before.as_slice());
                assert(is_answered(inner, path@, carried, before@, error));
                Err(error)
            },
        },
    }
}

/// What a search that was asked for leaves of the edit.
pub open spec fn is_concluded(
    r: Result<Applied, Error>,
    spec: EditSpec,
    path: Seq<char>,
    before: Seq<u8>,
    carried: bool,
    scope: Span,
    guessed: bool,
    found: Found,
    folding: Fold,
) -> bool {
    spec.op matches EditOp::Replace { old, new, .. } && match r {
        Ok(applied) => {
            let located = found.located();
            let spans = moved_spans(located, scope.start);
            &&& found is Unique || found is All
            &&& is_replaced(
                applied,
                before,
                spans,
                replacement_of(new@, before, spec.literal_newlines),
            )
            &&& applied.normalized == exists|i: int|
                0 <= i < located.len() && (#[trigger] located[i]).normalized
            &&& applied.crlf == in_crlf_form(old@, before, spec.literal_newlines)
            &&& applied.span_guessed == guessed
            &&& applied.match_kind@ == match_text(
                applied.normalized,
                before.subrange(spans[0].start as int, spans[0].end as int),
                needle_of(old@, before, spec.literal_newlines),
                folding,
            )
        },
        Err(error) => exists|inner: Error| #[trigger]
            is_answered(inner, path, carried, before, error) && is_replace_error(
                inner,
                spec.raw@,
                path,
                before,
                scope,
                old@,
                spec.literal_newlines,
                found,
            ),
    }
}

/// The edit, once the search for its needle came to `found`.
pub fn conclude(
    spec: &EditSpec,
    path: &str,
    before: &Vec<u8>,
    carried: bool,
    scope: Span,
    guessed: bool,
    found: Found,
    folding: &Fold,
) -> (r: Result<Applied, Error>)
    requires
        spec.op is Replace,
        scope.within(before@.len()),
        found.within(before@.subrange(scope.start as int, scope.end as int)),
        before@.len() < usize::MAX,
        spec.op matches EditOp::Replace { new, .. } ==> spliced(
            before@,
            moved_spans(found.located(), scope.start),
            replacement_of(new@, before@, spec.literal_newlines),
        ).len() < usize::MAX,
    ensures
        is_concluded(r, *spec, path@, before@, carried, scope, guessed, found, *folding),
{
    match &spec.op {
        EditOp::Replace { old, new, .. } => match replace(
            spec.raw.as_str(),
            path,
            before.as_slice(),
            scope,
            guessed,
            old.as_slice(),
            new.as_slice(),
            spec.literal_newlines,
            found,
            folding,
        ) {
            Ok(applied) => Ok(applied),
            Err(inner) => {
                let error = edit_failure(inner, path, carried, before.as_slice());
                assert(is_answered(inner, path@, carried, before@, error));
                Err(error)
            },
        },
        _ => Err(not_found(spec.raw.as_str(), "an edit".to_owned())),
    }
}

/// What one more edit leaves of a file's plan.
pub open spec fn is_folded(
    plan: Plan,
    folded: Option<Plan>,
    path: Seq<char>,
    before: Vec<u8>,
    applied: Applied,
    result: EditResult,
) -> bool {
    &&& plan.after@ == applied.after@
    &&& match folded {
        Some(had) => plan.path == had.path && plan.before == had.before && plan.detail@
            == had.detail@.push(result),
        None => plan.path@ == path && plan.before == before && plan.detail@ == seq![result],
    }
}

/// The notes after those of the edit itself, which its region adds.
pub open spec fn noted_after(
    before: Seq<Omission>,
    after: Seq<Omission>,
    path: Seq<char>,
    applied: Applied,
    checked: Checked,
) -> Seq<Omission> {
    after.skip(before.len() + edit_notes(path, applied, checked).len() as int)
}

/// What one more edit of a file comes to: the plan grows by it, unless it broke the file.
pub open spec fn is_stepped(
    r: Result<Plan, Error>,
    folded: Option<Plan>,
    path: Seq<char>,
    before: Vec<u8>,
    applied: Applied,
    checked: Checked,
    before_sha: Seq<char>,
    after_sha: Seq<char>,
    noted: Seq<Omission>,
) -> bool {
    match r {
        Ok(plan) => {
            &&& !has_failed(checked)
            &&& plan.is_chained()
            &&& is_tried(plan.detail@.last(), path, applied, checked, before_sha, after_sha)
            &&& is_folded(plan, folded, path, before, applied, plan.detail@.last())
            &&& shows_tried(plan.detail@.last().region, noted, applied, checked)
        },
        Err(error) => {
            &&& has_failed(checked)
            &&& error matches Error::CheckFailed { path: p, layer, detail } && p@ == path && detail@
                == checked->Parsed_0.status@ && layer == (if checked->Parsed_0.label@
                == "structure"@ {
                CheckLayer::Structure
            } else {
                CheckLayer::Structured
            })
        },
    }
}

/// The edit that broke the file is kept for the answer, and nothing else is.
pub open spec fn is_stashed(
    r: Result<Plan, Error>,
    had: Option<EditResult>,
    stash: Option<EditResult>,
    path: Seq<char>,
    applied: Applied,
    checked: Checked,
    before_sha: Seq<char>,
    after_sha: Seq<char>,
    noted: Seq<Omission>,
) -> bool {
    match r {
        Ok(_) => stash == had,
        Err(_) => stash matches Some(result) && is_tried(
            result,
            path,
            applied,
            checked,
            before_sha,
            after_sha,
        ) && shows_tried(result.region, noted, applied, checked),
    }
}

/// The notes that an edit adds before those of its region.
pub open spec fn are_edit_notes(
    had: Seq<Omission>,
    omitted: Seq<Omission>,
    path: Seq<char>,
    applied: Applied,
    checked: Checked,
) -> bool {
    let n = had.len() + edit_notes(path, applied, checked).len();
    &&& omitted.len() >= n
    &&& told_all(omitted.take(n as int)) == told_all(had) + edit_notes(path, applied, checked)
}

/// The lines that an edit changed can be counted on from.
pub open spec fn are_changed(applied: Applied) -> bool {
    forall|k: int|
        0 <= k < applied.changed@.len() ==> 1 <= (#[trigger] applied.changed@[k]).0
            <= applied.changed@[k].1 < usize::MAX - 1
}

/// One more edit of a file, on the bytes that the one before it left: the plan grows by it, unless
/// it broke the file, in which case it is kept as `stash` and the batch fails.
pub fn step(
    folded: Option<Plan>,
    path: &str,
    before: Vec<u8>,
    applied: Applied,
    checked: &Checked,
    before_sha: Sha12,
    after_sha: Sha12,
    omitted: &mut Vec<Omission>,
    stash: &mut Option<EditResult>,
) -> (r: Result<Plan, Error>)
    requires
        are_changed(applied),
        folded matches Some(plan) ==> plan.goes_on_from(before@, before_sha.hex@),
    ensures
        are_edit_notes(old(omitted)@, final(omitted)@, path@, applied, *checked),
        is_stepped(
            r,
            folded,
            path@,
            before,
            applied,
            *checked,
            before_sha.hex@,
            after_sha.hex@,
            noted_after(old(omitted)@, final(omitted)@, path@, applied, *checked),
        ),
        is_stashed(
            r,
            *old(stash),
            *final(stash),
            path@,
            applied,
            *checked,
            before_sha.hex@,
            after_sha.hex@,
            noted_after(old(omitted)@, final(omitted)@, path@, applied, *checked),
        ),
{
    let after = applied.after.clone();
    assert(after@ =~= applied.after@);
    let (result, failure) = one(path, applied, checked, before_sha, after_sha, omitted);
    match failure {
        Some(error) => {
            *stash = Some(result);
            Err(error)
        },
        None => {
            let plan = fold(folded, path, before, after, result);
            assert(plan.is_chained()) by {
                if let Some(had) = folded {
                    assert forall|k: int| 0 < k < plan.detail@.len() implies #[trigger] goes_on(
                        plan.detail@,
                        k,
                    ) by {
                        if k < had.detail@.len() {
                            assert(goes_on(had.detail@, k));
                        }
                    }
                }
            }
            Ok(plan)
        },
    }
}

/// A file's plan, once all of its edits are tried: there is one where there was an edit.
pub fn planned(folded: Option<Plan>, path: &str) -> (r: Result<Plan, Error>)
    ensures
        match folded {
            Some(plan) => r == Ok::<Plan, Error>(plan),
            None => r matches Err(error) && is_not_found(error, path@, "an edit"@),
        },
{
    match folded {
        Some(plan) => Ok(plan),
        None => Err(not_found(path, "an edit".to_owned())),
    }
}

/// The target names the lines `first..=last` of the file.
pub open spec fn names_lines(kind: Kind, lookup: Lookup, first: int, last: int) -> bool {
    match kind {
        Kind::Line(line) => first == line && last == line,
        Kind::Range(from, to) => first == from && last == to,
        Kind::Regex { .. } => lookup matches Lookup::Line(line) && first == line && last == line,
        _ => false,
    }
}

/// The text to replace is searched for in what the target names and nowhere else: in the whole file,
/// in exactly the bytes of its lines, or in the bytes of the one definition of its symbol.
pub proof fn law_only_what_the_target_names_is_searched(
    scope: Span,
    guessed: bool,
    needle: Vec<u8>,
    spec: EditSpec,
    path: Seq<char>,
    file: Seq<char>,
    kind: Kind,
    before: Seq<u8>,
    starts: Seq<usize>,
    carried: bool,
    lookup: Lookup,
    first: int,
    last: int,
)
    requires
        is_prepared(
            Ok((Prepared::Search { scope, guessed, needle })),
            spec,
            path,
            file,
            kind,
            before,
            carried,
            lookup,
        ),
        are_starts(before, starts),
        before.len() < usize::MAX,
        kind.in_order(),
        names_lines(kind, lookup, first, last) || !(kind is Line || kind is Range || kind is Regex),
    ensures
        spec.op is Replace,
        scope.within(before.len()),
        kind is Whole ==> scope.start == 0 && scope.end == before.len() && !guessed,
        kind is Line || kind is Range || kind is Regex ==> {
            &&& 1 <= first <= last <= starts.len()
            &&& !guessed
            &&& forall|i: int|
                0 <= i < before.len() ==> (scope.start <= i < scope.end <==> first
                    <= #[trigger] line_at(before, i) <= last)
        },
        kind is Symbol ==> (lookup matches Lookup::Symbols { found, .. } && found@.len() == 1
            && scope.start == found@[0].start && scope.end == found@[0].end && guessed
            == found@[0].end_guessed),
{
    lemma_starts_of(before, starts);
    if kind is Line || kind is Range || kind is Regex {
        law_a_span_holds_the_bytes_of_its_lines(before, starts, first, last);
    }
}

/// What is searched for is what was typed; only where every line of the file ends in `\r\n` is each
/// of its bare newlines taken for one of those.
pub proof fn law_the_needle_is_what_was_typed(
    scope: Span,
    guessed: bool,
    needle: Vec<u8>,
    spec: EditSpec,
    path: Seq<char>,
    file: Seq<char>,
    kind: Kind,
    before: Seq<u8>,
    carried: bool,
    lookup: Lookup,
    old: Vec<u8>,
    new: Vec<u8>,
    all: bool,
)
    requires
        is_prepared(
            Ok((Prepared::Search { scope, guessed, needle })),
            spec,
            path,
            file,
            kind,
            before,
            carried,
            lookup,
        ),
        spec.op == (EditOp::Replace { old, new, all }),
    ensures
        spec.literal_newlines || holds_bare_lf(before) || !has_crlf(before) || !holds_bare_lf(old@)
            ==> needle@ == old@,
        !spec.literal_newlines && has_crlf(before) && !holds_bare_lf(before) ==> needle@ == crlf_of(
            old@,
        ),
{
    law_a_crlf_needle_has_no_bare_lf(old@);
}

/// Lines that are replaced give way whole, and every byte of the other lines is kept. Lines that
/// ended in a newline still do. It takes what the caller said of them to hold: the first line, the
/// whole of them, or the file by its hash; of several lines the first one alone is not enough.
pub proof fn law_replaced_lines_give_way_whole(
    applied: Applied,
    spec: EditSpec,
    path: Seq<char>,
    file: Seq<char>,
    kind: Kind,
    before: Seq<u8>,
    starts: Seq<usize>,
    carried: bool,
    lookup: Lookup,
    expect: Option<String>,
    expect_all: Option<String>,
    new: Vec<u8>,
    first: int,
    last: int,
)
    requires
        is_prepared(
            Ok(Prepared::Done(applied)),
            spec,
            path,
            file,
            kind,
            before,
            carried,
            lookup,
        ),
        spec.op == (EditOp::ReplaceRange { expect, expect_all, new }),
        are_starts(before, starts),
        before.len() < usize::MAX,
        kind.in_order(),
        names_lines(kind, lookup, first, last) && !(kind is Regex),
    ensures
        1 <= first <= last <= starts.len(),
        exists|from: int, to: int, text: Seq<u8>|
            {
                &&& 0 <= from < to <= before.len()
                &&& forall|i: int|
                    0 <= i < before.len() ==> (from <= i < to <==> first <= #[trigger] line_at(
                        before,
                        i,
                    ) <= last)
                &&& applied.after@ == #[trigger] put(before, from, to, text)
                &&& ({
                    let said = replacement_of(new@, before, spec.literal_newlines);
                    text == said || (text == said + ending_of(before) && !(said.len() > 0
                        && said.last() == 10))
                })
                &&& before[to - 1] == 10 ==> text.len() > 0 && text.last() == 10
                &&& before[to - 1] != 10 ==> text == replacement_of(
                    new@,
                    before,
                    spec.literal_newlines,
                )
            },
        expect matches Some(said) ==> trimmed(line_says(before, starts, first)) == trimmed(said@),
        expect_all matches Some(said) ==> ({
            let (from, to) = span_of(before, starts, first, last);
            chomped(lossy(before.subrange(from, to))) == chomped(said@)
        }),
        last > first && expect is Some ==> expect_all is Some || spec.if_sha is Some,
        !is_binary(before),
{
    lemma_starts_of(before, starts);
    assert(is_range_said(None, spec, file, kind, before));
    let (one, all) = choose|one: Option<&str>, all: Option<&str>| #[trigger]
        stand_for(one, all, expect, expect_all) && is_range_error(
            None,
            spec.raw@,
            file,
            kind,
            spec.if_sha is Some,
            before,
            starts_of(before),
            one,
            all,
        );
    law_a_span_holds_the_bytes_of_its_lines(before, starts, first, last);
    let (from, to) = span_of(before, starts, first, last);
    let text = lines_replacement(new@, before, spec.literal_newlines, to);
    assert(applied.after@ =~= put(before, from, to, text));
}

/// The file with other bytes in place of those from `from` to `to`.
pub open spec fn put(before: Seq<u8>, from: int, to: int, text: Seq<u8>) -> Seq<u8> {
    before.subrange(0, from) + text + before.subrange(to, before.len() as int)
}

/// An insert that was carried out put its text right beside the lines that its anchor names, with
/// one line end, and kept every byte of the file.
pub proof fn law_an_insert_keeps_the_file_and_stands_beside_its_anchor(
    applied: Applied,
    spec: EditSpec,
    path: Seq<char>,
    file: Seq<char>,
    kind: Kind,
    before: Seq<u8>,
    starts: Seq<usize>,
    carried: bool,
    lookup: Lookup,
    side: AnchorSide,
    typed: String,
    new: Vec<u8>,
    first: int,
    last: int,
)
    requires
        is_prepared(
            Ok(Prepared::Done(applied)),
            spec,
            path,
            file,
            kind,
            before,
            carried,
            lookup,
        ),
        spec.op == (EditOp::Insert { side, anchor: typed, new }),
        are_starts(before, starts),
        before.len() < usize::MAX,
        anchors(kind, lookup, first, last),
        1 <= first <= last <= starts.len(),
    ensures
        exists|at: int, text: Seq<u8>|
            {
                &&& 0 <= at <= before.len()
                &&& applied.after@ == #[trigger] put(before, at, at, text)
                &&& ({
                    let said = replacement_of(unterminated(new@), before, spec.literal_newlines);
                    let end = ending_of(before);
                    text == said + end || (text == end + said && at == before.len())
                })
                &&& side == AnchorSide::After ==> forall|i: int|
                    0 <= i < before.len() ==> (i < at <==> #[trigger] line_at(before, i) <= last)
                &&& side == AnchorSide::Before ==> forall|i: int|
                    0 <= i < before.len() && !(i < 3 && has_bom(before)) ==> (i >= at
                        <==> #[trigger] line_at(before, i) >= first)
            },
{
    lemma_starts_of(before, starts);
    let (line, anchor) = choose|line: usize, anchor: Anchor| #[trigger]
        is_insert_done(applied, spec, file, kind, before, lookup, line, anchor);
    let said = replacement_of(unterminated(new@), before, spec.literal_newlines);
    law_an_insert_lands_outside_the_lines_of_its_anchor(
        applied,
        spec.raw@,
        file,
        typed@,
        kind,
        before,
        starts,
        side,
        new@,
        lookup,
        line,
        anchor,
        said,
        first,
        last,
    );
    law_a_span_holds_the_bytes_of_its_lines(before, starts, 1, last);
    law_a_span_holds_the_bytes_of_its_lines(before, starts, first, starts.len() as int);
    law_the_lines_are_the_file(before, starts);
    let end = ending_of(before);
    let (from, to) = span_of(before, starts, first, last);
    assert forall|i: int| 0 <= i < before.len() implies 1 <= #[trigger] line_at(before, i)
        <= starts.len() by {
        law_a_span_holds_the_bytes_of_its_lines(before, starts, 1, starts.len() as int);
    }
    if before.len() >= 3 && before.take(3) == seq![0xefu8, 0xbb, 0xbf] {
        assert(before.take(3)[0] == before[0] && before.take(3)[1] == before[1]
            && before.take(3)[2] == before[2]);
        assert(has_bom(before));
    }
    if side == AnchorSide::After {
        if before[to - 1] == 10 {
            assert(applied.after@ =~= put(before, to, to, said + end));
        } else {
            if last < starts.len() {
                law_a_line_ends_at_its_newline(before, starts, last - 1);
            }
            assert(to == before.len());
            assert(applied.after@ =~= put(before, to, to, end + said));
        }
    } else {
        let mark: int = if from == 0 && before.len() >= 3 && before.take(3) == seq![
            0xefu8,
            0xbb,
            0xbf,
        ] {
            3
        } else {
            from
        };
        assert(applied.after@ =~= put(before, mark, mark, said + end));
    }
}

/// A replacement changes the places that were found and nothing else: one place, or each of several,
/// counted from where the searched part begins. It is carried out exactly where something was found
/// that is not ambiguous.
pub proof fn law_a_replacement_changes_what_was_found(
    r: Result<Applied, Error>,
    spec: EditSpec,
    path: Seq<char>,
    before: Seq<u8>,
    carried: bool,
    scope: Span,
    guessed: bool,
    found: Found,
    folding: Fold,
    old: Vec<u8>,
    new: Vec<u8>,
    all: bool,
)
    requires
        is_concluded(r, spec, path, before, carried, scope, guessed, found, folding),
        spec.op == (EditOp::Replace { old, new, all }),
        scope.within(before.len()),
        found.within(before.subrange(scope.start as int, scope.end as int)),
        before.len() < usize::MAX,
    ensures
        r is Ok <==> found is Unique || found is All,
        r matches Ok(applied) ==> {
            let text = replacement_of(new@, before, spec.literal_newlines);
            &&& found matches Found::Unique(one) ==> applied.after@ == put(
                before,
                scope.start + one.span.start,
                scope.start + one.span.end,
                text,
            ) && applied.kind == (EditKind::Replaced { count: 1 }) && applied.normalized
                == one.normalized
            &&& found matches Found::All(located) ==> {
                &&& applied.after@ == spliced(
                    before,
                    Seq::new(
                        located@.len(),
                        |k: int|
                            Span {
                                start: (scope.start + located@[k].span.start) as usize,
                                end: (scope.start + located@[k].span.end) as usize,
                            },
                    ),
                    text,
                )
                &&& applied.kind == (EditKind::Replaced { count: located@.len() as usize })
            }
        },
        r matches Err(error) ==> {
            &&& found is Ambiguous ==> error is Ambiguous
            &&& found is NotFound ==> error is NotFound || error is MixedEndings
                || error is EmptyFile
        },
{
    if let Ok(applied) = r {
        let text = replacement_of(new@, before, spec.literal_newlines);
        let spans = moved_spans(found.located(), scope.start);
        if let Found::Unique(one) = found {
            let span = Span {
                start: (scope.start + one.span.start) as usize,
                end: (scope.start + one.span.end) as usize,
            };
            assert(spans =~= seq![span]);
            assert(found.located()[0] == one);
            law_one_span_is_a_list_of_one(before, span, text);
            assert(applied.after@ =~= put(before, span.start as int, span.end as int, text));
        }
        if let Found::All(located) = found {
            let same = Seq::new(
                located@.len(),
                |k: int|
                    Span {
                        start: (scope.start + located@[k].span.start) as usize,
                        end: (scope.start + located@[k].span.end) as usize,
                    },
            );
            assert(spans =~= same);
        }
    } else {
        let error = r->Err_0;
        let inner = choose|inner: Error| #[trigger]
            is_answered(inner, path, carried, before, error) && is_replace_error(
                inner,
                spec.raw@,
                path,
                before,
                scope,
                old@,
                spec.literal_newlines,
                found,
            );
    }
}

/// An edit is taken into the plan exactly where it did not break the file: the plan then ends in the
/// bytes that the edit made and has one result more, and the first bytes stay those the file had. One
/// that broke the file is kept for the answer, as reverted.
pub proof fn law_an_edit_that_broke_the_file_is_not_taken(
    r: Result<Plan, Error>,
    folded: Option<Plan>,
    path: Seq<char>,
    before: Vec<u8>,
    applied: Applied,
    checked: Checked,
    before_sha: Seq<char>,
    after_sha: Seq<char>,
    noted: Seq<Omission>,
    had: Option<EditResult>,
    stash: Option<EditResult>,
)
    requires
        is_stepped(r, folded, path, before, applied, checked, before_sha, after_sha, noted),
        is_stashed(r, had, stash, path, applied, checked, before_sha, after_sha, noted),
    ensures
        r is Err <==> (checked matches Checked::Parsed(layer1) && !layer1.ok),
        r matches Ok(plan) ==> {
            &&& plan.after@ == applied.after@
            &&& folded is None ==> plan.before == before && plan.detail@.len() == 1
            &&& folded is Some ==> plan.before == (folded->0).before && plan.detail@.len() == (
            folded->0).detail@.len() + 1 && (folded->0).detail@.is_prefix_of(plan.detail@)
            &&& !plan.detail@.last().reverted
            &&& stash == had
        },
        r matches Err(error) ==> {
            &&& error matches Error::CheckFailed { path: p, detail, .. } && p@ == path && detail@
                == checked->Parsed_0.status@
            &&& stash matches Some(result) && result.reverted && result.sha.after.hex@ == before_sha
        },
{
    if let Ok(plan) = r {
        if let Some(was) = folded {
            assert(plan.detail@.subrange(0, was.detail@.len() as int) =~= was.detail@);
        }
    }
}

/// What was noted before an edit stays noted, and what the edit itself has to tell comes after it.
pub proof fn law_the_notes_of_an_edit_are_added(
    had: Seq<Omission>,
    omitted: Seq<Omission>,
    path: Seq<char>,
    applied: Applied,
    checked: Checked,
)
    requires
        are_edit_notes(had, omitted, path, applied, checked),
    ensures
        told_all(had).is_prefix_of(told_all(omitted)),
        forall|i: int|
            0 <= i < edit_notes(path, applied, checked).len() ==> told_all(omitted)[had.len() + i]
                == #[trigger] edit_notes(path, applied, checked)[i],
{
    let notes = edit_notes(path, applied, checked);
    let n = (had.len() + notes.len()) as int;
    let (first, all) = (told_all(omitted.take(n)), told_all(omitted));
    assert(first =~= all.take(n));
    assert(all.subrange(0, had.len() as int) =~= told_all(had)) by {
        assert forall|i: int| 0 <= i < had.len() implies all[i] == told_all(had)[i] by {
            assert(first[i] == told_all(had)[i]);
        }
    }
    assert forall|i: int| 0 <= i < notes.len() implies all[had.len() + i] == #[trigger] notes[i] by {
        assert(first[had.len() + i] == notes[i]);
    }
}

} // verus!
