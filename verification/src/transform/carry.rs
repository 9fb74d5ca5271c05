//! The operations on one file, one at a time, so that every line number can be carried forward to
//! the file as it is written.
use vstd::prelude::*;

use crate::edit::region::{add_number, ascending};
use crate::error::Error;
use crate::output::{
    tell, told_all, CheckResult, Omission, Sha12, ShaPair, Told, TransformFormat, TransformOp,
    TransformResult,
};
use crate::text;
use crate::text::{lines_of, texts};
use crate::transform::hunk::{
    are_rows_of, law_a_followed_line_stays_in_the_document, law_no_line_of_the_file_is_lost,
    law_the_rows_stay_those_of_the_document, living, origins, Hunk, Row,
};
use crate::transform::region::{is_region, region, CONTEXT_LINES};
use crate::transform::spec::Target;

verus! {

/// What an editor made of one operation: the document after it, the operation as it came to be
/// carried out, and the line it reports, counted from one.
#[derive(Debug)]
pub struct Step {
    /// The key as it was asked for.
    pub raw_key: String,
    /// The key holds a `[key=value]` selector.
    pub selects: bool,
    pub text: String,
    pub entry: TransformOp,
    pub line: usize,
}

/// The document before the `i`-th step.
pub open spec fn text_before(content: Seq<char>, steps: Seq<Step>, i: int) -> Seq<char> {
    if i <= 0 {
        content
    } else {
        steps[i - 1].text@
    }
}

/// What the steps so far left of a document, which the next one starts from: the last one's text, or,
/// before the first, the document as it was read.
pub fn text_left<'a>(content: &'a str, steps: &'a Vec<Step>) -> (r: &'a str)
    ensures
        r@ == text_before(content@, steps@, steps@.len() as int),
{
    if steps.len() == 0 {
        content
    } else {
        steps[steps.len() - 1].text.as_str()
    }
}

/// Where two documents differ.
pub open spec fn hunk_between(before: Seq<char>, after: Seq<char>) -> Hunk {
    choose|hunk: Hunk| hunk.is_between(lines_of(before), lines_of(after))
}

pub proof fn lemma_hunk_between(hunk: Hunk, before: Seq<char>, after: Seq<char>)
    requires
        hunk.is_between(lines_of(before), lines_of(after)),
    ensures
        hunk == hunk_between(before, after),
{
    let other = hunk_between(before, after);
    let (b, a) = (lines_of(before), lines_of(after));
    assert(other.is_between(b, a));
    if hunk.start < other.start {
        assert(b[hunk.start as int] == a[hunk.start as int]);
    } else if other.start < hunk.start {
        assert(b[other.start as int] == a[other.start as int]);
    }
    let end = b.len() - hunk.start - hunk.removed;
    let other_end = b.len() - other.start - other.removed;
    if end < other_end {
        assert(b[b.len() - 1 - end] == a[a.len() - 1 - end]);
    } else if other_end < end {
        assert(b[b.len() - 1 - other_end] == a[a.len() - 1 - other_end]);
    }
}

/// How the `i`-th step changed the document.
pub open spec fn hunk_at(content: Seq<char>, steps: Seq<Step>, i: int) -> Hunk {
    hunk_between(text_before(content, steps, i), steps[i].text@)
}

/// The rows after the first `n` steps.
pub open spec fn rows_upto(
    start: Seq<Row>,
    content: Seq<char>,
    steps: Seq<Step>,
    n: int,
) -> Seq<Row>
    decreases n,
{
    if n <= 0 {
        start
    } else {
        hunk_at(content, steps, n - 1).spliced(rows_upto(start, content, steps, n - 1))
    }
}

/// Where a step is shown. A delete's row sits where its removed lines were, just below any line
/// that the same operation rewrote.
pub open spec fn anchor_of(hunk: Hunk, step: Step) -> int {
    if is_removal(hunk, step) {
        hunk.start + hunk.added + 1
    } else {
        step.line as int
    }
}

/// Where the first `n` steps are shown once all of them are done.
pub open spec fn anchors_upto(content: Seq<char>, steps: Seq<Step>, n: int) -> Seq<int>
    decreases n,
{
    if n <= 0 {
        Seq::empty()
    } else {
        let hunk = hunk_at(content, steps, n - 1);
        anchors_upto(content, steps, n - 1).map_values(|line: int| hunk.followed(line)).push(
            anchor_of(hunk, steps[n - 1]),
        )
    }
}

/// What the selectors among the first `n` steps came to, each once.
pub open spec fn resolutions_upto(steps: Seq<Step>, n: int) -> Seq<(Seq<char>, Seq<char>)>
    decreases n,
{
    if n <= 0 {
        Seq::empty()
    } else {
        let so_far = resolutions_upto(steps, n - 1);
        let one = (steps[n - 1].raw_key@, steps[n - 1].entry.key_of());
        if steps[n - 1].selects && !so_far.contains(one) {
            so_far.push(one)
        } else {
            so_far
        }
    }
}

/// A step is shown where its removed lines were, whatever line it reports.
pub open spec fn is_removal(hunk: Hunk, step: Step) -> bool {
    step.entry is Deleted && hunk.removed > hunk.added
}

/// Each step that is shown at the line it reports reports one of its document, or the one past its
/// end.
pub open spec fn are_steps(content: Seq<char>, steps: Seq<Step>) -> bool {
    forall|i: int|
        0 <= i < steps.len() ==> {
            let step = #[trigger] steps[i];
            &&& is_removal(hunk_at(content, steps, i), step) || 1 <= step.line <= lines_of(
                step.text@,
            ).len() + 1
            &&& lines_of(step.text@).len() + 3 < usize::MAX
        }
}

/// The lines of a file, as rows.
pub open spec fn are_kept(rows: Seq<Row>, lines: Seq<Seq<char>>) -> bool {
    &&& rows.len() == lines.len()
    &&& forall|i: int| 0 <= i < rows.len() ==> ((#[trigger] rows[i]) matches Row::Kept(was)
        && was@ == lines[i])
}

proof fn lemma_kept_living(rows: Seq<Row>, lines: Seq<Seq<char>>)
    requires
        are_kept(rows, lines),
    ensures
        living(rows) == rows,
        are_rows_of(rows, lines),
    decreases rows.len(),
{
    if rows.len() > 0 {
        let less = rows.drop_last();
        let fewer = lines.drop_last();
        assert forall|i: int| 0 <= i < less.len() implies ((#[trigger] less[i]) matches Row::Kept(
            was,
        ) && was@ == fewer[i]) by {
            assert(less[i] == rows[i]);
        }
        lemma_kept_living(less, fewer);
        assert(rows[rows.len() - 1] is Kept);
        assert(living(rows) =~= rows);
    }
}

fn kept_rows(content: &str) -> (rows: Vec<Row>)
    ensures
        are_kept(rows@, lines_of(content@)),
{
    let mut lines = text::lines(content);
    let ghost all = lines@;
    let count = lines.len();
    let mut rows: Vec<Row> = Vec::new();
    let mut i: usize = 0;
    assert(lines@ =~= all.skip(0));
    assert(texts(all).len() == all.len());
    while i < count
        invariant
            i <= count == all.len(),
            texts(all) == lines_of(content@),
            lines@ == all.skip(i as int),
            rows@.len() == i,
            forall|k: int| 0 <= k < i ==> ((#[trigger] rows@[k]) matches Row::Kept(was) && was@
                == lines_of(content@)[k]),
        decreases count - i,
    {
        let line = lines.remove(0);
        assert(line == all[i as int]);
        assert(texts(all)[i as int] == all[i as int]@);
        assert(lines@ =~= all.skip(i + 1));
        rows.push(Row::Kept(line));
        i = i + 1;
    }
    rows
}

fn follow_all(anchors: &mut Vec<usize>, hunk: Hunk, Ghost(before): Ghost<Seq<Seq<char>>>, Ghost(
    after,
): Ghost<Seq<Seq<char>>>)
    requires
        hunk.is_between(before, after),
        before.len() + 3 < usize::MAX,
        after.len() + 3 < usize::MAX,
        forall|i: int|
            0 <= i < old(anchors)@.len() ==> 1 <= (#[trigger] old(anchors)@[i]) <= before.len() + 1,
        before.len() + after.len() + 3 < usize::MAX,
    ensures
        final(anchors)@.len() == old(anchors)@.len(),
        forall|i: int|
            0 <= i < old(anchors)@.len() ==> #[trigger] final(anchors)@[i] == hunk.followed(
                old(anchors)@[i] as int,
            ),
{
    let ghost had = anchors@;
    let count = anchors.len();
    let mut i: usize = 0;
    while i < count
        invariant
            i <= count == anchors@.len() == had.len(),
            hunk.is_between(before, after),
            before.len() + after.len() + 3 < usize::MAX,
            forall|k: int| 0 <= k < had.len() ==> 1 <= (#[trigger] had[k]) <= before.len() + 1,
            forall|k: int| i <= k < had.len() ==> anchors@[k] == had[k],
            forall|k: int|
                0 <= k < i ==> #[trigger] anchors@[k] == hunk.followed(had[k] as int),
        decreases count - i,
    {
        assert(1 <= had[i as int] <= before.len() + 1);
        let line = hunk.follow(anchors[i]);
        anchors.set(i, line);
        i = i + 1;
    }
}

fn has_pair(pairs: &Vec<(String, String)>, first: &str, second: &str) -> (r: bool)
    ensures
        r == pairs_of(pairs@).contains((first@, second@)),
{
    let mut i: usize = 0;
    while i < pairs.len()
        invariant
            i <= pairs@.len(),
            forall|k: int| 0 <= k < i ==> #[trigger] pairs_of(pairs@)[k] != (first@, second@),
        decreases pairs@.len() - i,
    {
        assert(pairs_of(pairs@)[i as int] == (pairs@[i as int].0@, pairs@[i as int].1@));
        if text::same(pairs[i].0.as_str(), first) && text::same(pairs[i].1.as_str(), second) {
            return true;
        }
        i = i + 1;
    }
    false
}

pub open spec fn pairs_of(pairs: Seq<(String, String)>) -> Seq<(Seq<char>, Seq<char>)> {
    pairs.map_values(|pair: (String, String)| (pair.0@, pair.1@))
}

/// The steps carried out.
pub struct Carried {
    pub rows: Vec<Row>,
    /// Where each step is shown.
    pub anchors: Vec<usize>,
    pub resolutions: Vec<(String, String)>,
    pub start: Ghost<Seq<Row>>,
}

impl Carried {
    pub open spec fn is(self, content: Seq<char>, steps: Seq<Step>) -> bool {
        let n = steps.len() as int;
        &&& are_kept(self.start@, lines_of(content))
        &&& self.rows@ == rows_upto(self.start@, content, steps, n)
        &&& self.anchors@.len() == n
        &&& forall|i: int|
            0 <= i < n ==> #[trigger] self.anchors@[i] == anchors_upto(content, steps, n)[i]
        &&& pairs_of(self.resolutions@) == resolutions_upto(steps, n)
    }
}

/// The lines can be counted.
pub open spec fn are_countable(content: Seq<char>, steps: Seq<Step>) -> bool {
    &&& are_steps(content, steps)
    &&& lines_of(content).len() + 3 < usize::MAX
    &&& forall|i: int|
        0 <= i < steps.len() ==> lines_of(text_before(content, steps, i)).len() + lines_of(
            (#[trigger] steps[i]).text@,
        ).len() + 3 < usize::MAX
}

proof fn lemma_anchor_in(
    content: Seq<char>,
    steps: Seq<Step>,
    hunk: Hunk,
    i: int,
)
    requires
        0 <= i < steps.len(),
        are_steps(content, steps),
        hunk.is_between(lines_of(text_before(content, steps, i)), lines_of(steps[i].text@)),
    ensures
        1 <= anchor_of(hunk, steps[i]) <= lines_of(steps[i].text@).len() + 1,
{
    lemma_hunk_between(hunk, text_before(content, steps, i), steps[i].text@);
    assert(lines_of(steps[i].text@).len() + 3 < usize::MAX);
}

/// Carries the steps out one by one.
pub fn carry(content: &str, steps: &Vec<Step>) -> (r: Carried)
    requires
        are_countable(content@, steps@),
    ensures
        r.is(content@, steps@),
        are_rows_of(r.rows@, lines_of(text_before(content@, steps@, steps@.len() as int))),
        forall|i: int|
            0 <= i < r.anchors@.len() ==> 1 <= (#[trigger] r.anchors@[i]) <= lines_of(
                text_before(content@, steps@, steps@.len() as int),
            ).len() + 1,
{
    let mut rows = kept_rows(content);
    let ghost start = rows@;
    let mut anchors: Vec<usize> = Vec::new();
    let mut resolutions: Vec<(String, String)> = Vec::new();
    let mut i: usize = 0;
    proof {
        lemma_kept_living(start, lines_of(content@));
        assert(pairs_of(resolutions@) =~= Seq::empty());
    }
    while i < steps.len()
        invariant
            i <= steps@.len(),
            are_countable(content@, steps@),
            rows@ == rows_upto(start, content@, steps@, i as int),
            are_rows_of(rows@, lines_of(text_before(content@, steps@, i as int))),
            anchors@.len() == i,
            forall|k: int|
                0 <= k < i ==> {
                    &&& #[trigger] anchors@[k] == anchors_upto(content@, steps@, i as int)[k]
                    &&& 1 <= anchors@[k] <= lines_of(
                        text_before(content@, steps@, i as int),
                    ).len() + 1
                },
            anchors_upto(content@, steps@, i as int).len() == i,
            pairs_of(resolutions@) == resolutions_upto(steps@, i as int),
        decreases steps@.len() - i,
    {
        let ghost before_lines = lines_of(text_before(content@, steps@, i as int));
        let ghost after_lines = lines_of(steps@[i as int].text@);
        let ghost had = anchors@;
        let ghost had_pairs = resolutions@;
        let ghost had_anchors = anchors_upto(content@, steps@, i as int);
        let before = if i == 0 {
            content
        } else {
            steps[i - 1].text.as_str()
        };
        let step = &steps[i];
        let hunk = Hunk::between(before, step.text.as_str());
        proof {
            lemma_hunk_between(hunk, before@, step.text@);
            assert(hunk == hunk_at(content@, steps@, i as int));
            assert(before_lines.len() + after_lines.len() + 3 < usize::MAX);
            lemma_anchor_in(content@, steps@, hunk, i as int);
            law_the_rows_stay_those_of_the_document(hunk, rows@, before_lines, after_lines);
            assert forall|k: int| 0 <= k < had.len() implies 1 <= (#[trigger] hunk.followed(
                had[k] as int,
            )) <= after_lines.len() + 1 by {
                assert(1 <= had[k] <= before_lines.len() + 1);
                law_a_followed_line_stays_in_the_document(
                    hunk,
                    before_lines,
                    after_lines,
                    had[k] as int,
                );
            }
        }
        if step.selects && !has_pair(&resolutions, step.raw_key.as_str(), step.entry.key()) {
            resolutions.push((step.raw_key.clone(), step.entry.key().to_owned()));
            assert(pairs_of(resolutions@) =~= pairs_of(had_pairs).push(
                (step.raw_key@, step.entry.key_of()),
            ));
        }
        follow_all(&mut anchors, hunk, Ghost(before_lines), Ghost(after_lines));
        let deletes = match &step.entry {
            TransformOp::Deleted { .. } => true,
            _ => false,
        };
        let anchor = if deletes && hunk.removed > hunk.added {
            hunk.start + hunk.added + 1
        } else {
            step.line
        };
        anchors.push(anchor);
        hunk.splice(&mut rows);
        proof {
            let now = anchors_upto(content@, steps@, i + 1);
            assert(now.len() == i + 1);
            assert forall|k: int| 0 <= k < i + 1 implies {
                &&& #[trigger] anchors@[k] == now[k]
                &&& 1 <= anchors@[k] <= after_lines.len() + 1
            } by {
                if k < i {
                    assert(had[k] == had_anchors[k]);
                    assert(anchors@[k] == hunk.followed(had[k] as int));
                    assert(now[k] == hunk.followed(had_anchors[k]));
                }
            }
        }
        i = i + 1;
    }
    Carried { rows, anchors, resolutions, start: Ghost(start) }
}

/// The lines that the operations of a file are shown at, in order, each once.
pub open spec fn are_lines(lines: Seq<usize>, anchors: Seq<usize>) -> bool {
    &&& ascending(lines)
    &&& forall|n: usize| #[trigger] lines.contains(n) <==> anchors.contains(n)
}

fn sorted_lines(anchors: &Vec<usize>) -> (lines: Vec<usize>)
    ensures
        are_lines(lines@, anchors@),
{
    let mut lines: Vec<usize> = Vec::new();
    let mut i: usize = 0;
    while i < anchors.len()
        invariant
            i <= anchors@.len(),
            are_lines(lines@, anchors@.take(i as int)),
        decreases anchors@.len() - i,
    {
        let ghost before = lines@;
        let line = anchors[i];
        add_number(&mut lines, line);
        proof {
            let so_far = anchors@.take(i as int);
            let more = anchors@.take(i + 1);
            assert(more =~= so_far.push(line));
            assert forall|n: usize| #[trigger] lines@.contains(n) <==> more.contains(n) by {
                assert(lines@.contains(n) <==> before.contains(n) || n == line);
                if so_far.contains(n) {
                    let k = choose|k: int| 0 <= k < so_far.len() && so_far[k] == n;
                    assert(more[k] == n);
                }
                if n == line {
                    assert(more[i as int] == n);
                }
                if more.contains(n) {
                    let k = choose|k: int| 0 <= k < more.len() && more[k] == n;
                    if k < i {
                        assert(so_far[k] == n);
                    }
                }
            }
        }
        i = i + 1;
    }
    assert(anchors@.take(i as int) =~= anchors@);
    lines
}

/// A hash that was given does not hold: the first of the targets of a file that says so.
pub open spec fn changed_at(targets: Seq<Target>, actual: Seq<char>, n: int) -> Option<Seq<char>>
    decreases n,
{
    if n <= 0 {
        None
    } else {
        match changed_at(targets, actual, n - 1) {
            Some(expected) => Some(expected),
            None => match targets[n - 1].if_sha {
                Some(sha) => if sha.hex@ != actual {
                    Some(sha.hex@)
                } else {
                    None
                },
                None => None,
            },
        }
    }
}

proof fn lemma_changed_at(targets: Seq<Target>, actual: Seq<char>, m: int, n: int)
    requires
        0 <= m <= n,
        changed_at(targets, actual, m) is Some,
    ensures
        changed_at(targets, actual, n) == changed_at(targets, actual, m),
    decreases n,
{
    if m < n {
        lemma_changed_at(targets, actual, m, n - 1);
    }
}

/// Checked on the bytes that were read, since the operations have to run on exactly those.
pub fn check_hashes(targets: &Vec<Target>, path: &str, actual: &Sha12) -> (r: Option<Error>)
    ensures
        match changed_at(targets@, actual.hex@, targets@.len() as int) {
            Some(hex) => r matches Some(Error::Changed { path: p, expected, actual: a }) && p@
                == path@ && expected@ == hex && a@ == actual.hex@,
            None => r is None,
        },
{
    let mut i: usize = 0;
    while i < targets.len()
        invariant
            i <= targets@.len(),
            changed_at(targets@, actual.hex@, i as int) is None,
        decreases targets@.len() - i,
    {
        if let Some(sha) = &targets[i].if_sha {
            if !text::same(sha.as_str(), actual.as_str()) {
                proof {
                    lemma_changed_at(targets@, actual.hex@, i + 1, targets@.len() as int);
                }
                return Some(
                    Error::Changed {
                        path: path.to_owned(),
                        expected: sha.as_str().to_owned(),
                        actual: actual.as_str().to_owned(),
                    },
                );
            }
        }
        i = i + 1;
    }
    None
}

/// What the selectors came to, as the footer says it.
pub open spec fn resolved_notes(pairs: Seq<(Seq<char>, Seq<char>)>) -> Seq<Told> {
    pairs.map_values(
        |pair: (Seq<char>, Seq<char>)| Told::Selector { selector: pair.0, resolved: pair.1 },
    )
}

fn tell_resolutions(omitted: &mut Vec<Omission>, pairs: Vec<(String, String)>)
    ensures
        told_all(final(omitted)@) == told_all(old(omitted)@) + resolved_notes(pairs_of(pairs@)),
{
    let ghost all = pairs@;
    let ghost before = told_all(omitted@);
    let ghost notes = resolved_notes(pairs_of(all));
    let mut rest = pairs;
    let count = rest.len();
    let mut i: usize = 0;
    assert(rest@ =~= all.skip(0));
    assert(before + notes.take(0) =~= before);
    while i < count
        invariant
            i <= count == all.len(),
            rest@ == all.skip(i as int),
            notes == resolved_notes(pairs_of(all)),
            told_all(omitted@) == before + notes.take(i as int),
        decreases count - i,
    {
        let (selector, resolved) = rest.remove(0);
        assert((selector, resolved) == all[i as int]);
        assert(rest@ =~= all.skip(i + 1));
        assert(pairs_of(all)[i as int] == (selector@, resolved@));
        tell(omitted, Omission::SelectorResolved { selector, resolved });
        i = i + 1;
        assert(told_all(omitted@) =~= before + notes.take(i as int));
    }
    assert(notes.take(i as int) =~= notes);
}

/// What is answered for one file.
pub open spec fn is_result(
    result: TransformResult,
    carried: Carried,
    path: Seq<char>,
    format: TransformFormat,
    content: Seq<char>,
    steps: Seq<Step>,
    sha: ShaPair,
    no_check: bool,
    noted: Seq<Omission>,
) -> bool {
    let written = lines_of(text_before(content, steps, steps.len() as int));
    &&& result.path@ == path
    &&& result.format == format
    &&& are_lines(result.lines@, carried.anchors@)
    &&& is_region(result.region, noted, written, carried.rows@, result.lines@)
    &&& result.operations@.len() == steps.len()
    &&& forall|i: int|
        0 <= i < steps.len() ==> #[trigger] result.operations@[i] == steps[i].entry
    &&& match result.check {
        Some(check) => !no_check && check.layer@ == format.name_of() && check.status@ == "ok"@
            && check.errors_before == 0 && check.errors_after == 0,
        None => no_check,
    }
    &&& result.sha == sha
}

fn entries_of(steps: Vec<Step>) -> (r: Vec<TransformOp>)
    ensures
        r@.len() == steps@.len(),
        forall|i: int| 0 <= i < steps@.len() ==> #[trigger] r@[i] == steps@[i].entry,
{
    let ghost all = steps@;
    let mut rest = steps;
    let mut out: Vec<TransformOp> = Vec::new();
    let count = rest.len();
    let mut i: usize = 0;
    assert(rest@ =~= all.skip(0));
    while i < count
        invariant
            i <= count == all.len(),
            rest@ == all.skip(i as int),
            out@.len() == i,
            forall|k: int| 0 <= k < i ==> #[trigger] out@[k] == all[k].entry,
        decreases count - i,
    {
        let step = rest.remove(0);
        assert(step == all[i as int]);
        assert(rest@ =~= all.skip(i + 1));
        out.push(step.entry);
        i = i + 1;
    }
    out
}

/// The answer for one file: the editors parse before they change anything and write through the
/// same parser, so to have got here is the check's own answer.
pub fn validate(
    path: &str,
    format: TransformFormat,
    content: &str,
    steps: Vec<Step>,
    sha: ShaPair,
    no_check: bool,
    omitted: &mut Vec<Omission>,
) -> (r: TransformResult)
    requires
        are_countable(content@, steps@),
    ensures
        exists|carried: Carried, noted: Seq<Omission>| #[trigger]
            carried.is(content@, steps@) && #[trigger] is_result(
                r,
                carried,
                path@,
                format,
                content@,
                steps@,
                sha,
                no_check,
                noted,
            ) && told_all(final(omitted)@) == told_all(old(omitted)@) + resolved_notes(
                resolutions_upto(steps@, steps@.len() as int),
            ) + told_all(noted),
{
    let ghost before = told_all(omitted@);
    let carried = carry(content, &steps);
    let ghost all = carried;
    let ghost n = steps@.len() as int;
    let ghost written = lines_of(text_before(content@, steps@, n));
    let last = if steps.len() == 0 {
        content
    } else {
        steps[steps.len() - 1].text.as_str()
    };
    let lines_now = text::lines(last);
    proof {
        assert(texts(lines_now@) == written);
        assert(texts(lines_now@).len() == lines_now@.len());
        if n > 0 {
            assert(lines_of(steps@[n - 1].text@).len() + 3 < usize::MAX);
        }
    }
    let lines = sorted_lines(&carried.anchors);
    proof {
        assert forall|i: int| 0 <= i < lines@.len() implies (#[trigger] lines@[i]) + CONTEXT_LINES
            <= usize::MAX by {
            assert(lines@.contains(lines@[i]));
            let k = choose|k: int| 0 <= k < all.anchors@.len() && all.anchors@[k] == lines@[i];
            assert(all.anchors@[k] <= written.len() + 1);
        }
    }
    tell_resolutions(omitted, carried.resolutions);
    let ghost had = omitted@;
    let echoed = region(&lines_now, &carried.rows, &lines, omitted);
    let ghost noted = omitted@.skip(had.len() as int);
    proof {
        assert(omitted@ =~= had + noted);
        assert(told_all(omitted@) =~= told_all(had) + told_all(noted));
    }
    let check = if no_check {
        None
    } else {
        Some(
            CheckResult {
                layer: format.name().to_owned(),
                status: "ok".to_owned(),
                errors_before: 0,
                errors_after: 0,
            },
        )
    };
    let r = TransformResult {
        path: path.to_owned(),
        format,
        operations: entries_of(steps),
        lines,
        region: echoed,
        check,
        sha,
    };
    proof {
        assert(all.is(content@, steps@));
        assert(is_result(r, all, path@, format, content@, steps@, sha, no_check, noted));
    }
    r
}

/// A selector is told of with what it came to, and told of once however many steps use it.
pub proof fn law_a_selector_is_told_once(steps: Seq<Step>, n: int)
    requires
        0 <= n <= steps.len(),
    ensures
        resolutions_upto(steps, n).no_duplicates(),
        forall|i: int|
            0 <= i < n && (#[trigger] steps[i]).selects ==> resolutions_upto(steps, n).contains(
                (steps[i].raw_key@, steps[i].entry.key_of()),
            ),
        forall|k: int|
            0 <= k < resolutions_upto(steps, n).len() ==> exists|i: int|
                0 <= i < n && (#[trigger] steps[i]).selects && (
                steps[i].raw_key@,
                steps[i].entry.key_of(),
                ) == #[trigger] resolutions_upto(steps, n)[k],
    decreases n,
{
    if n > 0 {
        law_a_selector_is_told_once(steps, n - 1);
        let (had, all) = (resolutions_upto(steps, n - 1), resolutions_upto(steps, n));
        let one = (steps[n - 1].raw_key@, steps[n - 1].entry.key_of());
        assert forall|pair: (Seq<char>, Seq<char>)| #[trigger] had.contains(
            pair,
        ) implies all.contains(pair) by {
            let j = choose|j: int| 0 <= j < had.len() && had[j] == pair;
            assert(all[j] == pair);
        }
        if steps[n - 1].selects && !had.contains(one) {
            assert(all[all.len() - 1] == one);
        }
        assert forall|k: int| 0 <= k < all.len() implies exists|i: int|
            0 <= i < n && (#[trigger] steps[i]).selects && (
            steps[i].raw_key@,
            steps[i].entry.key_of(),
            ) == #[trigger] all[k] by {
            if k < had.len() {
                let i = choose|i: int|
                    0 <= i < n - 1 && (#[trigger] steps[i]).selects && (
                    steps[i].raw_key@,
                    steps[i].entry.key_of(),
                    ) == had[k];
                assert(steps[i].selects && all[k] == had[k]);
            } else {
                assert(steps[n - 1].selects && all[k] == one);
            }
        }
    }
}

/// A call is refused where the file is not the one that some target was written for, and the first
/// such target is named.
pub proof fn law_a_file_that_changed_is_refused(targets: Seq<Target>, actual: Seq<char>, n: int)
    requires
        0 <= n <= targets.len(),
    ensures
        match changed_at(targets, actual, n) {
            None => forall|i: int|
                0 <= i < n ==> ((#[trigger] targets[i]).if_sha matches Some(sha) ==> sha.hex@
                    == actual),
            Some(expected) => expected != actual && exists|i: int|
                0 <= i < n && ((#[trigger] targets[i]).if_sha matches Some(sha) && sha.hex@
                    == expected) && forall|j: int|
                    0 <= j < i ==> ((#[trigger] targets[j]).if_sha matches Some(sha) ==> sha.hex@
                        == actual),
        },
    decreases n,
{
    if n > 0 {
        law_a_file_that_changed_is_refused(targets, actual, n - 1);
    }
}

/// The rows name every line that the file held, and those that live are the lines it holds now: one
/// that was kept says what its line says.
pub proof fn law_the_rows_are_those_of_both_files(
    carried: Carried,
    content: Seq<char>,
    steps: Seq<Step>,
)
    requires
        carried.is(content, steps),
        are_countable(content, steps),
    ensures
        are_rows_of(carried.rows@, lines_of(text_before(content, steps, steps.len() as int))),
        origins(carried.rows@).to_multiset() == origins(carried.start@).to_multiset(),
        texts(origins(carried.start@)) == lines_of(content),
{
    lemma_kept_living(carried.start@, lines_of(content));
    lemma_kept_origins(carried.start@, lines_of(content));
    assert forall|i: int| 0 <= i < steps.len() implies (#[trigger] hunk_at(
        content,
        steps,
        i,
    )).is_between(lines_of(text_before(content, steps, i)), lines_of(steps[i].text@)) by {
        assert(lines_of(steps[i].text@).len() + 3 < usize::MAX);
        let (b, a) = (lines_of(text_before(content, steps, i)), lines_of(steps[i].text@));
        let start = lemma_common_start(b, a, 0);
        let end = lemma_common_end(b, a, start, 0);
        let hunk = Hunk {
            start: start as usize,
            removed: (b.len() - start - end) as usize,
            added: (a.len() - start - end) as usize,
        };
        assert(hunk.is_between(b, a));
    }
    lemma_rows_of_both(carried.start@, content, steps, steps.len() as int);
}

proof fn lemma_kept_origins(rows: Seq<Row>, lines: Seq<Seq<char>>)
    requires
        are_kept(rows, lines),
    ensures
        texts(origins(rows)) == lines,
    decreases rows.len(),
{
    if rows.len() > 0 {
        let (less, fewer) = (rows.drop_last(), lines.drop_last());
        assert forall|i: int| 0 <= i < less.len() implies ((#[trigger] less[i]) matches Row::Kept(
            was,
        ) && was@ == fewer[i]) by {
            assert(less[i] == rows[i]);
        }
        lemma_kept_origins(less, fewer);
        assert(rows[rows.len() - 1] is Kept);
        assert(texts(origins(rows)) =~= texts(origins(less)).push(lines.last()));
    }
    assert(texts(origins(rows)) =~= lines);
}

proof fn lemma_rows_of_both(start: Seq<Row>, content: Seq<char>, steps: Seq<Step>, n: int)
    requires
        0 <= n <= steps.len(),
        are_kept(start, lines_of(content)),
        forall|i: int|
            0 <= i < n ==> (#[trigger] hunk_at(content, steps, i)).is_between(
                lines_of(text_before(content, steps, i)),
                lines_of(steps[i].text@),
            ),
    ensures
        are_rows_of(
            rows_upto(start, content, steps, n),
            lines_of(text_before(content, steps, n)),
        ),
        origins(rows_upto(start, content, steps, n)).to_multiset() == origins(
            start,
        ).to_multiset(),
    decreases n,
{
    if n > 0 {
        lemma_rows_of_both(start, content, steps, n - 1);
        let rows = rows_upto(start, content, steps, n - 1);
        let hunk = hunk_at(content, steps, n - 1);
        law_the_rows_stay_those_of_the_document(
            hunk,
            rows,
            lines_of(text_before(content, steps, n - 1)),
            lines_of(steps[n - 1].text@),
        );
        law_no_line_of_the_file_is_lost(hunk, rows);
    } else {
        lemma_kept_living(start, lines_of(content));
    }
}

proof fn lemma_common_start(b: Seq<Seq<char>>, a: Seq<Seq<char>>, k: int) -> (p: int)
    requires
        0 <= k <= b.len(),
        k <= a.len(),
        forall|i: int| 0 <= i < k ==> b[i] == a[i],
    ensures
        k <= p <= b.len(),
        p <= a.len(),
        forall|i: int| 0 <= i < p ==> b[i] == a[i],
        p == b.len() || p == a.len() || b[p] != a[p],
    decreases b.len() - k,
{
    if k == b.len() || k == a.len() || b[k] != a[k] {
        k
    } else {
        lemma_common_start(b, a, k + 1)
    }
}

proof fn lemma_common_end(b: Seq<Seq<char>>, a: Seq<Seq<char>>, p: int, k: int) -> (e: int)
    requires
        0 <= p,
        0 <= k <= b.len() - p,
        k <= a.len() - p,
        forall|i: int| 0 <= i < k ==> #[trigger] b[b.len() - 1 - i] == a[a.len() - 1 - i],
    ensures
        k <= e <= b.len() - p,
        e <= a.len() - p,
        forall|i: int| 0 <= i < e ==> #[trigger] b[b.len() - 1 - i] == a[a.len() - 1 - i],
        e == b.len() - p || e == a.len() - p || b[b.len() - 1 - e] != a[a.len() - 1 - e],
    decreases b.len() - k,
{
    if k == b.len() - p || k == a.len() - p || b[b.len() - 1 - k] != a[a.len() - 1 - k] {
        k
    } else {
        lemma_common_end(b, a, p, k + 1)
    }
}

/// A result tells each step, in its order, and names exactly the lines that the steps are shown at,
/// each once and in order; it has a check unless none was asked for.
pub proof fn law_a_result_tells_each_step(
    result: TransformResult,
    carried: Carried,
    path: Seq<char>,
    format: TransformFormat,
    content: Seq<char>,
    steps: Seq<Step>,
    sha: ShaPair,
    no_check: bool,
    noted: Seq<Omission>,
)
    requires
        is_result(result, carried, path, format, content, steps, sha, no_check, noted),
    ensures
        result.path@ == path && result.format == format && result.sha == sha,
        result.operations@ == steps.map_values(|step: Step| step.entry),
        result.lines@.to_set() == carried.anchors@.to_set(),
        forall|i: int, j: int|
            0 <= i < j < result.lines@.len() ==> #[trigger] result.lines@[i]
                < #[trigger] result.lines@[j],
        result.check is None <==> no_check,
{
    assert(result.operations@ =~= steps.map_values(|step: Step| step.entry));
    assert(result.lines@.to_set() =~= carried.anchors@.to_set());
}

} // verus!
