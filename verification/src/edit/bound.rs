//! Keeping what a batch echoes within a byte limit.
use vstd::prelude::*;
use vstd::utf8::encode_utf8;

use crate::edit::report::{bytes_shown, lemma_lines_within_bytes, shown_lines};
use crate::output::{tell, told_all, EditResult, Line, Marker, Omission, Told};
use crate::text;
use crate::text::byte_len;
use crate::window::{
    content_bytes, cut_long_lines, hit_at, law_a_shown_line_stays_within_the_cap, line_bytes,
    lines_bytes, overlong, shown_bytes, LINE_DISPLAY_CAP,
};

verus! {

/// `after` is `before` but for its region.
pub open spec fn same_but_region(before: EditResult, after: EditResult) -> bool {
    &&& after.path == before.path
    &&& after.lines == before.lines
    &&& after.match_kind == before.match_kind
    &&& after.resolver == before.resolver
    &&& after.check == before.check
    &&& after.sha == before.sha
    &&& after.reverted == before.reverted
    &&& after.kind == before.kind
}

/// `after` is `before` with its long lines cut.
pub open spec fn is_cut(before: EditResult, after: EditResult) -> bool {
    &&& same_but_region(before, after)
    &&& match before.region {
        None => after.region is None,
        Some(region) => after.region matches Some(cut) && cut.start == region.start && cut.end
            == region.end && are_cut_lines(region.lines@, cut.lines@),
    }
}

pub open spec fn are_cut_lines(before: Seq<Line>, after: Seq<Line>) -> bool {
    &&& after.len() == before.len()
    &&& forall|i: int|
        0 <= i < before.len() ==> {
            &&& (#[trigger] after[i]).number == before[i].number
            &&& after[i].marker == before[i].marker
            &&& encode_utf8(after[i].text@) == shown_bytes(encode_utf8(before[i].text@), None)
            &&& byte_len(before[i].text@) <= LINE_DISPLAY_CAP ==> after[i] == before[i]
        }
}

pub open spec fn are_cut(before: Seq<EditResult>, after: Seq<EditResult>) -> bool {
    &&& after.len() == before.len()
    &&& forall|i: int| 0 <= i < before.len() ==> is_cut(before[i], #[trigger] after[i])
}

/// How many lines of the first `n` results are over the display cap.
pub open spec fn overlong_upto(results: Seq<EditResult>, n: int) -> nat
    decreases n,
{
    if n <= 0 {
        0
    } else {
        overlong_upto(results, n - 1) + overlong(shown_lines(results[n - 1]))
    }
}

/// `lines` without as many of the last as it takes to bring `bytes` down to the limit.
pub open spec fn fit(lines: Seq<Line>, bytes: int, limit: int) -> Seq<Line>
    decreases lines.len(),
{
    if bytes <= limit || lines.len() == 0 {
        lines
    } else {
        fit(lines.drop_last(), bytes - line_bytes(lines.last()), limit)
    }
}

/// What `bytes` come down to thereby.
pub open spec fn fit_bytes(lines: Seq<Line>, bytes: int, limit: int) -> int
    decreases lines.len(),
{
    if bytes <= limit || lines.len() == 0 {
        bytes
    } else {
        fit_bytes(lines.drop_last(), bytes - line_bytes(lines.last()), limit)
    }
}

/// How many of the file's own lines are dropped thereby.
pub open spec fn fit_dropped(lines: Seq<Line>, bytes: int, limit: int) -> nat
    decreases lines.len(),
{
    if bytes <= limit || lines.len() == 0 {
        0
    } else {
        fit_dropped(lines.drop_last(), bytes - line_bytes(lines.last()), limit) + (
        if lines.last().number > 0 {
            1nat
        } else {
            0nat
        })
    }
}

/// `lines` without the gap rows they end with: a gap says what lies between two shown lines.
pub open spec fn ungapped(lines: Seq<Line>) -> Seq<Line>
    decreases lines.len(),
{
    if lines.len() > 0 && lines.last().marker == Marker::Gap {
        ungapped(lines.drop_last())
    } else {
        lines
    }
}

/// The bytes of all the results once those from `i` on were cut to the limit, the last first.
pub open spec fn bytes_from(results: Seq<EditResult>, limit: int, i: int) -> int
    decreases results.len() - i,
{
    if i < 0 || i >= results.len() {
        bytes_shown(results, results.len() as int) as int
    } else {
        fit_bytes(shown_lines(results[i]), bytes_from(results, limit, i + 1), limit)
    }
}

/// How many lines that drops.
pub open spec fn dropped_from(results: Seq<EditResult>, limit: int, i: int) -> nat
    decreases results.len() - i,
{
    if i < 0 || i >= results.len() {
        0
    } else {
        dropped_from(results, limit, i + 1) + fit_dropped(
            shown_lines(results[i]),
            bytes_from(results, limit, i + 1),
            limit,
        )
    }
}

/// `after` is `before` where `bytes` are already within the limit, else `before` cut to it: a
/// region that loses every line is gone.
pub open spec fn is_fit(before: EditResult, after: EditResult, bytes: int, limit: int) -> bool {
    if bytes <= limit || before.region is None {
        after == before
    } else {
        let region = before.region->0;
        let kept = ungapped(fit(region.lines@, bytes, limit));
        &&& same_but_region(before, after)
        &&& if kept.len() == 0 {
            after.region is None
        } else {
            after.region matches Some(cut) && cut.start == region.start && cut.lines@ == kept
                && cut.end == kept.last().number
        }
    }
}

fn cut_all(results: &mut Vec<EditResult>) -> (cut: usize)
    requires
        2 * bytes_shown(old(results)@, old(results)@.len() as int) <= usize::MAX,
    ensures
        are_cut(old(results)@, final(results)@),
        cut == overlong_upto(old(results)@, old(results)@.len() as int),
        bytes_shown(final(results)@, final(results)@.len() as int) <= usize::MAX,
{
    let ghost before = results@;
    let mut cut: usize = 0;
    let mut i: usize = 0;
    while i < results.len()
        invariant
            i <= results@.len() == before.len(),
            before == old(results)@,
            2 * bytes_shown(before, before.len() as int) <= usize::MAX,
            forall|k: int| i <= k < before.len() ==> results@[k] == before[k],
            forall|k: int| 0 <= k < i ==> is_cut(before[k], #[trigger] results@[k]),
            cut == overlong_upto(before, i as int),
            cut <= bytes_shown(before, i as int),
        decreases before.len() - i,
    {
        let ghost had = results@;
        proof {
            lemma_bytes_shown_mono(before, i + 1, before.len() as int);
            lemma_lines_within_bytes(shown_lines(before[i as int]));
            lemma_overlong_within(shown_lines(before[i as int]));
        }
        let result = &mut results[i];
        let region = result.region.take();
        if let Some(region) = region {
            let mut region = region;
            let ghost lines = region.lines@;
            let hits: [Option<std::ops::Range<usize>>; 0] = [];
            let more = cut_long_lines(region.lines.as_mut_slice(), &hits);
            assert(are_cut_lines(lines, region.lines@)) by {
                assert forall|k: int| 0 <= k < lines.len() implies {
                    &&& (#[trigger] region.lines@[k]).number == lines[k].number
                    &&& region.lines@[k].marker == lines[k].marker
                    &&& encode_utf8(region.lines@[k].text@) == shown_bytes(
                        encode_utf8(lines[k].text@),
                        None,
                    )
                    &&& byte_len(lines[k].text@) <= LINE_DISPLAY_CAP ==> region.lines@[k]
                        == lines[k]
                } by {
                    assert(hit_at(hits@, k) is None);
                }
            }
            result.region = Some(region);
            cut = cut + more;
        }
        i = i + 1;
    }
    proof {
        lemma_cut_bytes(before, results@, before.len() as int);
    }
    cut
}

proof fn lemma_overlong_within(lines: Seq<Line>)
    ensures
        overlong(lines) <= lines.len(),
    decreases lines.len(),
{
    if lines.len() > 0 {
        lemma_overlong_within(lines.drop_last());
    }
}

proof fn lemma_bytes_shown_mono(results: Seq<EditResult>, m: int, n: int)
    requires
        0 <= m <= n,
    ensures
        bytes_shown(results, m) <= bytes_shown(results, n),
    decreases n,
{
    if m < n {
        lemma_bytes_shown_mono(results, m, n - 1);
    }
}

proof fn lemma_cut_lines_bytes(before: Seq<Line>, after: Seq<Line>)
    requires
        are_cut_lines(before, after),
    ensures
        lines_bytes(after) <= 2 * lines_bytes(before),
    decreases before.len(),
{
    if before.len() > 0 {
        let b = before.drop_last();
        let a = after.drop_last();
        assert forall|i: int| 0 <= i < b.len() implies {
            &&& (#[trigger] a[i]).number == b[i].number
            &&& a[i].marker == b[i].marker
            &&& encode_utf8(a[i].text@) == shown_bytes(encode_utf8(b[i].text@), None)
            &&& byte_len(b[i].text@) <= LINE_DISPLAY_CAP ==> a[i] == b[i]
        } by {
            assert(a[i] == after[i] && b[i] == before[i]);
        }
        lemma_cut_lines_bytes(b, a);
        let last = before.len() - 1;
        assert(after[last].number == before[last].number);
        law_a_shown_line_stays_within_the_cap(before[last].text@, None);
    }
}

proof fn lemma_cut_bytes(before: Seq<EditResult>, after: Seq<EditResult>, n: int)
    requires
        are_cut(before, after),
        0 <= n <= before.len(),
    ensures
        bytes_shown(after, n) <= 2 * bytes_shown(before, n),
    decreases n,
{
    if n > 0 {
        lemma_cut_bytes(before, after, n - 1);
        assert(is_cut(before[n - 1], after[n - 1]));
        if before[n - 1].region is Some {
            lemma_cut_lines_bytes(shown_lines(before[n - 1]), shown_lines(after[n - 1]));
        }
    }
}

fn bytes_in(results: &Vec<EditResult>) -> (r: usize)
    requires
        bytes_shown(results@, results@.len() as int) <= usize::MAX,
    ensures
        r == bytes_shown(results@, results@.len() as int),
{
    let mut bytes: usize = 0;
    let mut i: usize = 0;
    while i < results.len()
        invariant
            i <= results@.len(),
            bytes_shown(results@, results@.len() as int) <= usize::MAX,
            bytes == bytes_shown(results@, i as int),
        decreases results@.len() - i,
    {
        proof {
            lemma_bytes_shown_mono(results@, i + 1, results@.len() as int);
        }
        if let Some(region) = &results[i].region {
            bytes = bytes + content_bytes(region.lines.as_slice());
        }
        i = i + 1;
    }
    bytes
}

/// Cuts one result to the limit; the second is how many of the file's own lines went.
fn fit_result(result: &mut EditResult, bytes: usize, limit: usize) -> (r: (usize, usize))
    requires
        bytes > limit,
        bytes >= lines_bytes(shown_lines(*old(result))),
    ensures
        is_fit(*old(result), *final(result), bytes as int, limit as int),
        r.0 == fit_bytes(shown_lines(*old(result)), bytes as int, limit as int),
        r.1 == fit_dropped(shown_lines(*old(result)), bytes as int, limit as int),
        r.1 <= shown_lines(*old(result)).len(),
        r.0 + lines_bytes(shown_lines(*old(result))) >= bytes,
        r.0 <= bytes,
{
    let region = result.region.take();
    let mut region = match region {
        Some(region) => region,
        None => return (bytes, 0),
    };
    let ghost lines = region.lines@;
    let ghost start = region.start;
    let count = region.lines.len();
    let mut left: usize = bytes;
    let mut dropped: usize = 0;
    while left > limit && region.lines.len() > 0
        invariant
            lines.len() == count,
            region.start == start,
            region.lines@.len() <= lines.len(),
            left >= lines_bytes(region.lines@),
            left + lines_bytes(lines) >= bytes + lines_bytes(region.lines@),
            left <= bytes,
            fit(lines, bytes as int, limit as int) == fit(region.lines@, left as int, limit as int),
            fit_bytes(lines, bytes as int, limit as int) == fit_bytes(
                region.lines@,
                left as int,
                limit as int,
            ),
            fit_dropped(lines, bytes as int, limit as int) == fit_dropped(
                region.lines@,
                left as int,
                limit as int,
            ) + dropped,
            dropped + region.lines@.len() <= lines.len(),
        decreases region.lines@.len(),
    {
        let ghost had = region.lines@;
        let last = region.lines.len() - 1;
        let size = text::len(region.lines[last].text.as_str());
        let counts = region.lines[last].number > 0;
        region.lines.truncate(last);
        assert(region.lines@ =~= had.drop_last());
        left = left - (size + 1);
        if counts {
            dropped = dropped + 1;
        }
    }
    let ghost kept = region.lines@;
    assert(kept == fit(lines, bytes as int, limit as int));
    while region.lines.len() > 0 && region.lines[region.lines.len() - 1].marker == Marker::Gap
        invariant
            region.start == start,
            ungapped(kept) == ungapped(region.lines@),
        decreases region.lines@.len(),
    {
        let ghost had = region.lines@;
        let last = region.lines.len() - 1;
        region.lines.truncate(last);
        assert(region.lines@ =~= had.drop_last());
    }
    if region.lines.len() > 0 {
        region.end = region.lines[region.lines.len() - 1].number;
        result.region = Some(region);
    }
    (left, dropped)
}

proof fn lemma_bytes_from(results: Seq<EditResult>, limit: int, i: int)
    requires
        0 <= i <= results.len(),
    ensures
        bytes_shown(results, i) <= bytes_from(results, limit, i),
        bytes_from(results, limit, i) <= bytes_shown(results, results.len() as int),
        dropped_from(results, limit, i) + bytes_shown(results, i) <= bytes_shown(
            results,
            results.len() as int,
        ),
        i < results.len() && bytes_from(results, limit, i + 1) <= limit ==> bytes_from(
            results,
            limit,
            i,
        ) == bytes_from(results, limit, i + 1) && dropped_from(results, limit, i) == dropped_from(
            results,
            limit,
            i + 1,
        ),
    decreases results.len() - i,
{
    if i < results.len() {
        lemma_bytes_from(results, limit, i + 1);
        lemma_fit_bytes(shown_lines(results[i]), bytes_from(results, limit, i + 1), limit);
        lemma_lines_within_bytes(shown_lines(results[i]));
    }
}

proof fn lemma_fit_bytes(lines: Seq<Line>, bytes: int, limit: int)
    requires
        bytes >= lines_bytes(lines),
    ensures
        bytes - lines_bytes(lines) <= fit_bytes(lines, bytes, limit) <= bytes,
        fit_dropped(lines, bytes, limit) <= lines.len(),
    decreases lines.len(),
{
    if bytes > limit && lines.len() > 0 {
        lemma_fit_bytes(lines.drop_last(), bytes - line_bytes(lines.last()), limit);
    }
}

/// What an answer of these results leaves out of them to stay within `limit`.
pub open spec fn bound_notes(before: Seq<EditResult>, cut: Seq<EditResult>, limit: usize) -> Seq<
    Told,
> {
    let n = before.len() as int;
    let long = overlong_upto(before, n);
    let first = if long > 0 {
        seq![Told::Plain(Omission::LongLinesCut { lines: long as usize })]
    } else {
        Seq::empty()
    };
    if bytes_shown(cut, n) <= limit {
        first
    } else {
        first.push(
            Told::Plain(
                Omission::OutputTrimmed {
                    limit,
                    lines: dropped_from(cut, limit as int, 0) as usize,
                },
            ),
        )
    }
}

/// `after` is `before` with long lines cut, and then with the last lines dropped that do not fit.
pub open spec fn are_bounded(
    before: Seq<EditResult>,
    cut: Seq<EditResult>,
    after: Seq<EditResult>,
    limit: int,
) -> bool {
    &&& are_cut(before, cut)
    &&& after.len() == before.len()
    &&& forall|i: int|
        0 <= i < before.len() ==> is_fit(
            cut[i],
            #[trigger] after[i],
            bytes_from(cut, limit, i + 1),
            limit,
        )
}

/// Cuts long lines, then drops lines from the last result back until the rest fits.
pub fn bound_output(results: &mut Vec<EditResult>, limit: usize, omitted: &mut Vec<Omission>)
    requires
        2 * bytes_shown(old(results)@, old(results)@.len() as int) <= usize::MAX,
    ensures
        exists|cut: Seq<EditResult>| #[trigger]
            are_bounded(old(results)@, cut, final(results)@, limit as int) && told_all(
                final(omitted)@,
            ) == told_all(old(omitted)@) + bound_notes(old(results)@, cut, limit),
        bytes_shown(final(results)@, final(results)@.len() as int) <= limit,
        bytes_shown(final(results)@, final(results)@.len() as int) <= 2 * bytes_shown(
            old(results)@,
            old(results)@.len() as int,
        ),
        final(results)@.len() == old(results)@.len(),
{
    let ghost before = results@;
    let ghost told = told_all(omitted@);
    let n = results.len();
    let long = cut_all(results);
    let ghost cut = results@;
    if long > 0 {
        tell(omitted, Omission::LongLinesCut { lines: long });
    }
    let total = bytes_in(results);
    if total <= limit {
        proof {
            lemma_all_fit(cut, limit as int, 0);
            assert(told_all(omitted@) =~= told + bound_notes(before, cut, limit));
            assert(are_bounded(before, cut, results@, limit as int));
            lemma_bounded_bytes(before, cut, results@, limit as int);
            law_a_bounded_answer_is_within_the_limit(before, cut, results@, limit as nat);
        }
        return;
    }
    let mut bytes: usize = total;
    let mut dropped: usize = 0;
    let mut i: usize = n;
    while i > 0 && bytes > limit
        invariant
            i <= n == cut.len(),
            results@.len() == n,
            total == bytes_shown(cut, n as int),
            bytes == bytes_from(cut, limit as int, i as int),
            dropped == dropped_from(cut, limit as int, i as int),
            forall|k: int| 0 <= k < i ==> results@[k] == cut[k],
            forall|k: int|
                i <= k < n ==> is_fit(
                    cut[k],
                    #[trigger] results@[k],
                    bytes_from(cut, limit as int, k + 1),
                    limit as int,
                ),
        decreases i,
    {
        proof {
            lemma_bytes_from(cut, limit as int, i as int);
            lemma_bytes_from(cut, limit as int, i - 1);
            lemma_bytes_shown_mono(cut, i - 1, i as int);
        }
        i = i - 1;
        let result = &mut results[i];
        let (left, more) = fit_result(result, bytes, limit);
        bytes = left;
        dropped = dropped + more;
    }
    proof {
        if bytes <= limit {
            lemma_rest_fit(cut, limit as int, i as int);
        }
    }
    tell(omitted, Omission::OutputTrimmed { limit, lines: dropped });
    proof {
        assert(told_all(omitted@) =~= told + bound_notes(before, cut, limit));
        assert forall|k: int| 0 <= k < before.len() implies is_fit(
            cut[k],
            #[trigger] results@[k],
            bytes_from(cut, limit as int, k + 1),
            limit as int,
        ) by {
            if k < i {
                lemma_rest_within(cut, limit as int, k + 1, i as int);
            }
        }
        assert(are_bounded(before, cut, results@, limit as int));
        lemma_bounded_bytes(before, cut, results@, limit as int);
        law_a_bounded_answer_is_within_the_limit(before, cut, results@, limit as nat);
    }
}

proof fn lemma_fit_is_prefix(lines: Seq<Line>, bytes: int, limit: int)
    ensures
        lines_bytes(ungapped(fit(lines, bytes, limit))) <= lines_bytes(lines),
    decreases lines.len(),
{
    if bytes > limit && lines.len() > 0 {
        lemma_fit_is_prefix(lines.drop_last(), bytes - line_bytes(lines.last()), limit);
    } else {
        lemma_ungapped(lines);
    }
}

proof fn lemma_ungapped(lines: Seq<Line>)
    ensures
        lines_bytes(ungapped(lines)) <= lines_bytes(lines),
    decreases lines.len(),
{
    if lines.len() > 0 && lines.last().marker == Marker::Gap {
        lemma_ungapped(lines.drop_last());
    }
}

proof fn lemma_bounded_bytes(
    before: Seq<EditResult>,
    cut: Seq<EditResult>,
    after: Seq<EditResult>,
    limit: int,
)
    requires
        are_bounded(before, cut, after, limit),
    ensures
        bytes_shown(after, after.len() as int) <= 2 * bytes_shown(before, before.len() as int),
{
    lemma_cut_bytes(before, cut, before.len() as int);
    lemma_fit_bytes_upto(before, cut, after, limit, before.len() as int);
}

proof fn lemma_fit_bytes_upto(
    before: Seq<EditResult>,
    cut: Seq<EditResult>,
    after: Seq<EditResult>,
    limit: int,
    n: int,
)
    requires
        are_bounded(before, cut, after, limit),
        0 <= n <= before.len(),
    ensures
        bytes_shown(after, n) <= bytes_shown(cut, n),
    decreases n,
{
    if n > 0 {
        lemma_fit_bytes_upto(before, cut, after, limit, n - 1);
        let bytes = bytes_from(cut, limit, n);
        assert(is_fit(cut[n - 1], after[n - 1], bytes, limit));
        lemma_fit_is_prefix(shown_lines(cut[n - 1]), bytes, limit);
    }
}

/// Once the bytes are within the limit, no earlier result changes them.
proof fn lemma_rest_within(results: Seq<EditResult>, limit: int, k: int, i: int)
    requires
        0 <= k <= i <= results.len(),
        bytes_from(results, limit, i) <= limit,
    ensures
        bytes_from(results, limit, k) == bytes_from(results, limit, i),
        dropped_from(results, limit, k) == dropped_from(results, limit, i),
    decreases i - k,
{
    if k < i {
        lemma_rest_within(results, limit, k + 1, i);
        lemma_bytes_from(results, limit, k);
    }
}

proof fn lemma_rest_fit(results: Seq<EditResult>, limit: int, i: int)
    requires
        0 <= i <= results.len(),
        bytes_from(results, limit, i) <= limit,
    ensures
        dropped_from(results, limit, 0) == dropped_from(results, limit, i),
{
    lemma_rest_within(results, limit, 0, i);
}

proof fn lemma_all_fit(results: Seq<EditResult>, limit: int, i: int)
    requires
        0 <= i <= results.len(),
        bytes_shown(results, results.len() as int) <= limit,
    ensures
        forall|k: int| i <= k <= results.len() ==> #[trigger] bytes_from(results, limit, k) <= limit,
{
    assert forall|k: int| i <= k <= results.len() implies #[trigger] bytes_from(
        results,
        limit,
        k,
    ) <= limit by {
        lemma_bytes_from(results, limit, k);
    }
}

/// However much a batch echoes, what is left of it is within the limit.
pub proof fn law_a_bounded_answer_is_within_the_limit(
    before: Seq<EditResult>,
    cut: Seq<EditResult>,
    after: Seq<EditResult>,
    limit: nat,
)
    requires
        are_bounded(before, cut, after, limit as int),
    ensures
        bytes_shown(after, after.len() as int) <= limit,
{
    lemma_within_or_all_dropped(cut, limit as int, 0);
    lemma_bytes_left(before, cut, after, limit as int, 0);
}

/// What is counted is what is left: the results from `i` on as they are, those before it as they
/// were.
proof fn lemma_bytes_left(
    before: Seq<EditResult>,
    cut: Seq<EditResult>,
    after: Seq<EditResult>,
    limit: int,
    i: int,
)
    requires
        are_bounded(before, cut, after, limit),
        0 <= i <= before.len(),
    ensures
        bytes_shown(cut, i) + bytes_shown(after, after.len() as int) - bytes_shown(after, i)
            <= bytes_from(cut, limit, i),
    decreases before.len() - i,
{
    if i < before.len() {
        lemma_bytes_left(before, cut, after, limit, i + 1);
        let bytes = bytes_from(cut, limit, i + 1);
        let lines = shown_lines(cut[i]);
        assert(is_fit(cut[i], after[i], bytes, limit));
        lemma_fit_counts(lines, bytes, limit);
        lemma_ungapped(fit(lines, bytes, limit));
    }
}

proof fn lemma_fit_counts(lines: Seq<Line>, bytes: int, limit: int)
    ensures
        fit_bytes(lines, bytes, limit) == bytes - lines_bytes(lines) + lines_bytes(
            fit(lines, bytes, limit),
        ),
    decreases lines.len(),
{
    if bytes > limit && lines.len() > 0 {
        lemma_fit_counts(lines.drop_last(), bytes - line_bytes(lines.last()), limit);
    }
}

proof fn lemma_within_or_all_dropped(results: Seq<EditResult>, limit: int, i: int)
    requires
        0 <= i <= results.len(),
    ensures
        bytes_from(results, limit, i) <= limit || bytes_from(results, limit, i) == bytes_shown(
            results,
            i,
        ),
    decreases results.len() - i,
{
    if i < results.len() {
        lemma_within_or_all_dropped(results, limit, i + 1);
        lemma_fit_all(shown_lines(results[i]), bytes_from(results, limit, i + 1), limit);
    }
}

proof fn lemma_fit_all(lines: Seq<Line>, bytes: int, limit: int)
    ensures
        fit_bytes(lines, bytes, limit) <= limit || fit_bytes(lines, bytes, limit) == bytes
            - lines_bytes(lines),
    decreases lines.len(),
{
    if bytes > limit && lines.len() > 0 {
        lemma_fit_all(lines.drop_last(), bytes - line_bytes(lines.last()), limit);
    }
}

/// A cut to the limit keeps the first lines, and no fewer than fit: the next one would not. It tells
/// how many of the file's lines it dropped.
pub proof fn law_no_more_is_dropped_than_has_to_be(lines: Seq<Line>, bytes: int, limit: int)
    ensures
        ({
            let kept = fit(lines, bytes, limit);
            let k = kept.len() as int;
            &&& kept.is_prefix_of(lines)
            &&& k == lines.len() || fit_bytes(lines, bytes, limit) + line_bytes(lines[k]) > limit
            &&& k == lines.len() ==> fit_bytes(lines, bytes, limit) == bytes
            &&& k == 0 || fit_bytes(lines, bytes, limit) <= limit
            &&& fit_dropped(lines, bytes, limit) == lines.skip(k).filter(
                |line: Line| line.number > 0,
            ).len()
        }),
    decreases lines.len(),
{
    reveal(Seq::filter);
    let kept = fit(lines, bytes, limit);
    let k = kept.len() as int;
    if bytes <= limit || lines.len() == 0 {
        assert(lines.subrange(0, k) =~= lines);
        assert(lines.skip(k) =~= Seq::empty());
    } else {
        let less = lines.drop_last();
        law_no_more_is_dropped_than_has_to_be(less, bytes - line_bytes(lines.last()), limit);
        assert(lines.subrange(0, k) =~= less.subrange(0, k));
        assert(lines.skip(k).drop_last() =~= less.skip(k));
        assert(lines.skip(k).last() == lines.last());
        if k < less.len() {
            assert(less[k] == lines[k]);
        }
    }
}

/// Only gaps come off the end of what is kept, and all of them.
pub proof fn law_no_gap_is_left_at_the_end(lines: Seq<Line>)
    ensures
        ungapped(lines).is_prefix_of(lines),
        forall|i: int|
            ungapped(lines).len() <= i < lines.len() ==> (#[trigger] lines[i]).marker == Marker::Gap,
        ungapped(lines).len() > 0 ==> ungapped(lines).last().marker != Marker::Gap,
    decreases lines.len(),
{
    if lines.len() > 0 && lines.last().marker == Marker::Gap {
        let less = lines.drop_last();
        law_no_gap_is_left_at_the_end(less);
        let k = ungapped(less).len() as int;
        assert(lines.subrange(0, k) =~= less.subrange(0, k));
        assert forall|i: int| k <= i < lines.len() implies (#[trigger] lines[i]).marker
            == Marker::Gap by {
            if i < less.len() {
                assert(less[i] == lines[i]);
            }
        }
    } else {
        assert(lines.subrange(0, lines.len() as int) =~= lines);
    }
}

} // verus!
