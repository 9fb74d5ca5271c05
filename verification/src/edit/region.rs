//! The lines an edit echoes: what it changed and what stands next to it.
use vstd::prelude::*;

use crate::edit::lines::{lossy, lossy_text};
use crate::edit::scope::{range_name, range_text};
use crate::output::{lines_are, Line, Marker, Omission, Region, Row};
use crate::text;
use crate::text::{lines_of, texts};

verus! {

/// Trimmed context and a truncated span keep the verification without the bulk.
pub const CONTEXT_LINES: usize = 1;

pub const SPAN_TRUNCATE_LINES: usize = 6;

pub const SPAN_EDGE_LINES: usize = 2;

/// A changed span is too long to be shown whole.
pub open spec fn is_truncated(first: int, last: int, failed: bool) -> bool {
    !failed && last - first + 1 > SPAN_TRUNCATE_LINES
}

/// Line `n` is shown for the changed lines `first..=last` of a file of `total` lines: they and
/// one line of context each side, or of a long span the edges. An edit that failed was never
/// written, so what it left out could not be opened: it is shown whole.
pub open spec fn is_shown_for(n: int, first: int, last: int, total: int, failed: bool) -> bool {
    let from = if first > CONTEXT_LINES {
        first - CONTEXT_LINES
    } else {
        1
    };
    let to = if last + CONTEXT_LINES <= total {
        last + CONTEXT_LINES
    } else {
        total
    };
    if is_truncated(first, last, failed) {
        from <= n <= first + SPAN_EDGE_LINES - 1 || last - (SPAN_EDGE_LINES - 1) <= n <= to
    } else {
        from <= n <= to
    }
}

/// Line `n` is shown for one of the changes.
pub open spec fn is_shown(n: int, changed: Seq<(usize, usize)>, total: int, failed: bool) -> bool {
    exists|k: int|
        0 <= k < changed.len() && is_shown_for(
            n,
            (#[trigger] changed[k]).0 as int,
            changed[k].1 as int,
            total,
            failed,
        )
}

pub open spec fn ascending(numbers: Seq<usize>) -> bool {
    forall|i: int, j: int| 0 <= i < j < numbers.len() ==> numbers[i] < numbers[j]
}

/// `numbers` are the lines that are shown, in order.
pub open spec fn are_shown(
    numbers: Seq<usize>,
    changed: Seq<(usize, usize)>,
    total: int,
    failed: bool,
) -> bool {
    &&& ascending(numbers)
    &&& forall|n: usize| #[trigger]
        numbers.contains(n) <==> is_shown(n as int, changed, total, failed)
}

/// Puts `n` in its place, once.
pub(crate) fn add_number(numbers: &mut Vec<usize>, n: usize)
    requires
        ascending(old(numbers)@),
    ensures
        ascending(final(numbers)@),
        forall|m: usize| #[trigger]
            final(numbers)@.contains(m) <==> old(numbers)@.contains(m) || m == n,
{
    let ghost before = numbers@;
    let mut i: usize = numbers.len();
    while i > 0 && numbers[i - 1] > n
        invariant
            numbers@ == before,
            i <= before.len(),
            forall|j: int| i <= j < before.len() ==> before[j] > n,
        decreases i,
    {
        i = i - 1;
    }
    if i > 0 && numbers[i - 1] == n {
        assert(before[i - 1] == n);
        assert(before.contains(n));
        return;
    }
    numbers.insert(i, n);
    proof {
        let after = numbers@;
        assert(after == before.insert(i as int, n));
        assert forall|m: usize| #[trigger] after.contains(m) <==> before.contains(m) || m == n by {
            if before.contains(m) {
                let j = choose|j: int| 0 <= j < before.len() && before[j] == m;
                if j < i {
                    assert(after[j] == m);
                } else {
                    assert(after[j + 1] == m);
                }
            }
            if m == n {
                assert(after[i as int] == n);
            }
            if after.contains(m) {
                let j = choose|j: int| 0 <= j < after.len() && after[j] == m;
                if j < i {
                    assert(before[j] == m);
                } else if j > i {
                    assert(before[j - 1] == m);
                }
            }
        }
    }
}

/// Puts the numbers `from..=to` in their places.
pub(crate) fn add_range(numbers: &mut Vec<usize>, from: usize, to: usize)
    requires
        ascending(old(numbers)@),
    ensures
        ascending(final(numbers)@),
        forall|m: usize| #[trigger]
            final(numbers)@.contains(m) <==> old(numbers)@.contains(m) || from <= m <= to,
{
    let ghost before = numbers@;
    if from > to {
        return;
    }
    let mut n: usize = from;
    while n < to
        invariant
            ascending(numbers@),
            from <= n <= to,
            forall|m: usize| #[trigger]
                numbers@.contains(m) <==> before.contains(m) || from <= m < n,
        decreases to - n,
    {
        add_number(numbers, n);
        n = n + 1;
    }
    add_number(numbers, to);
}

fn shown_numbers(changed: &Vec<(usize, usize)>, total: usize, failed: bool) -> (numbers: Vec<usize>)
    requires
        forall|k: int|
            0 <= k < changed@.len() ==> 1 <= (#[trigger] changed@[k]).0 <= changed@[k].1
                < usize::MAX - 1,
    ensures
        are_shown(numbers@, changed@, total as int, failed),
{
    let mut numbers: Vec<usize> = Vec::new();
    let mut i: usize = 0;
    assert forall|n: usize| #[trigger] numbers@.contains(n) <==> is_shown(
        n as int,
        changed@.take(0),
        total as int,
        failed,
    ) by {}
    while i < changed.len()
        invariant
            i <= changed@.len(),
            forall|k: int|
                0 <= k < changed@.len() ==> 1 <= (#[trigger] changed@[k]).0 <= changed@[k].1
                    < usize::MAX - 1,
            are_shown(numbers@, changed@.take(i as int), total as int, failed),
        decreases changed@.len() - i,
    {
        let ghost before = numbers@;
        let (first, last) = changed[i];
        let from = if first > CONTEXT_LINES {
            first - CONTEXT_LINES
        } else {
            1
        };
        let to = if last + CONTEXT_LINES <= total {
            last + CONTEXT_LINES
        } else {
            total
        };
        if !failed && last - first + 1 > SPAN_TRUNCATE_LINES {
            add_range(&mut numbers, from, first + SPAN_EDGE_LINES - 1);
            add_range(&mut numbers, last - (SPAN_EDGE_LINES - 1), to);
        } else {
            add_range(&mut numbers, from, to);
        }
        proof {
            let so_far = changed@.take(i as int);
            let more = changed@.take(i + 1);
            assert forall|n: usize| #[trigger] numbers@.contains(n) <==> is_shown(
                n as int,
                more,
                total as int,
                failed,
            ) by {
                let here = is_shown_for(n as int, first as int, last as int, total as int, failed);
                assert(numbers@.contains(n) <==> before.contains(n) || here);
                if is_shown(n as int, so_far, total as int, failed) {
                    let k = choose|k: int|
                        0 <= k < so_far.len() && is_shown_for(
                            n as int,
                            (#[trigger] so_far[k]).0 as int,
                            so_far[k].1 as int,
                            total as int,
                            failed,
                        );
                    assert(more[k] == so_far[k]);
                }
                if here {
                    assert(more[i as int] == (first, last));
                }
                if is_shown(n as int, more, total as int, failed) {
                    let k = choose|k: int|
                        0 <= k < more.len() && is_shown_for(
                            n as int,
                            (#[trigger] more[k]).0 as int,
                            more[k].1 as int,
                            total as int,
                            failed,
                        );
                    if k < i {
                        assert(so_far[k] == more[k]);
                    }
                }
            }
        }
        i = i + 1;
    }
    assert(changed@.take(i as int) =~= changed@);
    numbers
}

/// There are lines left out between the `k`-th shown line and the one before it.
pub open spec fn follows_gap(numbers: Seq<usize>, k: int) -> bool {
    k > 0 && numbers[k] > numbers[k - 1] + 1
}

/// The lines left out before the `k`-th shown one.
pub open spec fn gap_before(numbers: Seq<usize>, k: int) -> (usize, usize) {
    ((numbers[k - 1] + 1) as usize, (numbers[k] - 1) as usize)
}

/// The gaps among the first `n` shown lines.
pub open spec fn gaps(numbers: Seq<usize>, n: int) -> Seq<(usize, usize)>
    decreases n,
{
    if n <= 0 {
        Seq::empty()
    } else if follows_gap(numbers, n - 1) {
        gaps(numbers, n - 1).push(gap_before(numbers, n - 1))
    } else {
        gaps(numbers, n - 1)
    }
}

/// Line `n` lies in one of the changes.
pub open spec fn is_touched(n: int, changed: Seq<(usize, usize)>) -> bool {
    exists|k: int| 0 <= k < changed.len() && (#[trigger] changed[k]).0 <= n <= changed[k].1
}

/// The row for line `n`: its text, the note beside the first change, and the marker of a changed
/// line.
pub open spec fn row_of(
    n: nat,
    lines: Seq<Seq<char>>,
    changed: Seq<(usize, usize)>,
    marker: Marker,
    annotation: Option<&str>,
) -> Row {
    let said = if 1 <= n <= lines.len() {
        lines[n - 1]
    } else {
        ""@
    };
    Row {
        number: n,
        marker: if is_touched(n as int, changed) {
            marker
        } else {
            Marker::Plain
        },
        text: if annotation is Some && changed.len() > 0 && changed[0].0 == n {
            said + "          "@ + annotation->0@
        } else {
            said
        },
    }
}

/// The row that stands for a gap.
pub open spec fn gap_row(gap: (usize, usize)) -> Row {
    Row {
        number: 0,
        marker: Marker::Gap,
        text: range_text(gap.0 as nat, gap.1 as nat) + " not shown"@,
    }
}

/// The rows of the first `n` shown lines, a row for each gap between them.
pub open spec fn rows(
    numbers: Seq<usize>,
    n: int,
    lines: Seq<Seq<char>>,
    changed: Seq<(usize, usize)>,
    marker: Marker,
    annotation: Option<&str>,
) -> Seq<Row>
    decreases n,
{
    if n <= 0 {
        Seq::empty()
    } else {
        let so_far = rows(numbers, n - 1, lines, changed, marker, annotation);
        let here = row_of(numbers[n - 1] as nat, lines, changed, marker, annotation);
        if follows_gap(numbers, n - 1) {
            so_far.push(gap_row(gap_before(numbers, n - 1))).push(here)
        } else {
            so_far.push(here)
        }
    }
}

fn touched(number: usize, changed: &Vec<(usize, usize)>) -> (r: bool)
    ensures
        r == is_touched(number as int, changed@),
{
    let mut i: usize = 0;
    while i < changed.len()
        invariant
            i <= changed@.len(),
            forall|k: int|
                0 <= k < i ==> !((#[trigger] changed@[k]).0 <= number <= changed@[k].1),
        decreases changed@.len() - i,
    {
        let (first, last) = changed[i];
        if first <= number && number <= last {
            assert(changed@[i as int].0 <= number <= changed@[i as int].1);
            return true;
        }
        i = i + 1;
    }
    false
}

/// `region` echoes the changes to a file that now says `lines`, and `noted` is what it leaves out.
pub open spec fn is_region(
    region: Option<Region>,
    noted: Seq<Omission>,
    lines: Seq<Seq<char>>,
    changed: Seq<(usize, usize)>,
    marker: Marker,
    annotation: Option<&str>,
    failed: bool,
) -> bool {
    exists|numbers: Seq<usize>| #[trigger]
        are_shown(numbers, changed, lines.len() as int, failed) && {
            let n = numbers.len() as int;
            match region {
                None => n == 0 && noted.len() == 0,
                Some(region) => {
                    &&& n > 0
                    &&& region.start == numbers[0]
                    &&& region.end == numbers.last()
                    &&& lines_are(
                        region.lines@,
                        rows(numbers, n, lines, changed, marker, annotation),
                    )
                    &&& if gaps(numbers, n).len() == 0 {
                        noted.len() == 0
                    } else {
                        noted.len() == 1 && (noted[0] matches Omission::RegionGap {
                            not_shown,
                            path: None,
                        } && not_shown@ == gaps(numbers, n))
                    }
                },
            }
        }
}

/// A hole between two context windows, or a truncated span's hidden middle, is carried on a row
/// of its own and again in the footer.
pub fn region(
    after: &[u8],
    changed: &Vec<(usize, usize)>,
    marker: Marker,
    annotation: Option<&str>,
    failed: bool,
    omitted: &mut Vec<Omission>,
) -> (r: Option<Region>)
    requires
        forall|k: int|
            0 <= k < changed@.len() ==> 1 <= (#[trigger] changed@[k]).0 <= changed@[k].1
                < usize::MAX - 1,
    ensures
        final(omitted)@.len() >= old(omitted)@.len(),
        final(omitted)@.take(old(omitted)@.len() as int) == old(omitted)@,
        is_region(
            r,
            final(omitted)@.skip(old(omitted)@.len() as int),
            lines_of(lossy(after@)),
            changed@,
            marker,
            annotation,
            failed,
        ),
{
    let ghost noted = omitted@;
    let all = text::lines(lossy_text(after).as_str());
    let ghost said = lines_of(lossy(after@));
    assert(texts(all@) == said);
    let numbers = shown_numbers(changed, all.len(), failed);
    assert(omitted@.take(noted.len() as int) =~= noted);
    assert(omitted@.skip(noted.len() as int) =~= Seq::empty());
    if numbers.len() == 0 {
        return None;
    }
    let mut not_shown: Vec<(usize, usize)> = Vec::new();
    let mut lines: Vec<Line> = Vec::new();
    let mut i: usize = 0;
    while i < numbers.len()
        invariant
            i <= numbers@.len(),
            ascending(numbers@),
            texts(all@) == said,
            not_shown@ == gaps(numbers@, i as int),
            lines_are(lines@, rows(numbers@, i as int, said, changed@, marker, annotation)),
        decreases numbers@.len() - i,
    {
        let number = numbers[i];
        let ghost so_far = lines@;
        if i > 0 {
            let previous = numbers[i - 1];
            assert(numbers@[i - 1] < numbers@[i as int]);
            if number > previous + 1 {
                let from = previous + 1;
                let to = number - 1;
                not_shown.push((from, to));
                lines.push(
                    Line {
                        number: 0,
                        marker: Marker::Gap,
                        text: range_name(from, to).concat(" not shown"),
                    },
                );
            }
        }
        let mut said_here = if 1 <= number && number <= all.len() {
            assert(texts(all@)[number - 1] == all@[number - 1]@);
            all[number - 1].clone()
        } else {
            "".to_owned()
        };
        if let Some(note) = annotation {
            if changed.len() > 0 && changed[0].0 == number {
                said_here.append("          ");
                said_here.append(note);
            }
        }
        lines.push(
            Line {
                number,
                marker: if touched(number, changed) {
                    marker
                } else {
                    Marker::Plain
                },
                text: said_here,
            },
        );
        assert(lines_are(
            lines@,
            rows(numbers@, i + 1, said, changed@, marker, annotation),
        ));
        i = i + 1;
    }
    let start = numbers[0];
    let end = numbers[numbers.len() - 1];
    if not_shown.len() > 0 {
        omitted.push(Omission::RegionGap { not_shown, path: None });
        assert(omitted@.take(noted.len() as int) =~= noted);
        assert(omitted@.skip(noted.len() as int) =~= seq![omitted@.last()]);
    }
    assert(are_shown(numbers@, changed@, said.len() as int, failed));
    Some(Region { start, end, lines })
}

/// The region shows line `n` as the file has it.
pub open spec fn echoes(region: Region, n: int, lines: Seq<Seq<char>>, marker: Marker) -> bool {
    exists|i: int|
        0 <= i < region.lines@.len() && (#[trigger] region.lines@[i]).number == n
            && region.lines@[i].marker == marker && lines[n - 1].is_prefix_of(
            region.lines@[i].text@,
        )
}

proof fn lemma_has_row(
    numbers: Seq<usize>,
    n: int,
    lines: Seq<Seq<char>>,
    changed: Seq<(usize, usize)>,
    marker: Marker,
    annotation: Option<&str>,
    k: int,
) -> (at: int)
    requires
        0 <= k < n <= numbers.len(),
    ensures
        ({
            let all = rows(numbers, n, lines, changed, marker, annotation);
            0 <= at < all.len() && all[at] == row_of(
                numbers[k] as nat,
                lines,
                changed,
                marker,
                annotation,
            )
        }),
    decreases n,
{
    let all = rows(numbers, n, lines, changed, marker, annotation);
    if k == n - 1 {
        all.len() - 1
    } else {
        lemma_has_row(numbers, n - 1, lines, changed, marker, annotation, k)
    }
}

proof fn lemma_row_is(
    numbers: Seq<usize>,
    n: int,
    lines: Seq<Seq<char>>,
    changed: Seq<(usize, usize)>,
    marker: Marker,
    annotation: Option<&str>,
    at: int,
) -> (k: int)
    requires
        0 <= n <= numbers.len(),
        0 <= at < rows(numbers, n, lines, changed, marker, annotation).len(),
    ensures
        0 <= k < n,
        ({
            let row = rows(numbers, n, lines, changed, marker, annotation)[at];
            row == row_of(numbers[k] as nat, lines, changed, marker, annotation) || (follows_gap(
                numbers,
                k,
            ) && row == gap_row(gap_before(numbers, k)))
        }),
    decreases n,
{
    let had = rows(numbers, n - 1, lines, changed, marker, annotation);
    if at < had.len() {
        lemma_row_is(numbers, n - 1, lines, changed, marker, annotation, at)
    } else {
        n - 1
    }
}

/// An edit echoes each of its changes: the first and the last changed line with the line next to
/// them, and all the lines between where the change is short or the edit failed. What it shows is
/// what the file says, and a line is marked as changed where it is.
pub proof fn law_an_edit_echoes_its_changes(
    region: Option<Region>,
    noted: Seq<Omission>,
    lines: Seq<Seq<char>>,
    changed: Seq<(usize, usize)>,
    marker: Marker,
    annotation: Option<&str>,
    failed: bool,
    k: int,
    n: int,
)
    requires
        is_region(region, noted, lines, changed, marker, annotation, failed),
        lines.len() < usize::MAX,
        0 <= k < changed.len(),
        1 <= changed[k].0 <= changed[k].1 <= lines.len(),
        1 <= n <= lines.len(),
    ensures
        ({
            let (first, last) = (changed[k].0 as int, changed[k].1 as int);
            let near = n == first - 1 || n == first || n == last || n == last + 1;
            let short = failed || last - first < 6;
            near || (short && first <= n <= last) ==> region is Some && (echoes(
                region->0,
                n,
                lines,
                marker,
            ) || echoes(region->0, n, lines, Marker::Plain)) && (first <= n <= last ==> echoes(
                region->0,
                n,
                lines,
                marker,
            ))
        }),
{
    let numbers = choose|numbers: Seq<usize>| #[trigger]
        are_shown(numbers, changed, lines.len() as int, failed) && {
            let n = numbers.len() as int;
            match region {
                None => n == 0 && noted.len() == 0,
                Some(region) => {
                    &&& n > 0
                    &&& region.start == numbers[0]
                    &&& region.end == numbers.last()
                    &&& lines_are(
                        region.lines@,
                        rows(numbers, n, lines, changed, marker, annotation),
                    )
                    &&& if gaps(numbers, n).len() == 0 {
                        noted.len() == 0
                    } else {
                        noted.len() == 1 && (noted[0] matches Omission::RegionGap {
                            not_shown,
                            path: None,
                        } && not_shown@ == gaps(numbers, n))
                    }
                },
            }
        };
    let (first, last) = (changed[k].0 as int, changed[k].1 as int);
    let near = n == first - 1 || n == first || n == last || n == last + 1;
    let short = failed || last - first < 6;
    if near || (short && first <= n <= last) {
        assert(is_shown_for(n, first, last, lines.len() as int, failed));
        assert(is_shown(n, changed, lines.len() as int, failed));
        assert(numbers.contains(n as usize));
        let m = choose|m: int| 0 <= m < numbers.len() && numbers[m] == n;
        let at = lemma_has_row(
            numbers,
            numbers.len() as int,
            lines,
            changed,
            marker,
            annotation,
            m,
        );
        let row = row_of(n as nat, lines, changed, marker, annotation);
        let shown = region->0.lines@[at];
        assert(row.text.subrange(0, lines[n - 1].len() as int) =~= lines[n - 1]);
        if first <= n <= last {
            assert(changed[k].0 <= n <= changed[k].1);
            assert(is_touched(n, changed));
        }
        assert(shown.number == n);
    }
}

/// Every line that a region shows stands so in the file, and is marked as changed exactly where it
/// is; between two that it shows with none in between, the lines left out are told.
pub proof fn law_a_region_shows_the_file(
    region: Region,
    noted: Seq<Omission>,
    lines: Seq<Seq<char>>,
    changed: Seq<(usize, usize)>,
    marker: Marker,
    annotation: Option<&str>,
    failed: bool,
    i: int,
)
    requires
        is_region(Some(region), noted, lines, changed, marker, annotation, failed),
        lines.len() < usize::MAX,
        0 <= i < region.lines@.len(),
        forall|k: int|
            0 <= k < changed.len() ==> 1 <= (#[trigger] changed[k]).0 <= changed[k].1
                <= lines.len(),
    ensures
        ({
            let line = region.lines@[i];
            &&& line.number == 0 ==> line.marker == Marker::Gap && noted.len() == 1
            &&& line.number > 0 ==> line.number <= lines.len() && lines[line.number
                - 1].is_prefix_of(line.text@) && (annotation is None ==> line.text@
                == lines[line.number - 1]) && line.marker == (if is_touched(
                line.number as int,
                changed,
            ) {
                marker
            } else {
                Marker::Plain
            })
        }),
{
    let numbers = choose|numbers: Seq<usize>| #[trigger]
        are_shown(numbers, changed, lines.len() as int, failed) && {
            let n = numbers.len() as int;
            &&& n > 0
            &&& region.start == numbers[0]
            &&& region.end == numbers.last()
            &&& lines_are(region.lines@, rows(numbers, n, lines, changed, marker, annotation))
            &&& if gaps(numbers, n).len() == 0 {
                noted.len() == 0
            } else {
                noted.len() == 1 && (noted[0] matches Omission::RegionGap { not_shown, path: None }
                    && not_shown@ == gaps(numbers, n))
            }
        };
    let n = numbers.len() as int;
    let m = lemma_row_is(numbers, n, lines, changed, marker, annotation, i);
    assert(numbers.contains(numbers[m]));
    assert(is_shown(numbers[m] as int, changed, lines.len() as int, failed));
    let row = row_of(numbers[m] as nat, lines, changed, marker, annotation);
    if region.lines@[i].number == 0 {
        lemma_gap_told(numbers, m, n);
    } else {
        assert(row.text.subrange(0, lines[numbers[m] - 1].len() as int) =~= lines[numbers[m] - 1]);
    }
}

proof fn lemma_gap_told(numbers: Seq<usize>, k: int, n: int)
    requires
        0 <= k < n <= numbers.len(),
        follows_gap(numbers, k),
    ensures
        gaps(numbers, n).len() > 0,
    decreases n,
{
    if k < n - 1 {
        lemma_gap_told(numbers, k, n - 1);
    }
}

} // verus!
