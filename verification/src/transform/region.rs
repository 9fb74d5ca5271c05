//! The lines an operation's answer echoes: what was written, what is gone, and what stands next to
//! it.
use vstd::prelude::*;

use crate::edit::region::{add_number, add_range, ascending, gap_row};
use crate::edit::scope::range_name;
use crate::output::{lines_are, Line, Marker, Omission, Region};
use crate::output;
use crate::text;
use crate::text::texts;
use crate::transform::hunk::{living, Row};

verus! {

pub const CONTEXT_LINES: usize = 2;

/// Said after a line that is gone.
pub const DELETED_NOTE: &'static str = "          (deleted)";

/// What the first rows come to: the number of the next line, the lines that changed and how, and
/// the lines that are gone with where they are shown.
pub ghost struct Scan {
    pub number: nat,
    pub changed: Seq<(nat, Marker)>,
    pub deleted: Seq<(nat, Seq<char>)>,
}

/// The first `n` rows. A line that was written as it stood before has not changed.
pub open spec fn scan_upto(rows: Seq<Row>, written: Seq<Seq<char>>, n: int) -> Scan
    decreases n,
{
    if n <= 0 {
        Scan { number: 1, changed: Seq::empty(), deleted: Seq::empty() }
    } else {
        let scan = scan_upto(rows, written, n - 1);
        match rows[n - 1] {
            Row::Kept(_) => Scan { number: scan.number + 1, ..scan },
            Row::Written(None) => Scan {
                number: scan.number + 1,
                changed: scan.changed.push((scan.number, Marker::Added)),
                ..scan
            },
            Row::Written(Some(was)) => Scan {
                number: scan.number + 1,
                changed: if was@ == written[scan.number - 1] {
                    scan.changed
                } else {
                    scan.changed.push((scan.number, Marker::Replaced))
                },
                ..scan
            },
            Row::Gone(was) => Scan {
                deleted: scan.deleted.push((scan.number, was@ + DELETED_NOTE@)),
                ..scan
            },
        }
    }
}

proof fn lemma_scan_number(rows: Seq<Row>, written: Seq<Seq<char>>, n: int)
    requires
        0 <= n <= rows.len(),
    ensures
        scan_upto(rows, written, n).number == living(rows.take(n)).len() + 1,
    decreases n,
{
    if n > 0 {
        lemma_scan_number(rows, written, n - 1);
        assert(rows.take(n).drop_last() =~= rows.take(n - 1));
        assert(rows.take(n).last() == rows[n - 1]);
    } else {
        assert(rows.take(0) =~= Seq::empty());
    }
}

proof fn lemma_living_mono(rows: Seq<Row>, m: int, n: int)
    requires
        0 <= m <= n <= rows.len(),
    ensures
        living(rows.take(m)).len() <= living(rows.take(n)).len(),
    decreases n,
{
    if m < n {
        lemma_living_mono(rows, m, n - 1);
        assert(rows.take(n).drop_last() =~= rows.take(n - 1));
    }
}

/// The rows that were scanned.
struct Scanned {
    changed: Vec<(usize, Marker)>,
    deleted: Vec<(usize, String)>,
}

impl Scanned {
    spec fn is(self, scan: Scan) -> bool {
        &&& self.changed@.len() == scan.changed.len()
        &&& forall|i: int|
            0 <= i < scan.changed.len() ==> (#[trigger] self.changed@[i]).0 == scan.changed[i].0
                && self.changed@[i].1 == scan.changed[i].1
        &&& self.deleted@.len() == scan.deleted.len()
        &&& forall|i: int|
            0 <= i < scan.deleted.len() ==> (#[trigger] self.deleted@[i]).0 == scan.deleted[i].0
                && self.deleted@[i].1@ == scan.deleted[i].1
    }
}

fn scan_rows(rows: &Vec<Row>, written: &Vec<String>) -> (r: Scanned)
    requires
        living(rows@).len() == written@.len(),
        written@.len() < usize::MAX,
    ensures
        r.is(scan_upto(rows@, texts(written@), rows@.len() as int)),
{
    let ghost said = texts(written@);
    let mut out = Scanned { changed: Vec::new(), deleted: Vec::new() };
    let mut number: usize = 1;
    let total = written.len();
    let mut i: usize = 0;
    while i < rows.len()
        invariant
            i <= rows@.len(),
            said == texts(written@),
            total == written@.len() == living(rows@).len(),
            total < usize::MAX,
            number == scan_upto(rows@, said, i as int).number,
            out.is(scan_upto(rows@, said, i as int)),
        decreases rows@.len() - i,
    {
        proof {
            lemma_scan_number(rows@, said, i as int);
            lemma_scan_number(rows@, said, i + 1);
            lemma_living_mono(rows@, i + 1, rows@.len() as int);
            assert(rows@.take(rows@.len() as int) =~= rows@);
        }
        match &rows[i] {
            Row::Kept(_) => {
                number = number + 1;
            },
            Row::Written(was) => {
                assert(number <= total);
                assert(texts(written@)[number - 1] == written@[number - 1]@);
                match was {
                    None => out.changed.push((number, Marker::Added)),
                    Some(was) => {
                        if !text::same(was.as_str(), written[number - 1].as_str()) {
                            out.changed.push((number, Marker::Replaced));
                        }
                    },
                }
                number = number + 1;
            },
            Row::Gone(was) => {
                out.deleted.push((number, was.clone().concat(DELETED_NOTE)));
            },
        }
        i = i + 1;
    }
    out
}

/// Line `n` is shown for a line that changed or that an operation names.
pub open spec fn is_near(n: int, line: int, total: int) -> bool {
    let from = if line - CONTEXT_LINES >= 1 {
        line - CONTEXT_LINES
    } else {
        1
    };
    let to = if line + CONTEXT_LINES <= total {
        line + CONTEXT_LINES
    } else {
        total
    };
    from <= n <= to
}

/// Line `n` is shown for a line that is gone: those above it, and those that now sit there.
pub open spec fn is_near_gone(n: int, line: int, total: int) -> bool {
    let from = if line - CONTEXT_LINES >= 1 {
        line - CONTEXT_LINES
    } else {
        1
    };
    let to = if line + CONTEXT_LINES - 1 <= total {
        line + CONTEXT_LINES - 1
    } else {
        total
    };
    from <= n <= to
}

/// Line `n` of the written file is shown.
pub open spec fn is_in_view(
    n: int,
    changed: Seq<(nat, Marker)>,
    anchors: Seq<usize>,
    deleted: Seq<(nat, Seq<char>)>,
    total: int,
) -> bool {
    ||| exists|i: int| 0 <= i < changed.len() && is_near(n, (#[trigger] changed[i]).0 as int, total)
    ||| exists|i: int| 0 <= i < anchors.len() && is_near(n, (#[trigger] anchors[i]) as int, total)
    ||| exists|i: int|
        0 <= i < deleted.len() && is_near_gone(n, (#[trigger] deleted[i]).0 as int, total)
}

/// A line that is gone is shown at `n`.
pub open spec fn is_gone_at(n: int, deleted: Seq<(nat, Seq<char>)>) -> bool {
    exists|i: int| 0 <= i < deleted.len() && (#[trigger] deleted[i]).0 == n
}

/// `shown` are the lines of the written file that are shown, and `numbers` are all the numbers
/// that are: those, and where lines are gone.
pub open spec fn are_in_view(
    shown: Seq<usize>,
    numbers: Seq<usize>,
    scan: Scan,
    anchors: Seq<usize>,
    total: int,
) -> bool {
    &&& ascending(shown)
    &&& ascending(numbers)
    &&& forall|n: usize| #[trigger]
        shown.contains(n) <==> is_in_view(n as int, scan.changed, anchors, scan.deleted, total)
    &&& forall|n: usize| #[trigger]
        numbers.contains(n) <==> is_in_view(n as int, scan.changed, anchors, scan.deleted, total)
            || is_gone_at(n as int, scan.deleted)
}

/// How a line changed, by the first of the first `n` that say so.
pub open spec fn marker_of(changed: Seq<(nat, Marker)>, number: nat, n: int) -> Marker
    decreases changed.len() - n,
{
    if n >= changed.len() || n < 0 {
        Marker::Plain
    } else if changed[n].0 == number {
        changed[n].1
    } else {
        marker_of(changed, number, n + 1)
    }
}

/// Lines are left out before the `k`-th number. Lines past the end of the written file are no gap.
pub open spec fn follows_gap(numbers: Seq<usize>, k: int, total: int) -> bool {
    k > 0 && numbers[k] > numbers[k - 1] + 1 && numbers[k - 1] < total
}

/// The lines that are left out before the `k`-th number.
pub open spec fn gap_before(numbers: Seq<usize>, k: int, total: int) -> (usize, usize) {
    (
        (numbers[k - 1] + 1) as usize,
        if numbers[k] - 1 <= total {
            (numbers[k] - 1) as usize
        } else {
            total as usize
        },
    )
}

/// The gaps before the first `n` numbers.
pub open spec fn gaps(numbers: Seq<usize>, total: int, n: int) -> Seq<(usize, usize)>
    decreases n,
{
    if n <= 0 {
        Seq::empty()
    } else if follows_gap(numbers, n - 1, total) {
        gaps(numbers, total, n - 1).push(gap_before(numbers, n - 1, total))
    } else {
        gaps(numbers, total, n - 1)
    }
}

/// The rows of those of the first `n` lines that are gone at `number`.
pub open spec fn gone_rows(
    deleted: Seq<(nat, Seq<char>)>,
    number: nat,
    n: int,
) -> Seq<output::Row>
    decreases n,
{
    if n <= 0 {
        Seq::empty()
    } else if deleted[n - 1].0 == number {
        gone_rows(deleted, number, n - 1).push(
            output::Row { number, marker: Marker::Deleted, text: deleted[n - 1].1 },
        )
    } else {
        gone_rows(deleted, number, n - 1)
    }
}

/// The rows at one number: those that are gone there, above the line that now sits there.
pub open spec fn rows_at(
    number: usize,
    shown: Seq<usize>,
    scan: Scan,
    written: Seq<Seq<char>>,
) -> Seq<output::Row> {
    gone_rows(scan.deleted, number as nat, scan.deleted.len() as int) + (if shown.contains(number) {
        seq![
            output::Row {
                number: number as nat,
                marker: marker_of(scan.changed, number as nat, 0),
                text: written[number - 1],
            },
        ]
    } else {
        Seq::empty()
    })
}

/// The rows of the first `n` numbers, with a row for each gap.
pub open spec fn region_rows(
    numbers: Seq<usize>,
    shown: Seq<usize>,
    scan: Scan,
    written: Seq<Seq<char>>,
    n: int,
) -> Seq<output::Row>
    decreases n,
{
    if n <= 0 {
        Seq::empty()
    } else {
        let total = written.len() as int;
        region_rows(numbers, shown, scan, written, n - 1) + (if follows_gap(
            numbers,
            n - 1,
            total,
        ) {
            seq![gap_row(gap_before(numbers, n - 1, total))]
        } else {
            Seq::empty()
        }) + rows_at(numbers[n - 1], shown, scan, written)
    }
}

/// `region` echoes the rows of a file that now says `written`, and `noted` is what it leaves out.
pub open spec fn is_region(
    region: Option<Region>,
    noted: Seq<Omission>,
    written: Seq<Seq<char>>,
    rows: Seq<Row>,
    anchors: Seq<usize>,
) -> bool {
    let scan = scan_upto(rows, written, rows.len() as int);
    let total = written.len() as int;
    exists|shown: Seq<usize>, numbers: Seq<usize>| #[trigger]
        are_in_view(shown, numbers, scan, anchors, total) && {
            let n = numbers.len() as int;
            match region {
                None => n == 0 && noted.len() == 0,
                Some(region) => {
                    &&& n > 0
                    &&& region.start == numbers[0]
                    &&& region.end == numbers.last()
                    &&& lines_are(
                        region.lines@,
                        region_rows(numbers, shown, scan, written, n),
                    )
                    &&& if gaps(numbers, total, n).len() == 0 {
                        noted.len() == 0
                    } else {
                        noted.len() == 1 && (noted[0] matches Omission::RegionGap {
                            not_shown,
                            path: None,
                        } && not_shown@ == gaps(numbers, total, n))
                    }
                },
            }
        }
}

fn near(shown: &mut Vec<usize>, line: usize, below: usize, total: usize)
    requires
        ascending(old(shown)@),
        line + below <= usize::MAX,
    ensures
        ascending(final(shown)@),
        forall|m: usize| #[trigger]
            final(shown)@.contains(m) <==> old(shown)@.contains(m) || (if line - CONTEXT_LINES
                >= 1 {
                line - CONTEXT_LINES
            } else {
                1
            }) <= m <= (if line + below <= total {
                line + below
            } else {
                total as int
            }),
{
    let from = if line > CONTEXT_LINES {
        line - CONTEXT_LINES
    } else {
        1
    };
    let to = if line + below <= total {
        line + below
    } else {
        total
    };
    add_range(shown, from, to);
}

/// Some of the first `n` changed lines are near.
spec fn near_changed(m: int, changed: Seq<(nat, Marker)>, total: int, n: int) -> bool {
    exists|i: int| 0 <= i < n && is_near(m, (#[trigger] changed[i]).0 as int, total)
}

spec fn near_anchor(m: int, anchors: Seq<usize>, total: int, n: int) -> bool {
    exists|i: int| 0 <= i < n && is_near(m, (#[trigger] anchors[i]) as int, total)
}

spec fn near_deleted(m: int, deleted: Seq<(nat, Seq<char>)>, total: int, n: int) -> bool {
    exists|i: int| 0 <= i < n && is_near_gone(m, (#[trigger] deleted[i]).0 as int, total)
}

spec fn gone_among(m: int, deleted: Seq<(nat, Seq<char>)>, n: int) -> bool {
    exists|i: int| 0 <= i < n && (#[trigger] deleted[i]).0 == m
}

/// The numbers can be widened by the context.
pub open spec fn are_small(scan: Scan, anchors: Seq<usize>) -> bool {
    &&& forall|i: int|
        0 <= i < scan.changed.len() ==> (#[trigger] scan.changed[i]).0 + CONTEXT_LINES
            <= usize::MAX
    &&& forall|i: int|
        0 <= i < scan.deleted.len() ==> (#[trigger] scan.deleted[i]).0 + CONTEXT_LINES
            <= usize::MAX
    &&& forall|i: int|
        0 <= i < anchors.len() ==> (#[trigger] anchors[i]) + CONTEXT_LINES <= usize::MAX
}

fn view_written(
    scanned: &Scanned,
    anchors: &Vec<usize>,
    total: usize,
    Ghost(scan): Ghost<Scan>,
) -> (shown: Vec<usize>)
    requires
        scanned.is(scan),
        are_small(scan, anchors@),
    ensures
        ascending(shown@),
        forall|m: usize| #[trigger]
            shown@.contains(m) <==> is_in_view(
                m as int,
                scan.changed,
                anchors@,
                scan.deleted,
                total as int,
            ),
{
    let mut shown: Vec<usize> = Vec::new();
    let mut i: usize = 0;
    while i < scanned.changed.len()
        invariant
            scanned.is(scan),
            are_small(scan, anchors@),
            i <= scanned.changed@.len(),
            ascending(shown@),
            forall|m: usize| #[trigger]
                shown@.contains(m) <==> near_changed(
                    m as int,
                    scan.changed,
                    total as int,
                    i as int,
                ),
        decreases scanned.changed@.len() - i,
    {
        let ghost before = shown@;
        let line = scanned.changed[i].0;
        assert(scan.changed[i as int].0 == line);
        near(&mut shown, line, CONTEXT_LINES, total);
        proof {
            assert forall|m: usize| #[trigger] shown@.contains(m) <==> near_changed(
                m as int,
                scan.changed,
                total as int,
                i + 1,
            ) by {
                assert(shown@.contains(m) <==> before.contains(m) || is_near(
                    m as int,
                    scan.changed[i as int].0 as int,
                    total as int,
                ));
            }
        }
        i = i + 1;
    }
    let mut i: usize = 0;
    while i < anchors.len()
        invariant
            scanned.is(scan),
            are_small(scan, anchors@),
            i <= anchors@.len(),
            ascending(shown@),
            forall|m: usize| #[trigger]
                shown@.contains(m) <==> near_changed(
                    m as int,
                    scan.changed,
                    total as int,
                    scan.changed.len() as int,
                ) || near_anchor(m as int, anchors@, total as int, i as int),
        decreases anchors@.len() - i,
    {
        let ghost before = shown@;
        assert(anchors@[i as int] + CONTEXT_LINES <= usize::MAX);
        near(&mut shown, anchors[i], CONTEXT_LINES, total);
        proof {
            assert forall|m: usize| #[trigger] shown@.contains(m) <==> near_changed(
                m as int,
                scan.changed,
                total as int,
                scan.changed.len() as int,
            ) || near_anchor(m as int, anchors@, total as int, i + 1) by {
                assert(shown@.contains(m) <==> before.contains(m) || is_near(
                    m as int,
                    anchors@[i as int] as int,
                    total as int,
                ));
            }
        }
        i = i + 1;
    }
    let mut i: usize = 0;
    while i < scanned.deleted.len()
        invariant
            scanned.is(scan),
            are_small(scan, anchors@),
            i <= scanned.deleted@.len(),
            ascending(shown@),
            forall|m: usize| #[trigger]
                shown@.contains(m) <==> near_changed(
                    m as int,
                    scan.changed,
                    total as int,
                    scan.changed.len() as int,
                ) || near_anchor(m as int, anchors@, total as int, anchors@.len() as int)
                    || near_deleted(m as int, scan.deleted, total as int, i as int),
        decreases scanned.deleted@.len() - i,
    {
        let ghost before = shown@;
        let line = scanned.deleted[i].0;
        assert(scan.deleted[i as int].0 == line);
        near(&mut shown, line, CONTEXT_LINES - 1, total);
        proof {
            assert forall|m: usize| #[trigger] shown@.contains(m) <==> near_changed(
                m as int,
                scan.changed,
                total as int,
                scan.changed.len() as int,
            ) || near_anchor(m as int, anchors@, total as int, anchors@.len() as int)
                || near_deleted(m as int, scan.deleted, total as int, i + 1) by {
                assert(shown@.contains(m) <==> before.contains(m) || is_near_gone(
                    m as int,
                    scan.deleted[i as int].0 as int,
                    total as int,
                ));
            }
        }
        i = i + 1;
    }
    shown
}

fn view_all(shown: &Vec<usize>, scanned: &Scanned, Ghost(scan): Ghost<Scan>) -> (numbers: Vec<
    usize,
>)
    requires
        scanned.is(scan),
        ascending(shown@),
    ensures
        ascending(numbers@),
        forall|m: usize| #[trigger]
            numbers@.contains(m) <==> shown@.contains(m) || is_gone_at(m as int, scan.deleted),
{
    let mut numbers: Vec<usize> = Vec::new();
    let mut i: usize = 0;
    while i < shown.len()
        invariant
            i <= shown@.len(),
            ascending(shown@),
            numbers@ == shown@.take(i as int),
        decreases shown@.len() - i,
    {
        numbers.push(shown[i]);
        i = i + 1;
        assert(numbers@ =~= shown@.take(i as int));
    }
    assert(numbers@ =~= shown@);
    let mut i: usize = 0;
    while i < scanned.deleted.len()
        invariant
            scanned.is(scan),
            i <= scanned.deleted@.len(),
            ascending(numbers@),
            forall|m: usize| #[trigger]
                numbers@.contains(m) <==> shown@.contains(m) || gone_among(
                    m as int,
                    scan.deleted,
                    i as int,
                ),
        decreases scanned.deleted@.len() - i,
    {
        let ghost before = numbers@;
        let line = scanned.deleted[i].0;
        assert(scan.deleted[i as int].0 == line);
        add_number(&mut numbers, line);
        proof {
            assert forall|m: usize| #[trigger] numbers@.contains(m) <==> shown@.contains(m)
                || gone_among(m as int, scan.deleted, i + 1) by {
                assert(numbers@.contains(m) <==> before.contains(m) || m == line);
            }
        }
        i = i + 1;
    }
    numbers
}

fn holds(numbers: &Vec<usize>, n: usize) -> (r: bool)
    ensures
        r == numbers@.contains(n),
{
    let mut i: usize = 0;
    while i < numbers.len()
        invariant
            i <= numbers@.len(),
            forall|k: int| 0 <= k < i ==> numbers@[k] != n,
        decreases numbers@.len() - i,
    {
        if numbers[i] == n {
            assert(numbers@[i as int] == n);
            return true;
        }
        i = i + 1;
    }
    false
}

fn marker_at(scanned: &Scanned, number: usize, Ghost(scan): Ghost<Scan>) -> (r: Marker)
    requires
        scanned.is(scan),
    ensures
        r == marker_of(scan.changed, number as nat, 0),
{
    let mut i: usize = 0;
    while i < scanned.changed.len()
        invariant
            scanned.is(scan),
            i <= scanned.changed@.len(),
            marker_of(scan.changed, number as nat, 0) == marker_of(
                scan.changed,
                number as nat,
                i as int,
            ),
        decreases scanned.changed@.len() - i,
    {
        assert(scanned.changed@[i as int].0 == scan.changed[i as int].0);
        if scanned.changed[i].0 == number {
            return scanned.changed[i].1;
        }
        i = i + 1;
    }
    Marker::Plain
}

fn push_gone(lines: &mut Vec<Line>, scanned: &Scanned, number: usize, Ghost(scan): Ghost<Scan>, Ghost(
    rows,
): Ghost<Seq<output::Row>>)
    requires
        scanned.is(scan),
        lines_are(old(lines)@, rows),
    ensures
        lines_are(
            final(lines)@,
            rows + gone_rows(scan.deleted, number as nat, scan.deleted.len() as int),
        ),
{
    let mut i: usize = 0;
    assert(rows + gone_rows(scan.deleted, number as nat, 0) =~= rows);
    while i < scanned.deleted.len()
        invariant
            scanned.is(scan),
            i <= scanned.deleted@.len(),
            lines_are(lines@, rows + gone_rows(scan.deleted, number as nat, i as int)),
        decreases scanned.deleted@.len() - i,
    {
        assert(scanned.deleted@[i as int].0 == scan.deleted[i as int].0);
        let ghost so_far = rows + gone_rows(scan.deleted, number as nat, i as int);
        if scanned.deleted[i].0 == number {
            let ghost row = output::Row {
                number: number as nat,
                marker: Marker::Deleted,
                text: scan.deleted[i as int].1,
            };
            lines.push(
                Line { number, marker: Marker::Deleted, text: scanned.deleted[i].1.clone() },
            );
            assert(rows + gone_rows(scan.deleted, number as nat, i + 1) =~= so_far.push(row));
        }
        i = i + 1;
    }
}

/// A row that is gone shares its number with the written line now there, and is shown just above
/// it. `anchors` are shown even where an operation left its line's bytes as they were.
pub fn region(
    written: &Vec<String>,
    rows: &Vec<Row>,
    anchors: &Vec<usize>,
    omitted: &mut Vec<Omission>,
) -> (r: Option<Region>)
    requires
        living(rows@).len() == written@.len(),
        written@.len() + CONTEXT_LINES < usize::MAX,
        forall|i: int|
            0 <= i < anchors@.len() ==> (#[trigger] anchors@[i]) + CONTEXT_LINES <= usize::MAX,
    ensures
        final(omitted)@.len() >= old(omitted)@.len(),
        final(omitted)@.take(old(omitted)@.len() as int) == old(omitted)@,
        is_region(
            r,
            final(omitted)@.skip(old(omitted)@.len() as int),
            texts(written@),
            rows@,
            anchors@,
        ),
{
    let ghost noted = omitted@;
    let ghost said = texts(written@);
    let ghost scan = scan_upto(rows@, said, rows@.len() as int);
    let total = written.len();
    let scanned = scan_rows(rows, written);
    proof {
        lemma_scan_bounds(rows@, said, rows@.len() as int);
        assert(rows@.take(rows@.len() as int) =~= rows@);
    }
    let shown = view_written(&scanned, anchors, total, Ghost(scan));
    let numbers = view_all(&shown, &scanned, Ghost(scan));
    assert(omitted@.take(noted.len() as int) =~= noted);
    assert(omitted@.skip(noted.len() as int) =~= Seq::empty());
    assert(said.len() == total);
    assert(are_in_view(shown@, numbers@, scan, anchors@, said.len() as int));
    if numbers.len() == 0 {
        return None;
    }
    let mut not_shown: Vec<(usize, usize)> = Vec::new();
    let mut lines: Vec<Line> = Vec::new();
    let mut i: usize = 0;
    while i < numbers.len()
        invariant
            i <= numbers@.len(),
            scanned.is(scan),
            said == texts(written@),
            total == written@.len() == said.len(),
            are_in_view(shown@, numbers@, scan, anchors@, total as int),
            not_shown@ == gaps(numbers@, total as int, i as int),
            lines_are(lines@, region_rows(numbers@, shown@, scan, said, i as int)),
        decreases numbers@.len() - i,
    {
        let number = numbers[i];
        let ghost mut so_far = region_rows(numbers@, shown@, scan, said, i as int);
        if i > 0 {
            let previous = numbers[i - 1];
            assert(numbers@[i - 1] < numbers@[i as int]);
            if number > previous + 1 && previous < total {
                let from = previous + 1;
                let to = if number - 1 <= total {
                    number - 1
                } else {
                    total
                };
                not_shown.push((from, to));
                lines.push(
                    Line {
                        number: 0,
                        marker: Marker::Gap,
                        text: range_name(from, to).concat(" not shown"),
                    },
                );
                proof {
                    so_far = so_far.push(gap_row((from, to)));
                }
            }
        }
        push_gone(&mut lines, &scanned, number, Ghost(scan), Ghost(so_far));
        proof {
            so_far = so_far + gone_rows(scan.deleted, number as nat, scan.deleted.len() as int);
        }
        if holds(&shown, number) {
            proof {
                assert(shown@.contains(number));
                assert(is_in_view(number as int, scan.changed, anchors@, scan.deleted, total as int));
                assert(texts(written@)[number - 1] == written@[number - 1]@);
            }
            let marker = marker_at(&scanned, number, Ghost(scan));
            lines.push(Line { number, marker, text: written[number - 1].clone() });
            proof {
                so_far = so_far.push(
                    output::Row { number: number as nat, marker, text: said[number - 1] },
                );
            }
        }
        proof {
            assert(region_rows(numbers@, shown@, scan, said, i + 1) =~= so_far);
        }
        i = i + 1;
    }
    let start = numbers[0];
    let end = numbers[numbers.len() - 1];
    if not_shown.len() > 0 {
        omitted.push(Omission::RegionGap { not_shown, path: None });
        assert(omitted@.take(noted.len() as int) =~= noted);
        assert(omitted@.skip(noted.len() as int) =~= seq![omitted@.last()]);
    }
    Some(Region { start, end, lines })
}

proof fn lemma_scan_bounds(rows: Seq<Row>, written: Seq<Seq<char>>, n: int)
    requires
        0 <= n <= rows.len(),
    ensures
        forall|i: int|
            0 <= i < scan_upto(rows, written, n).changed.len() ==> (#[trigger] scan_upto(
                rows,
                written,
                n,
            ).changed[i]).0 <= living(rows.take(n)).len() + 1,
        forall|i: int|
            0 <= i < scan_upto(rows, written, n).deleted.len() ==> (#[trigger] scan_upto(
                rows,
                written,
                n,
            ).deleted[i]).0 <= living(rows.take(n)).len() + 1,
    decreases n,
{
    if n > 0 {
        lemma_scan_bounds(rows, written, n - 1);
        lemma_scan_number(rows, written, n - 1);
        lemma_living_mono(rows, n - 1, n);
        let before = scan_upto(rows, written, n - 1);
        let after = scan_upto(rows, written, n);
        assert forall|i: int| 0 <= i < after.changed.len() implies (#[trigger] after.changed[i]).0
            <= living(rows.take(n)).len() + 1 by {
            if i < before.changed.len() {
                assert(after.changed[i] == before.changed[i]);
            }
        }
        assert forall|i: int| 0 <= i < after.deleted.len() implies (#[trigger] after.deleted[i]).0
            <= living(rows.take(n)).len() + 1 by {
            if i < before.deleted.len() {
                assert(after.deleted[i] == before.deleted[i]);
            }
        }
    }
}

/// The region holds a line of that number, marker and text.
pub open spec fn echoes(
    region: Option<Region>,
    number: nat,
    marker: Marker,
    text: Seq<char>,
) -> bool {
    region is Some && exists|i: int|
        0 <= i < (region->0).lines@.len() && (#[trigger] (region->0).lines@[i]).number == number
            && (region->0).lines@[i].marker == marker && (region->0).lines@[i].text@ == text
}

proof fn lemma_living_is(rows: Seq<Row>)
    ensures
        living(rows) == rows.filter(|row: Row| row !is Gone),
    decreases rows.len(),
{
    reveal(Seq::filter);
    if rows.len() > 0 {
        lemma_living_is(rows.drop_last());
    }
}

proof fn lemma_scan_order(rows: Seq<Row>, written: Seq<Seq<char>>, n: int)
    requires
        0 <= n <= rows.len(),
    ensures
        ({
            let scan = scan_upto(rows, written, n);
            &&& forall|i: int|
                0 <= i < scan.changed.len() ==> 1 <= (#[trigger] scan.changed[i]).0 < scan.number
            &&& forall|i: int, j: int|
                0 <= i < j < scan.changed.len() ==> (#[trigger] scan.changed[i]).0 < (
                #[trigger] scan.changed[j]).0
            &&& scan.number >= 1
        }),
    decreases n,
{
    if n > 0 {
        lemma_scan_order(rows, written, n - 1);
    }
}

proof fn lemma_scan_has(rows: Seq<Row>, written: Seq<Seq<char>>, r: int, n: int)
    requires
        0 <= r < n <= rows.len(),
    ensures
        ({
            let scan = scan_upto(rows, written, n);
            let number = living(rows.take(r)).len() + 1;
            match rows[r] {
                Row::Kept(_) => true,
                Row::Written(None) => scan.changed.contains((number, Marker::Added)),
                Row::Written(Some(was)) => was@ != written[number - 1] ==> scan.changed.contains(
                    (number, Marker::Replaced),
                ),
                Row::Gone(was) => scan.deleted.contains((number, was@ + DELETED_NOTE@)),
            }
        }),
    decreases n,
{
    let (had, scan) = (scan_upto(rows, written, n - 1), scan_upto(rows, written, n));
    if r == n - 1 {
        lemma_scan_number(rows, written, r);
        if scan.changed.len() > had.changed.len() {
            assert(scan.changed[had.changed.len() as int] == scan.changed.last());
        }
        if scan.deleted.len() > had.deleted.len() {
            assert(scan.deleted[had.deleted.len() as int] == scan.deleted.last());
        }
    } else {
        lemma_scan_has(rows, written, r, n - 1);
        assert forall|one: (nat, Marker)| #[trigger] had.changed.contains(
            one,
        ) implies scan.changed.contains(one) by {
            let j = choose|j: int| 0 <= j < had.changed.len() && had.changed[j] == one;
            assert(scan.changed[j] == one);
        }
        assert forall|one: (nat, Seq<char>)| #[trigger] had.deleted.contains(
            one,
        ) implies scan.deleted.contains(one) by {
            let j = choose|j: int| 0 <= j < had.deleted.len() && had.deleted[j] == one;
            assert(scan.deleted[j] == one);
        }
    }
}

proof fn lemma_marker_is(changed: Seq<(nat, Marker)>, i: int, n: int)
    requires
        0 <= n <= i < changed.len(),
        forall|a: int, b: int|
            0 <= a < b < changed.len() ==> (#[trigger] changed[a]).0 < (#[trigger] changed[b]).0,
    ensures
        marker_of(changed, changed[i].0, n) == changed[i].1,
    decreases i - n,
{
    if n < i {
        assert(changed[n].0 < changed[i].0);
        lemma_marker_is(changed, i, n + 1);
    }
}

proof fn lemma_gone_row(deleted: Seq<(nat, Seq<char>)>, i: int, n: int)
    requires
        0 <= i < n <= deleted.len(),
    ensures
        gone_rows(deleted, deleted[i].0, n).contains(
            output::Row { number: deleted[i].0, marker: Marker::Deleted, text: deleted[i].1 },
        ),
    decreases n,
{
    let number = deleted[i].0;
    let (had, all) = (gone_rows(deleted, number, n - 1), gone_rows(deleted, number, n));
    let row = output::Row { number, marker: Marker::Deleted, text: deleted[i].1 };
    if i == n - 1 {
        assert(all[all.len() - 1] == row);
    } else {
        lemma_gone_row(deleted, i, n - 1);
        let j = choose|j: int| 0 <= j < had.len() && had[j] == row;
        assert(all[j] == row);
    }
}

proof fn lemma_region_row(
    numbers: Seq<usize>,
    shown: Seq<usize>,
    scan: Scan,
    written: Seq<Seq<char>>,
    k: int,
    n: int,
    row: output::Row,
)
    requires
        0 <= k < n <= numbers.len(),
        rows_at(numbers[k], shown, scan, written).contains(row),
    ensures
        region_rows(numbers, shown, scan, written, n).contains(row),
    decreases n,
{
    let had = region_rows(numbers, shown, scan, written, n - 1);
    let all = region_rows(numbers, shown, scan, written, n);
    let at = rows_at(numbers[n - 1], shown, scan, written);
    if k == n - 1 {
        let j = choose|j: int| 0 <= j < at.len() && at[j] == row;
        assert(all[all.len() - at.len() + j] == row);
    } else {
        lemma_region_row(numbers, shown, scan, written, k, n - 1, row);
        let j = choose|j: int| 0 <= j < had.len() && had[j] == row;
        assert(all[j] == row);
    }
}

proof fn lemma_echoed(
    region: Option<Region>,
    numbers: Seq<usize>,
    shown: Seq<usize>,
    scan: Scan,
    written: Seq<Seq<char>>,
    number: usize,
    row: output::Row,
)
    requires
        region is Some,
        lines_are(
            (region->0).lines@,
            region_rows(numbers, shown, scan, written, numbers.len() as int),
        ),
        numbers.contains(number),
        rows_at(number, shown, scan, written).contains(row),
    ensures
        echoes(region, row.number, row.marker, row.text),
{
    let n = numbers.len() as int;
    let k = choose|k: int| 0 <= k < numbers.len() && numbers[k] == number;
    lemma_region_row(numbers, shown, scan, written, k, n, row);
    let all = region_rows(numbers, shown, scan, written, n);
    let i = choose|i: int| 0 <= i < all.len() && all[i] == row;
    assert((region->0).lines@[i].is(all[i]));
}

/// Each line that an operation wrote, rewrote or removed is echoed as such: a line that was written
/// under its number with what it says now, and one that is gone where it stood with what it said.
pub proof fn law_each_change_is_echoed(
    region: Option<Region>,
    noted: Seq<Omission>,
    written: Seq<Seq<char>>,
    rows: Seq<Row>,
    anchors: Seq<usize>,
    r: int,
)
    requires
        is_region(region, noted, written, rows, anchors),
        rows.filter(|row: Row| row !is Gone).len() == written.len(),
        written.len() < usize::MAX,
        0 <= r < rows.len(),
    ensures
        ({
            let number = rows.take(r).filter(|row: Row| row !is Gone).len() + 1;
            match rows[r] {
                Row::Kept(_) => true,
                Row::Written(None) => echoes(region, number, Marker::Added, written[number - 1]),
                Row::Written(Some(was)) => was@ != written[number - 1] ==> echoes(
                    region,
                    number,
                    Marker::Replaced,
                    written[number - 1],
                ),
                Row::Gone(was) => echoes(
                    region,
                    number,
                    Marker::Deleted,
                    was@ + "          (deleted)"@,
                ),
            }
        }),
{
    let n = rows.len() as int;
    let scan = scan_upto(rows, written, n);
    let total = written.len() as int;
    lemma_living_is(rows);
    lemma_living_is(rows.take(r));
    assert(rows.take(n) =~= rows);
    lemma_living_mono(rows, r, n);
    lemma_scan_has(rows, written, r, n);
    lemma_scan_order(rows, written, n);
    let number = living(rows.take(r)).len() + 1;
    if rows[r] !is Gone {
        assert(rows.take(r + 1).drop_last() =~= rows.take(r));
        assert(living(rows.take(r + 1)).len() == number);
        lemma_living_mono(rows, r + 1, n);
    }
    let (shown, numbers) = choose|shown: Seq<usize>, numbers: Seq<usize>| #[trigger]
        are_in_view(shown, numbers, scan, anchors, total) && {
            let n = numbers.len() as int;
            match region {
                None => n == 0 && noted.len() == 0,
                Some(region) => {
                    &&& n > 0
                    &&& region.start == numbers[0]
                    &&& region.end == numbers.last()
                    &&& lines_are(
                        region.lines@,
                        region_rows(numbers, shown, scan, written, n),
                    )
                    &&& if gaps(numbers, total, n).len() == 0 {
                        noted.len() == 0
                    } else {
                        noted.len() == 1 && (noted[0] matches Omission::RegionGap {
                            not_shown,
                            path: None,
                        } && not_shown@ == gaps(numbers, total, n))
                    }
                },
            }
        };
    let at = number as usize;
    let here = rows_at(at, shown, scan, written);
    match rows[r] {
        Row::Kept(_) => {},
        Row::Written(was) => {
            let marker = if was is None {
                Marker::Added
            } else {
                Marker::Replaced
            };
            if was is None || (was->0)@ != written[number - 1] {
                let i = choose|i: int|
                    0 <= i < scan.changed.len() && scan.changed[i] == (number, marker);
                assert(is_near(at as int, scan.changed[i].0 as int, total));
                assert(is_in_view(at as int, scan.changed, anchors, scan.deleted, total));
                assert(shown.contains(at) && numbers.contains(at));
                lemma_marker_is(scan.changed, i, 0);
                let row = output::Row { number, marker, text: written[number - 1] };
                assert(here[here.len() - 1] == row);
                lemma_echoed(region, numbers, shown, scan, written, at, row);
            }
        },
        Row::Gone(was) => {
            let text = was@ + DELETED_NOTE@;
            let i = choose|i: int|
                0 <= i < scan.deleted.len() && scan.deleted[i] == (number, text);
            assert(is_gone_at(at as int, scan.deleted));
            assert(numbers.contains(at));
            lemma_gone_row(scan.deleted, i, scan.deleted.len() as int);
            let row = output::Row { number, marker: Marker::Deleted, text };
            let gone = gone_rows(scan.deleted, number, scan.deleted.len() as int);
            let j = choose|j: int| 0 <= j < gone.len() && gone[j] == row;
            assert(here[j] == row);
            lemma_echoed(region, numbers, shown, scan, written, at, row);
        },
    }
}

/// The two lines above and below each line that an operation names are echoed too, with what they
/// say.
pub proof fn law_what_stands_next_to_an_operation_is_echoed(
    region: Option<Region>,
    noted: Seq<Omission>,
    written: Seq<Seq<char>>,
    rows: Seq<Row>,
    anchors: Seq<usize>,
    a: int,
    number: nat,
)
    requires
        is_region(region, noted, written, rows, anchors),
        written.len() < usize::MAX,
        0 <= a < anchors.len(),
        1 <= number <= written.len(),
        anchors[a] - 2 <= number <= anchors[a] + 2,
    ensures
        exists|marker: Marker| #[trigger] echoes(region, number, marker, written[number - 1]),
{
    let scan = scan_upto(rows, written, rows.len() as int);
    let total = written.len() as int;
    let (shown, numbers) = choose|shown: Seq<usize>, numbers: Seq<usize>| #[trigger]
        are_in_view(shown, numbers, scan, anchors, total) && {
            let n = numbers.len() as int;
            match region {
                None => n == 0 && noted.len() == 0,
                Some(region) => {
                    &&& n > 0
                    &&& region.start == numbers[0]
                    &&& region.end == numbers.last()
                    &&& lines_are(
                        region.lines@,
                        region_rows(numbers, shown, scan, written, n),
                    )
                    &&& if gaps(numbers, total, n).len() == 0 {
                        noted.len() == 0
                    } else {
                        noted.len() == 1 && (noted[0] matches Omission::RegionGap {
                            not_shown,
                            path: None,
                        } && not_shown@ == gaps(numbers, total, n))
                    }
                },
            }
        };
    let at = number as usize;
    assert(is_near(at as int, anchors[a] as int, total));
    assert(is_in_view(at as int, scan.changed, anchors, scan.deleted, total));
    assert(shown.contains(at) && numbers.contains(at));
    let here = rows_at(at, shown, scan, written);
    let marker = marker_of(scan.changed, number, 0);
    let row = output::Row { number, marker, text: written[number - 1] };
    assert(here[here.len() - 1] == row);
    lemma_echoed(region, numbers, shown, scan, written, at, row);
}

/// A gap names the lines that stand between two that are echoed, as far as the file goes.
pub proof fn law_a_gap_names_the_lines_left_out(numbers: Seq<usize>, k: int, total: int)
    requires
        0 < k < numbers.len(),
        follows_gap(numbers, k, total),
        0 <= total <= usize::MAX,
    ensures
        ({
            let (first, last) = gap_before(numbers, k, total);
            &&& first == numbers[k - 1] + 1
            &&& first <= last <= total
            &&& last < numbers[k]
            &&& last == numbers[k] - 1 || last == total
        }),
{
}

} // verus!
