//! What context costs: the bytes that an answer gains are those that were taken off its limit.
use vstd::prelude::*;

use crate::find::expand::{
    adds, are_numbers, are_within, around_of, context_bytes, fits_in, grown_by, grown_upto,
    in_order, is_context, is_covered, is_found, is_rendered, symbol_of, taken, total_lines, Grown,
};
use crate::output::Line;
use crate::window::{line_bytes, lines_bytes};

verus! {

/// What line `n` costs as context: a line that was found costs nothing more.
pub open spec fn weight(
    lines: Seq<Line>,
    raw: Seq<u8>,
    covered: Seq<(usize, usize)>,
    n: int,
) -> nat {
    if is_covered(covered, n) && !is_found(lines, n) {
        context_bytes(raw, n).len() + 1
    } else {
        0
    }
}

/// What the covered lines up to `end` cost as context.
pub open spec fn context_cost(
    lines: Seq<Line>,
    raw: Seq<u8>,
    covered: Seq<(usize, usize)>,
    end: int,
) -> nat
    decreases end,
{
    if end <= 0 {
        0
    } else {
        context_cost(lines, raw, covered, end - 1) + weight(lines, raw, covered, end)
    }
}

/// Nothing between `a` and `b` is covered.
proof fn lemma_cost_gap(
    lines: Seq<Line>,
    raw: Seq<u8>,
    covered: Seq<(usize, usize)>,
    a: int,
    b: int,
)
    requires
        a <= b,
        forall|n: int| a < n <= b ==> !#[trigger] is_covered(covered, n),
    ensures
        context_cost(lines, raw, covered, a) == context_cost(lines, raw, covered, b),
    decreases b - a,
{
    if a < b {
        assert(!is_covered(covered, b));
        lemma_cost_gap(lines, raw, covered, a, b - 1);
    }
}

proof fn lemma_covered_push(covered: Seq<(usize, usize)>, range: (usize, usize), n: int)
    ensures
        is_covered(covered.push(range), n) <==> is_covered(covered, n) || range.0 <= n <= range.1,
{
    let after = covered.push(range);
    assert(after[covered.len() as int] == range);
    if is_covered(covered, n) {
        let i = choose|i: int|
            0 <= i < covered.len() && (#[trigger] covered[i]).0 <= n <= covered[i].1;
        assert(after[i] == covered[i]);
    }
    if is_covered(after, n) {
        let i = choose|i: int| 0 <= i < after.len() && (#[trigger] after[i]).0 <= n <= after[i].1;
        if i < covered.len() {
            assert(covered[i] == after[i]);
        }
    }
}

/// A range costs what it adds.
proof fn lemma_cost_push(
    lines: Seq<Line>,
    raw: Seq<u8>,
    covered: Seq<(usize, usize)>,
    range: (usize, usize),
    end: int,
)
    requires
        1 <= range.0 <= range.1,
    ensures
        context_cost(lines, raw, covered.push(range), end) == context_cost(lines, raw, covered, end)
            + adds(
            lines,
            raw,
            covered,
            range.0 as int,
            if end < range.1 {
                end
            } else {
                range.1 as int
            },
        ).1,
    decreases end,
{
    if end > 0 {
        lemma_cost_push(lines, raw, covered, range, end - 1);
        lemma_covered_push(covered, range, end);
    }
}

proof fn lemma_taken_cost(lines: Seq<Line>, raw: Seq<u8>, grown: Grown, range: (int, int), end: int)
    requires
        fits_in(lines, raw, grown, range),
        1 <= range.0 <= range.1 <= end,
        range.1 <= usize::MAX,
    ensures
        ({
            let after = taken(lines, raw, grown, range);
            context_cost(lines, raw, after.covered, end) + after.bytes_left == context_cost(
                lines,
                raw,
                grown.covered,
                end,
            ) + grown.bytes_left
        }),
{
    lemma_cost_push(
        lines,
        raw,
        grown.covered,
        (range.0 as usize, range.1 as usize),
        end,
    );
}

proof fn lemma_within_push(covered: Seq<(usize, usize)>, range: (usize, usize), total: nat)
    requires
        are_within(covered, total),
        1 <= range.0 <= range.1 <= total,
    ensures
        are_within(covered.push(range), total),
{
}

proof fn lemma_grown_by_cost(
    lines: Seq<Line>,
    raw: Seq<u8>,
    grown: Grown,
    hit: int,
    symbol: Option<(usize, usize)>,
    unparsed: bool,
)
    requires
        total_lines(raw) <= usize::MAX,
        0 <= hit,
        symbol matches Some((start, end)) ==> 1 <= start <= hit <= end,
        are_within(grown.covered, total_lines(raw)),
    ensures
        ({
            let after = grown_by(lines, raw, grown, hit, symbol, unparsed);
            let total = total_lines(raw) as int;
            &&& are_within(after.covered, total_lines(raw))
            &&& context_cost(lines, raw, after.covered, total) + after.bytes_left == context_cost(
                lines,
                raw,
                grown.covered,
                total,
            ) + grown.bytes_left
        }),
{
    let total = total_lines(raw) as int;
    let around = around_of(hit, total);
    let held = symbol_of(symbol, total);
    if hit == 0 || hit > total || around.0 == around.1 {
    } else if held is Some && fits_in(lines, raw, grown, held->0) {
        lemma_taken_cost(lines, raw, grown, held->0, total);
        lemma_within_push(
            grown.covered,
            ((held->0).0 as usize, (held->0).1 as usize),
            total_lines(raw),
        );
    } else if fits_in(lines, raw, grown, around) {
        lemma_taken_cost(lines, raw, grown, around, total);
        lemma_within_push(
            grown.covered,
            (around.0 as usize, around.1 as usize),
            total_lines(raw),
        );
    }
}

/// The symbols are those of the lines: each holds its line.
pub open spec fn are_symbols(lines: Seq<Line>, symbols: Seq<Option<(usize, usize)>>) -> bool {
    &&& symbols.len() == lines.len()
    &&& forall|i: int|
        0 <= i < symbols.len() ==> ((#[trigger] symbols[i]) matches Some((start, end)) ==> 1
            <= start <= lines[i].number <= end < usize::MAX)
}

proof fn lemma_grown_cost(
    lines: Seq<Line>,
    raw: Seq<u8>,
    start: Grown,
    symbols: Seq<Option<(usize, usize)>>,
    unparsed: bool,
    n: int,
)
    requires
        0 <= n <= lines.len(),
        are_symbols(lines, symbols),
        total_lines(raw) <= usize::MAX,
        start.covered.len() == 0,
    ensures
        ({
            let end = grown_upto(lines, raw, start, symbols, unparsed, n);
            let total = total_lines(raw) as int;
            &&& are_within(end.covered, total_lines(raw))
            &&& context_cost(lines, raw, end.covered, total) + end.bytes_left == start.bytes_left
        }),
    decreases n,
{
    if n > 0 {
        lemma_grown_cost(lines, raw, start, symbols, unparsed, n - 1);
        assert(symbols[n - 1] is Some ==> true);
        lemma_grown_by_cost(
            lines,
            raw,
            grown_upto(lines, raw, start, symbols, unparsed, n - 1),
            lines[n - 1].number as int,
            symbols[n - 1],
            unparsed,
        );
    } else {
        assert forall|m: int| 0 < m <= total_lines(raw) implies !#[trigger] is_covered(
            start.covered,
            m,
        ) by {}
        lemma_cost_gap(lines, raw, start.covered, 0, total_lines(raw) as int);
    }
}

/// The number of the last of the first `k` shown lines.
spec fn last_of(numbers: Seq<usize>, k: int) -> int {
    if k <= 0 {
        -1
    } else {
        numbers[k - 1] as int
    }
}

/// How a line of an answer stands to the file and to what was found in it.
spec fn stands_for(line: Line, number: usize, lines: Seq<Line>, raw: Seq<u8>) -> bool {
    if is_found(lines, number as int) {
        line.number == number && lines.contains(line)
    } else {
        is_context(line, raw, number as int)
    }
}

proof fn lemma_shown_bytes(
    shown: Seq<Line>,
    numbers: Seq<usize>,
    lines: Seq<Line>,
    raw: Seq<u8>,
    covered: Seq<(usize, usize)>,
    k: int,
) -> (j: int)
    requires
        0 <= k <= numbers.len() == shown.len(),
        are_numbers(numbers, lines, covered),
        are_within(covered, usize::MAX as nat),
        in_order(lines),
        forall|i: int|
            0 <= i < numbers.len() ==> stands_for(#[trigger] shown[i], numbers[i], lines, raw),
    ensures
        0 <= j <= lines.len(),
        forall|i: int| 0 <= i < j ==> (#[trigger] lines[i]).number <= last_of(numbers, k),
        forall|i: int| j <= i < lines.len() ==> (#[trigger] lines[i]).number > last_of(numbers, k),
        lines_bytes(shown.take(k)) == lines_bytes(lines.take(j)) + context_cost(
            lines,
            raw,
            covered,
            last_of(numbers, k),
        ),
    decreases k,
{
    if k <= 0 {
        assert(shown.take(0) =~= Seq::empty());
        assert(lines.take(0) =~= Seq::empty());
        0
    } else {
        let j = lemma_shown_bytes(shown, numbers, lines, raw, covered, k - 1);
        let h = last_of(numbers, k - 1);
        let number = numbers[k - 1];
        let m = number as int;
        assert(shown.take(k).drop_last() =~= shown.take(k - 1));
        assert(shown.take(k).last() == shown[k - 1]);
        assert(stands_for(shown[k - 1], number, lines, raw));
        assert(h < m) by {
            if k > 1 {
                assert(numbers[k - 2] < numbers[k - 1]);
            }
        }
        // Nothing shown stands between the two numbers, so nothing covered or found does.
        assert forall|n: int| h < n < m implies !#[trigger] is_covered(covered, n) && !is_found(
            lines,
            n,
        ) by {
            if 0 <= n && (is_covered(covered, n) || is_found(lines, n)) {
                assert(numbers.contains(n as usize));
                let i = choose|i: int| 0 <= i < numbers.len() && numbers[i] == n as usize;
                if i < k - 1 {
                    if i < k - 2 {
                        assert(numbers[i] < numbers[k - 2]);
                    }
                } else if i > k - 1 {
                    assert(numbers[k - 1] < numbers[i]);
                }
            }
        }
        if h < m - 1 {
            lemma_cost_gap(lines, raw, covered, h, m - 1);
        }
        assert forall|i: int| j <= i < lines.len() implies (#[trigger] lines[i]).number >= m by {
            if lines[i].number < m {
                let n = lines[i].number as int;
                assert(is_found(lines, n));
                assert(!is_covered(covered, n));
            }
        }
        if is_found(lines, m) {
            let i = choose|i: int| 0 <= i < lines.len() && (#[trigger] lines[i]).number == m;
            if i < j {
                assert(lines[i].number <= h);
            }
            if i > j {
                assert(lines[j].number < lines[i].number);
            }
            assert(i == j);
            let c = choose|c: int| 0 <= c < lines.len() && lines[c] == shown[k - 1];
            if c < j {
                assert(lines[c].number < lines[j].number);
            }
            if c > j {
                assert(lines[j].number < lines[c].number);
            }
            assert(shown[k - 1] == lines[j]);
            assert(lines.take(j + 1).drop_last() =~= lines.take(j));
            assert(lines.take(j + 1).last() == lines[j]);
            assert(weight(lines, raw, covered, m) == 0);
            assert forall|i: int| j + 1 <= i < lines.len() implies (#[trigger] lines[i]).number
                > m by {
                assert(lines[j].number < lines[i].number);
            }
            j + 1
        } else {
            assert(numbers.contains(number));
            assert(is_covered(covered, m));
            assert(line_bytes(shown[k - 1]) == weight(lines, raw, covered, m));
            assert forall|i: int| j <= i < lines.len() implies (#[trigger] lines[i]).number > m by {
                if lines[i].number == m {
                    assert(is_found(lines, m));
                }
            }
            let i = choose|i: int|
                0 <= i < covered.len() && (#[trigger] covered[i]).0 <= m <= covered[i].1;
            assert(m > 0);
            j
        }
    }
}

/// Hits with context weigh what the hits weigh, and what the context was charged: the limit that
/// the context was taken from is never overdrawn, so context can cost no hit its line.
pub proof fn law_context_stays_within_its_bytes(
    shown: Seq<Line>,
    lost: Seq<usize>,
    cut: nat,
    lines: Seq<Line>,
    raw: Seq<u8>,
    start: Grown,
    symbols: Seq<Option<(usize, usize)>>,
    unparsed: bool,
)
    requires
        in_order(lines),
        are_symbols(lines, symbols),
        total_lines(raw) <= usize::MAX,
        start.covered.len() == 0,
        is_rendered(
            shown,
            lost,
            cut,
            lines,
            raw,
            grown_upto(lines, raw, start, symbols, unparsed, lines.len() as int).covered,
        ),
    ensures
        ({
            let end = grown_upto(lines, raw, start, symbols, unparsed, lines.len() as int);
            lines_bytes(shown) + end.bytes_left == lines_bytes(lines) + start.bytes_left
        }),
{
    let n = lines.len() as int;
    let end = grown_upto(lines, raw, start, symbols, unparsed, n);
    let covered = end.covered;
    let total = total_lines(raw) as int;
    lemma_grown_cost(lines, raw, start, symbols, unparsed, n);
    let numbers = choose|numbers: Seq<usize>| #[trigger]
        are_numbers(numbers, lines, covered) && shown.len() == numbers.len() && forall|i: int|
            0 <= i < numbers.len() ==> {
                let line = #[trigger] shown[i];
                if is_found(lines, numbers[i] as int) {
                    line.number == numbers[i] && lines.contains(line)
                } else {
                    is_context(line, raw, numbers[i] as int)
                }
            };
    assert forall|i: int| 0 <= i < numbers.len() implies stands_for(
        #[trigger] shown[i],
        numbers[i],
        lines,
        raw,
    ) by {}
    let k = numbers.len() as int;
    assert(are_within(covered, usize::MAX as nat));
    let j = lemma_shown_bytes(shown, numbers, lines, raw, covered, k);
    let h = last_of(numbers, k);
    assert(shown.take(k) =~= shown);
    assert(j == n) by {
        if j < n {
            let number = lines[j].number;
            assert(is_found(lines, number as int));
            assert(numbers.contains(number));
            let i = choose|i: int| 0 <= i < numbers.len() && numbers[i] == number;
            if i < k - 1 {
                assert(numbers[i] < numbers[k - 1]);
            }
        }
    }
    assert(lines.take(n) =~= lines);
    if h < total {
        assert forall|m: int| h < m <= total implies !#[trigger] is_covered(covered, m) by {
            if 0 <= m && is_covered(covered, m) {
                assert(numbers.contains(m as usize));
                let i = choose|i: int| 0 <= i < numbers.len() && numbers[i] == m as usize;
                if i < k - 1 {
                    assert(numbers[i] < numbers[k - 1]);
                }
            }
        }
        lemma_cost_gap(lines, raw, covered, h, total);
    } else {
        assert forall|m: int| total < m <= h implies !#[trigger] is_covered(covered, m) by {
            if is_covered(covered, m) {
                let i = choose|i: int|
                    0 <= i < covered.len() && (#[trigger] covered[i]).0 <= m <= covered[i].1;
                assert(covered[i].1 <= total);
            }
        }
        lemma_cost_gap(lines, raw, covered, total, h);
    }
}

} // verus!
