//! Hits in context: a small answer prints each hit with what stands round it.
use std::ops::Range;

use vstd::prelude::*;
use vstd::slice::slice_subrange;
use vstd::utf8::*;

use crate::edit::lines::{
    are_starts, lemma_starts_of, line_span, line_starts, lossy, span_of, starts_of,
};
use crate::edit::region::{add_number, add_range, ascending};
use crate::find::args::{FindArgs, Global};
use crate::find::lines::{sink_line, unended};
use crate::output::{copy_line, ByteLimit, ExpandedHits, Line, Marker, Omission};
use crate::text;
use crate::text::byte_len;
use crate::window::{
    cut_long_lines, hit_at, law_a_shown_line_stays_within_the_cap, overlong, shown_bytes,
    LINE_DISPLAY_CAP,
};

verus! {

/// A result this small prints its hits in context: the hit, file, symbol and window limits are
/// sized to the view that would follow it.
pub const EXPAND_MAX_HITS: usize = 10;

pub const EXPAND_MAX_FILES: usize = 3;

/// A symbol outside these lengths gets `EXPAND_AROUND` lines either side of the hit instead: a
/// longer one is a view of its own, and a one- or two-line one adds no context.
pub const EXPAND_SYMBOL_MIN_LINES: usize = 3;

pub const EXPAND_SYMBOL_MAX_LINES: usize = 40;

pub const EXPAND_AROUND: usize = 5;

/// The expansion is never dearer than the view it saves.
pub const EXPAND_MAX_LINES: usize = 80;

/// A larger file is not parsed, so its hits get `EXPAND_AROUND` lines.
pub const EXPAND_PARSE_MAX_BYTES: usize = 131072;

pub const EXPAND_PARSE_MAX_KIB: usize = 128;

/// Whether a file is left unparsed for its size; one in no known language never is parsed anyway.
pub fn is_unparsed(known: bool, bytes: usize) -> (r: bool)
    ensures
        r == (known && bytes > EXPAND_PARSE_MAX_BYTES),
{
    known && bytes > EXPAND_PARSE_MAX_BYTES
}

/// Programs take the hits, not a reader's context; nor does a caller who asked for context of
/// their own.
pub fn expands(args: &FindArgs, global: &Global, hits: usize, files: usize) -> (r: bool)
    ensures
        r == (!(args.no_expand || global.json || global.jsonl) && args.after is None
            && args.before is None && args.context is None && 1 <= hits <= EXPAND_MAX_HITS && files
            <= EXPAND_MAX_FILES),
{
    !(args.no_expand || global.json || global.jsonl) && args.after.is_none()
        && args.before.is_none() && args.context.is_none() && 1 <= hits && hits <= EXPAND_MAX_HITS
        && files <= EXPAND_MAX_FILES
}

/// Line `n` lies in one of the ranges.
pub open spec fn is_covered(covered: Seq<(usize, usize)>, n: int) -> bool {
    exists|i: int| 0 <= i < covered.len() && (#[trigger] covered[i]).0 <= n <= covered[i].1
}

pub fn covers(covered: &Vec<(usize, usize)>, line: usize) -> (r: bool)
    ensures
        r == is_covered(covered@, line as int),
{
    let mut i: usize = 0;
    while i < covered.len()
        invariant
            i <= covered@.len(),
            forall|k: int| 0 <= k < i ==> !((#[trigger] covered@[k]).0 <= line <= covered@[k].1),
        decreases covered@.len() - i,
    {
        let (start, end) = covered[i];
        if start <= line && line <= end {
            assert(covered@[i as int].0 <= line <= covered@[i as int].1);
            return true;
        }
        i = i + 1;
    }
    false
}

/// Line `n` is one of the lines found.
pub open spec fn is_found(lines: Seq<Line>, n: int) -> bool {
    exists|i: int| 0 <= i < lines.len() && (#[trigger] lines[i]).number == n
}

/// The lines stand in the order of their numbers.
pub open spec fn in_order(lines: Seq<Line>) -> bool {
    forall|i: int, j: int| 0 <= i < j < lines.len() ==> lines[i].number < lines[j].number
}

fn find_line(lines: &Vec<Line>, number: usize) -> (r: Option<usize>)
    ensures
        match r {
            Some(i) => i < lines@.len() && lines@[i as int].number == number,
            None => !is_found(lines@, number as int),
        },
{
    let mut i: usize = 0;
    while i < lines.len()
        invariant
            i <= lines@.len(),
            forall|k: int| 0 <= k < i ==> (#[trigger] lines@[k]).number != number,
        decreases lines@.len() - i,
    {
        if lines[i].number == number {
            return Some(i);
        }
        i = i + 1;
    }
    None
}

/// How many lines the file has.
pub open spec fn total_lines(raw: Seq<u8>) -> nat {
    starts_of(raw).len()
}

/// The bytes of line `n`, its line end left out.
pub open spec fn file_line(raw: Seq<u8>, n: int) -> Seq<u8> {
    let (start, end) = span_of(raw, starts_of(raw), n, n);
    unended(raw.subrange(start, end))
}

/// Line `n` as context shows it: decoded, and cut where it is too long.
pub open spec fn context_bytes(raw: Seq<u8>, n: int) -> Seq<u8> {
    shown_bytes(encode_utf8(lossy(file_line(raw, n))), None)
}

/// A line of context, whether it decoded, and whether it was cut.
pub struct ContextLine {
    pub line: Line,
    pub lossy: bool,
    pub cut: usize,
}

/// `line` shows line `n` of the file as context.
pub open spec fn is_context(line: Line, raw: Seq<u8>, n: int) -> bool {
    &&& line.number == n
    &&& line.marker == Marker::Context
    &&& encode_utf8(line.text@) == context_bytes(raw, n)
}

pub fn context_line(raw: &[u8], starts: &Vec<usize>, number: usize) -> (r: ContextLine)
    requires
        are_starts(raw@, starts@),
        1 <= number <= starts@.len(),
    ensures
        is_context(r.line, raw@, number as int),
        r.lossy == !valid_utf8(file_line(raw@, number as int)),
        r.cut == (if byte_len(lossy(file_line(raw@, number as int))) > LINE_DISPLAY_CAP {
            1int
        } else {
            0
        }),
{
    proof {
        lemma_starts_of(raw@, starts@);
    }
    let span = line_span(raw, starts.as_slice(), number, number);
    let (mut line, lost) = sink_line(
        slice_subrange(raw, span.start, span.end),
        None,
        Marker::Context,
    );
    line.number = number;
    let ghost said = line.text@;
    let mut one: Vec<Line> = Vec::new();
    one.push(line);
    let hits: [Option<Range<usize>>; 0] = [];
    let ghost before = one@;
    let cut = cut_long_lines(one.as_mut_slice(), &hits);
    proof {
        assert(hit_at(hits@, 0) is None);
        assert(before.drop_last() =~= Seq::empty());
        reveal_with_fuel(overlong, 2);
        assert(one@[0].number == before[0].number);
    }
    let shown = one.pop();
    match shown {
        Some(line) => ContextLine { line, lossy: lost, cut },
        None => {
            assert(false);
            ContextLine {
                line: Line { number, marker: Marker::Context, text: String::new() },
                lossy: lost,
                cut,
            }
        },
    }
}

/// What showing the lines `start..=end` adds to those covered: the lines, and the bytes of those
/// that are not hits themselves.
pub open spec fn adds(
    lines: Seq<Line>,
    raw: Seq<u8>,
    covered: Seq<(usize, usize)>,
    start: int,
    end: int,
) -> (nat, nat)
    decreases end - start + 1,
{
    if end < start {
        (0, 0)
    } else {
        let (count, bytes) = adds(lines, raw, covered, start, end - 1);
        if is_covered(covered, end) {
            (count, bytes)
        } else if is_found(lines, end) {
            (count + 1, bytes)
        } else {
            (count + 1, bytes + context_bytes(raw, end).len() + 1)
        }
    }
}

proof fn lemma_context_bytes(raw: Seq<u8>, n: int)
    ensures
        context_bytes(raw, n).len() <= LINE_DISPLAY_CAP + 6,
{
    law_a_shown_line_stays_within_the_cap(lossy(file_line(raw, n)), None);
}

/// The lines `range` shows past those already covered, and the bytes they add as rendered: a hit
/// line is in the answer already.
fn added(
    lines: &Vec<Line>,
    raw: &[u8],
    starts: &Vec<usize>,
    covered: &Vec<(usize, usize)>,
    start: usize,
    end: usize,
) -> (r: (usize, usize))
    requires
        are_starts(raw@, starts@),
        1 <= start <= end <= starts@.len(),
        end - start < EXPAND_SYMBOL_MAX_LINES,
    ensures
        (r.0 as nat, r.1 as nat) == adds(lines@, raw@, covered@, start as int, end as int),
{
    let mut count: usize = 0;
    let mut bytes: usize = 0;
    let mut n: usize = start;
    let total = starts.len();
    while n <= end
        invariant
            are_starts(raw@, starts@),
            1 <= start <= n <= end + 1,
            end <= total == starts@.len(),
            end - start < EXPAND_SYMBOL_MAX_LINES,
            count <= n - start,
            bytes <= (n - start) * 1007,
            (count as nat, bytes as nat) == adds(
                lines@,
                raw@,
                covered@,
                start as int,
                n - 1,
            ),
        decreases end + 1 - n,
    {
        proof {
            lemma_context_bytes(raw@, n as int);
        }
        if !covers(covered, n) {
            count = count + 1;
            if find_line(lines, n).is_none() {
                let shown = context_line(raw, starts, n);
                bytes = bytes + (text::len(shown.line.text.as_str()) + 1);
            } else {
                assert(is_found(lines@, n as int));
            }
        }
        if n == end {
            return (count, bytes);
        }
        n = n + 1;
    }
    (count, bytes)
}

/// How far the giving of context has got.
#[verifier::ext_equal]
pub ghost struct Grown {
    pub covered: Seq<(usize, usize)>,
    pub lines_left: nat,
    pub bytes_left: nat,
    pub symbols: nat,
    pub windows: nat,
    pub unparsed: nat,
    pub unexpanded: nat,
    pub over_limit: nat,
}

/// The lines either side of a hit.
pub open spec fn around_of(hit: int, total: int) -> (int, int) {
    (
        if hit > EXPAND_AROUND {
            hit - EXPAND_AROUND
        } else {
            1
        },
        if hit + EXPAND_AROUND <= total {
            hit + EXPAND_AROUND
        } else {
            total
        },
    )
}

/// The symbol that holds a hit, where it is neither too short nor too long to be context.
pub open spec fn symbol_of(symbol: Option<(usize, usize)>, total: int) -> Option<(int, int)> {
    match symbol {
        Some((start, end)) => {
            let last = if end <= total {
                end as int
            } else {
                total
            };
            if EXPAND_SYMBOL_MIN_LINES <= last + 1 - start <= EXPAND_SYMBOL_MAX_LINES {
                Some((start as int, last))
            } else {
                None
            }
        },
        None => None,
    }
}

/// The range fits what is left of both limits.
pub open spec fn fits_in(lines: Seq<Line>, raw: Seq<u8>, grown: Grown, range: (int, int)) -> bool {
    let (count, bytes) = adds(lines, raw, grown.covered, range.0, range.1);
    count <= grown.lines_left && bytes <= grown.bytes_left
}

/// The range is taken.
pub open spec fn taken(lines: Seq<Line>, raw: Seq<u8>, grown: Grown, range: (int, int)) -> Grown {
    let (count, bytes) = adds(lines, raw, grown.covered, range.0, range.1);
    Grown {
        covered: grown.covered.push((range.0 as usize, range.1 as usize)),
        lines_left: (grown.lines_left - count) as nat,
        bytes_left: (grown.bytes_left - bytes) as nat,
        ..grown
    }
}

/// One hit is given its symbol if that fits both limits, else its window if that does, else it
/// stays bare. A hit whose window is its own line alone is left out of every count: nothing could
/// be added.
pub open spec fn grown_by(
    lines: Seq<Line>,
    raw: Seq<u8>,
    grown: Grown,
    hit: int,
    symbol: Option<(usize, usize)>,
    unparsed: bool,
) -> Grown {
    let total = total_lines(raw) as int;
    let around = around_of(hit, total);
    let held = symbol_of(symbol, total);
    if hit == 0 || hit > total || around.0 == around.1 {
        grown
    } else if held is Some && fits_in(lines, raw, grown, held->0) {
        Grown { symbols: grown.symbols + 1, ..taken(lines, raw, grown, held->0) }
    } else if fits_in(lines, raw, grown, around) {
        // A window that is the symbol's own lines would have fitted as the symbol.
        Grown {
            windows: grown.windows + 1,
            unparsed: grown.unparsed + (if unparsed {
                1nat
            } else {
                0nat
            }),
            ..taken(lines, raw, grown, around)
        }
    } else if is_covered(grown.covered, hit) {
        grown
    } else if adds(lines, raw, grown.covered, around.0, around.1).0 > grown.lines_left {
        Grown { unexpanded: grown.unexpanded + 1, ..grown }
    } else {
        Grown { over_limit: grown.over_limit + 1, ..grown }
    }
}

/// The first `n` hits of a file are given context.
pub open spec fn grown_upto(
    lines: Seq<Line>,
    raw: Seq<u8>,
    start: Grown,
    symbols: Seq<Option<(usize, usize)>>,
    unparsed: bool,
    n: int,
) -> Grown
    decreases n,
{
    if n <= 0 {
        start
    } else {
        grown_by(
            lines,
            raw,
            grown_upto(lines, raw, start, symbols, unparsed, n - 1),
            lines[n - 1].number as int,
            symbols[n - 1],
            unparsed,
        )
    }
}

/// The counts of an expansion, over all its files.
#[derive(Debug)]
pub struct Expansion {
    pub long_lines_cut: usize,
    pub symbols: usize,
    pub windows: usize,
    pub unparsed: usize,
    pub unexpanded: usize,
    pub over_limit: usize,
    pub lines_left: usize,
    /// What the limit leaves once every bare hit line is counted.
    pub bytes_left: usize,
    pub limit: ByteLimit,
}

impl Expansion {
    /// Where an expansion stands, with nothing covered of the file at hand.
    pub open spec fn grown(self, covered: Seq<(usize, usize)>) -> Grown {
        Grown {
            covered,
            lines_left: self.lines_left as nat,
            bytes_left: self.bytes_left as nat,
            symbols: self.symbols as nat,
            windows: self.windows as nat,
            unparsed: self.unparsed as nat,
            unexpanded: self.unexpanded as nat,
            over_limit: self.over_limit as nat,
        }
    }

    /// There is room to count `n` more of everything.
    pub open spec fn can_count(self, n: int) -> bool {
        &&& self.symbols + n <= usize::MAX
        &&& self.windows + n <= usize::MAX
        &&& self.unparsed + n <= usize::MAX
        &&& self.unexpanded + n <= usize::MAX
        &&& self.over_limit + n <= usize::MAX
    }

    pub fn new(limit: ByteLimit, bytes_left: usize) -> (r: Expansion)
        ensures
            r.grown(Seq::empty()) == (Grown {
                covered: Seq::empty(),
                lines_left: EXPAND_MAX_LINES as nat,
                bytes_left: bytes_left as nat,
                symbols: 0,
                windows: 0,
                unparsed: 0,
                unexpanded: 0,
                over_limit: 0,
            }),
            r.limit == limit,
            r.long_lines_cut == 0,
    {
        Expansion {
            long_lines_cut: 0,
            symbols: 0,
            windows: 0,
            unparsed: 0,
            unexpanded: 0,
            over_limit: 0,
            lines_left: EXPAND_MAX_LINES,
            bytes_left,
            limit,
        }
    }

    /// What the answer says of its context, where there was any to give.
    pub open spec fn named_of(self) -> Option<Omission> {
        if self.symbols == 0 && self.windows == 0 && self.unexpanded == 0 && self.over_limit == 0 {
            None
        } else {
            Some(
                Omission::Expanded(
                    ExpandedHits {
                        symbols: self.symbols,
                        windows: self.windows,
                        around: EXPAND_AROUND,
                        unparsed: self.unparsed,
                        parse_max_kib: EXPAND_PARSE_MAX_KIB,
                        unexpanded: self.unexpanded,
                        line_cap: EXPAND_MAX_LINES,
                        over_limit: self.over_limit,
                        limit: self.limit,
                    },
                ),
            )
        }
    }

    pub fn named(&self) -> (r: Option<Omission>)
        ensures
            r == self.named_of(),
    {
        if self.symbols == 0 && self.windows == 0 && self.unexpanded == 0 && self.over_limit == 0 {
            return None;
        }
        Some(
            Omission::Expanded(
                ExpandedHits {
                    symbols: self.symbols,
                    windows: self.windows,
                    around: EXPAND_AROUND,
                    unparsed: self.unparsed,
                    parse_max_kib: EXPAND_PARSE_MAX_KIB,
                    unexpanded: self.unexpanded,
                    line_cap: EXPAND_MAX_LINES,
                    over_limit: self.over_limit,
                    limit: self.limit,
                },
            ),
        )
    }

    /// Takes the range if it fits both limits. The second is whether it adds too many lines.
    fn take(
        &mut self,
        lines: &Vec<Line>,
        raw: &[u8],
        starts: &Vec<usize>,
        covered: &mut Vec<(usize, usize)>,
        start: usize,
        end: usize,
    ) -> (r: (bool, bool))
        requires
            are_starts(raw@, starts@),
            1 <= start <= end <= starts@.len(),
            end - start < EXPAND_SYMBOL_MAX_LINES,
        ensures
            ({
                let before = old(self).grown(old(covered)@);
                let range = (start as int, end as int);
                &&& r.0 == fits_in(lines@, raw@, before, range)
                &&& r.1 == (adds(lines@, raw@, before.covered, range.0, range.1).0
                    > before.lines_left)
                &&& final(self).grown(final(covered)@) == (if r.0 {
                    taken(lines@, raw@, before, range)
                } else {
                    before
                })
                &&& final(self).long_lines_cut == old(self).long_lines_cut
                &&& final(self).limit == old(self).limit
            }),
    {
        let (count, bytes) = added(lines, raw, starts, covered, start, end);
        if count <= self.lines_left && bytes <= self.bytes_left {
            self.lines_left = self.lines_left - count;
            self.bytes_left = self.bytes_left - bytes;
            covered.push((start, end));
            (true, false)
        } else {
            (false, count > self.lines_left)
        }
    }

    fn grow(
        &mut self,
        lines: &Vec<Line>,
        raw: &[u8],
        starts: &Vec<usize>,
        covered: &mut Vec<(usize, usize)>,
        hit: usize,
        symbol: Option<(usize, usize)>,
        unparsed: bool,
    )
        requires
            are_starts(raw@, starts@),
            old(self).can_count(1),
            symbol matches Some((start, end)) ==> 1 <= start <= hit <= end < usize::MAX,
        ensures
            final(self).grown(final(covered)@) == grown_by(
                lines@,
                raw@,
                old(self).grown(old(covered)@),
                hit as int,
                symbol,
                unparsed,
            ),
            final(self).long_lines_cut == old(self).long_lines_cut,
            final(self).limit == old(self).limit,
            forall|n: int| #[trigger]
                old(self).can_count(n) && n >= 1 ==> final(self).can_count(n - 1),
            are_within(old(covered)@, starts@.len()) ==> are_within(
                final(covered)@,
                starts@.len(),
            ),
    {
        proof {
            lemma_starts_of(raw@, starts@);
        }
        let total = starts.len();
        if hit == 0 || hit > total {
            return;
        }
        let first = if hit > EXPAND_AROUND {
            hit - EXPAND_AROUND
        } else {
            1
        };
        let last = if total - hit >= EXPAND_AROUND {
            hit + EXPAND_AROUND
        } else {
            total
        };
        if first == last {
            return;
        }
        let ghost before = self.grown(covered@);
        if let Some((start, end)) = symbol {
            let end = if end <= total {
                end
            } else {
                total
            };
            let size = end + 1 - start;
            if EXPAND_SYMBOL_MIN_LINES <= size && size <= EXPAND_SYMBOL_MAX_LINES {
                let (fits, _) = self.take(lines, raw, starts, covered, start, end);
                if fits {
                    self.symbols = self.symbols + 1;
                    return;
                }
            }
        }
        let (fits, over) = self.take(lines, raw, starts, covered, first, last);
        if fits {
            self.windows = self.windows + 1;
            if unparsed {
                self.unparsed = self.unparsed + 1;
            }
        } else if covers(covered, hit) {
        } else if over {
            self.unexpanded = self.unexpanded + 1;
        } else {
            self.over_limit = self.over_limit + 1;
        }
    }
}

/// The ranges lie in a file of `total` lines.
pub open spec fn are_within(covered: Seq<(usize, usize)>, total: nat) -> bool {
    forall|i: int|
        0 <= i < covered.len() ==> 1 <= (#[trigger] covered[i]).0 <= covered[i].1 <= total
}

/// The lines of the ranges.
pub open spec fn lines_of_ranges(covered: Seq<(usize, usize)>) -> Set<int> {
    Set::new(|n: int| is_covered(covered, n))
}

/// The lines `start..=end` that the ranges leave out.
pub open spec fn new_lines(covered: Seq<(usize, usize)>, start: int, end: int) -> Set<int> {
    Set::new(|n: int| start <= n <= end && !is_covered(covered, n))
}

proof fn lemma_adds_count(
    lines: Seq<Line>,
    raw: Seq<u8>,
    covered: Seq<(usize, usize)>,
    start: int,
    end: int,
)
    requires
        start <= end + 1,
    ensures
        new_lines(covered, start, end).finite(),
        new_lines(covered, start, end).len() == adds(lines, raw, covered, start, end).0,
    decreases end - start + 1,
{
    if end < start {
        assert(new_lines(covered, start, end) =~= Set::empty());
    } else {
        lemma_adds_count(lines, raw, covered, start, end - 1);
        let before = new_lines(covered, start, end - 1);
        if is_covered(covered, end) {
            assert(new_lines(covered, start, end) =~= before);
        } else {
            assert(new_lines(covered, start, end) =~= before.insert(end));
        }
    }
}

proof fn lemma_taken(lines: Seq<Line>, raw: Seq<u8>, grown: Grown, range: (int, int))
    requires
        fits_in(lines, raw, grown, range),
        0 <= range.0 <= range.1 <= usize::MAX,
        lines_of_ranges(grown.covered).finite(),
    ensures
        ({
            let after = taken(lines, raw, grown, range);
            &&& lines_of_ranges(after.covered).finite()
            &&& lines_of_ranges(after.covered).len() + after.lines_left == lines_of_ranges(
                grown.covered,
            ).len() + grown.lines_left
        }),
{
    let after = taken(lines, raw, grown, range);
    lemma_adds_count(lines, raw, grown.covered, range.0, range.1);
    let old_lines = lines_of_ranges(grown.covered);
    let more = new_lines(grown.covered, range.0, range.1);
    let all = lines_of_ranges(after.covered);
    assert forall|n: int| all.contains(n) <==> #[trigger] old_lines.union(more).contains(n) by {
        let last = grown.covered.len() as int;
        assert(after.covered[last] == (range.0 as usize, range.1 as usize));
        if is_covered(grown.covered, n) {
            let i = choose|i: int|
                0 <= i < grown.covered.len() && (#[trigger] grown.covered[i]).0 <= n
                    <= grown.covered[i].1;
            assert(after.covered[i] == grown.covered[i]);
        }
        if is_covered(after.covered, n) {
            let i = choose|i: int|
                0 <= i < after.covered.len() && (#[trigger] after.covered[i]).0 <= n
                    <= after.covered[i].1;
            if i < last {
                assert(grown.covered[i] == after.covered[i]);
            }
        }
    }
    assert(all =~= old_lines.union(more));
    assert(old_lines.disjoint(more));
    vstd::set_lib::lemma_set_disjoint_lens(old_lines, more);
}

proof fn lemma_grown_by(
    lines: Seq<Line>,
    raw: Seq<u8>,
    grown: Grown,
    hit: int,
    symbol: Option<(usize, usize)>,
    unparsed: bool,
)
    requires
        lines_of_ranges(grown.covered).finite(),
        total_lines(raw) <= usize::MAX,
        0 <= hit,
        symbol matches Some((start, end)) ==> 1 <= start <= hit <= end,
    ensures
        ({
            let after = grown_by(lines, raw, grown, hit, symbol, unparsed);
            &&& lines_of_ranges(after.covered).finite()
            &&& lines_of_ranges(after.covered).len() + after.lines_left == lines_of_ranges(
                grown.covered,
            ).len() + grown.lines_left
        }),
{
    let total = total_lines(raw) as int;
    let around = around_of(hit, total);
    let held = symbol_of(symbol, total);
    if hit == 0 || hit > total || around.0 == around.1 {
    } else if held is Some && fits_in(lines, raw, grown, held->0) {
        lemma_taken(lines, raw, grown, held->0);
    } else if fits_in(lines, raw, grown, around) {
        lemma_taken(lines, raw, grown, around);
    }
}

/// However many hits are given context, they never add more lines than were left, so no answer
/// gains more than the line limit.
pub proof fn law_context_stays_within_its_lines(
    lines: Seq<Line>,
    raw: Seq<u8>,
    start: Grown,
    symbols: Seq<Option<(usize, usize)>>,
    unparsed: bool,
    n: int,
)
    requires
        0 <= n <= lines.len() == symbols.len(),
        start.covered.len() == 0,
        total_lines(raw) <= usize::MAX,
        forall|i: int|
            0 <= i < symbols.len() ==> ((#[trigger] symbols[i]) matches Some((first, last)) ==> 1
                <= first <= lines[i].number <= last),
    ensures
        ({
            let end = grown_upto(lines, raw, start, symbols, unparsed, n);
            &&& lines_of_ranges(end.covered).finite()
            &&& lines_of_ranges(end.covered).len() + end.lines_left == start.lines_left
            &&& end.bytes_left <= start.bytes_left
        }),
    decreases n,
{
    if n > 0 {
        law_context_stays_within_its_lines(lines, raw, start, symbols, unparsed, n - 1);
        let before = grown_upto(lines, raw, start, symbols, unparsed, n - 1);
        assert(symbols[n - 1] is Some ==> true);
        lemma_grown_by(
            lines,
            raw,
            before,
            lines[n - 1].number as int,
            symbols[n - 1],
            unparsed,
        );
    } else {
        assert(lines_of_ranges(start.covered) =~= Set::empty());
    }
}

/// The context lines among the first `n` shown.
spec fn context_set(numbers: Seq<usize>, lines: Seq<Line>, n: int) -> Set<int>
    decreases n,
{
    if n <= 0 {
        Set::empty()
    } else if is_found(lines, numbers[n - 1] as int) {
        context_set(numbers, lines, n - 1)
    } else {
        context_set(numbers, lines, n - 1).insert(numbers[n - 1] as int)
    }
}

proof fn lemma_context_set(
    numbers: Seq<usize>,
    lines: Seq<Line>,
    raw: Seq<u8>,
    covered: Seq<(usize, usize)>,
    n: int,
)
    requires
        are_numbers(numbers, lines, covered),
        0 <= n <= numbers.len(),
    ensures
        context_set(numbers, lines, n).finite(),
        cut_upto(numbers, lines, raw, n) <= context_set(numbers, lines, n).len(),
        forall|x: int| #[trigger]
            context_set(numbers, lines, n).contains(x) ==> is_covered(covered, x) && exists|i: int|
                0 <= i < n && #[trigger] numbers[i] == x,
    decreases n,
{
    if n > 0 {
        lemma_context_set(numbers, lines, raw, covered, n - 1);
        let number = numbers[n - 1];
        assert(numbers.contains(number));
        let before = context_set(numbers, lines, n - 1);
        if before.contains(number as int) {
            let i = choose|i: int| 0 <= i < n - 1 && #[trigger] numbers[i] == number;
            assert(numbers[i] < numbers[n - 1]);
        }
        assert forall|x: int| #[trigger] context_set(numbers, lines, n).contains(x) implies
            is_covered(covered, x) && exists|i: int| 0 <= i < n && #[trigger] numbers[i] == x by {
            if before.contains(x) {
                let i = choose|i: int| 0 <= i < n - 1 && #[trigger] numbers[i] == x;
                assert(numbers[i] == x);
            } else {
                assert(numbers[n - 1] == x);
            }
        }
    }
}

pub proof fn lemma_cut_within(
    shown: Seq<Line>,
    lost: Seq<usize>,
    cut: nat,
    lines: Seq<Line>,
    raw: Seq<u8>,
    covered: Seq<(usize, usize)>,
)
    requires
        is_rendered(shown, lost, cut, lines, raw, covered),
        lines_of_ranges(covered).finite(),
    ensures
        cut <= lines_of_ranges(covered).len(),
{
    let numbers = choose|numbers: Seq<usize>| #[trigger]
        are_numbers(numbers, lines, covered) && cut == cut_upto(
            numbers,
            lines,
            raw,
            numbers.len() as int,
        );
    let n = numbers.len() as int;
    lemma_context_set(numbers, lines, raw, covered, n);
    let context = context_set(numbers, lines, n);
    assert(context.subset_of(lines_of_ranges(covered)));
    vstd::set_lib::lemma_len_subset(context, lines_of_ranges(covered));
}

/// `numbers` are the lines that are shown: those found and those covered.
pub open spec fn are_numbers(
    numbers: Seq<usize>,
    lines: Seq<Line>,
    covered: Seq<(usize, usize)>,
) -> bool {
    &&& ascending(numbers)
    &&& forall|n: usize| #[trigger]
        numbers.contains(n) <==> is_covered(covered, n as int) || is_found(lines, n as int)
}

/// The context lines among the first `n` shown that did not decode.
pub open spec fn lost_upto(numbers: Seq<usize>, lines: Seq<Line>, raw: Seq<u8>, n: int) -> Seq<usize>
    decreases n,
{
    if n <= 0 {
        Seq::empty()
    } else {
        let number = numbers[n - 1];
        if !is_found(lines, number as int) && !valid_utf8(file_line(raw, number as int)) {
            lost_upto(numbers, lines, raw, n - 1).push(number)
        } else {
            lost_upto(numbers, lines, raw, n - 1)
        }
    }
}

/// How many context lines among the first `n` shown were cut.
pub open spec fn cut_upto(numbers: Seq<usize>, lines: Seq<Line>, raw: Seq<u8>, n: int) -> nat
    decreases n,
{
    if n <= 0 {
        0
    } else {
        let number = numbers[n - 1];
        cut_upto(numbers, lines, raw, n - 1) + (if !is_found(lines, number as int) && byte_len(
            lossy(file_line(raw, number as int)),
        ) > LINE_DISPLAY_CAP {
            1nat
        } else {
            0nat
        })
    }
}

/// What a file's hits are shown as: each found line as it is, and lines of context between.
pub open spec fn is_rendered(
    shown: Seq<Line>,
    lost: Seq<usize>,
    cut: nat,
    lines: Seq<Line>,
    raw: Seq<u8>,
    covered: Seq<(usize, usize)>,
) -> bool {
    exists|numbers: Seq<usize>| #[trigger]
        are_numbers(numbers, lines, covered) && {
            let n = numbers.len() as int;
            &&& shown.len() == n
            &&& forall|i: int|
                0 <= i < n ==> {
                    let line = #[trigger] shown[i];
                    if is_found(lines, numbers[i] as int) {
                        line.number == numbers[i] && lines.contains(line)
                    } else {
                        is_context(line, raw, numbers[i] as int)
                    }
                }
            &&& lost == lost_upto(numbers, lines, raw, n)
            &&& cut == cut_upto(numbers, lines, raw, n)
        }
}

fn shown_numbers(lines: &Vec<Line>, covered: &Vec<(usize, usize)>) -> (numbers: Vec<usize>)
    ensures
        are_numbers(numbers@, lines@, covered@),
{
    let mut numbers: Vec<usize> = Vec::new();
    let mut i: usize = 0;
    while i < covered.len()
        invariant
            i <= covered@.len(),
            ascending(numbers@),
            forall|n: usize| #[trigger]
                numbers@.contains(n) <==> is_covered(covered@.take(i as int), n as int),
        decreases covered@.len() - i,
    {
        let ghost before = numbers@;
        let (start, end) = covered[i];
        add_range(&mut numbers, start, end);
        proof {
            let so_far = covered@.take(i as int);
            let more = covered@.take(i + 1);
            assert forall|n: usize| #[trigger] numbers@.contains(n) <==> is_covered(
                more,
                n as int,
            ) by {
                assert(numbers@.contains(n) <==> before.contains(n) || start <= n <= end);
                if is_covered(so_far, n as int) {
                    let k = choose|k: int|
                        0 <= k < so_far.len() && (#[trigger] so_far[k]).0 <= n <= so_far[k].1;
                    assert(more[k] == so_far[k]);
                }
                if start <= n <= end {
                    assert(more[i as int] == (start, end));
                }
                if is_covered(more, n as int) {
                    let k = choose|k: int|
                        0 <= k < more.len() && (#[trigger] more[k]).0 <= n <= more[k].1;
                    if k < i {
                        assert(so_far[k] == more[k]);
                    }
                }
            }
        }
        i = i + 1;
    }
    assert(covered@.take(i as int) =~= covered@);
    let mut i: usize = 0;
    assert forall|n: usize| #[trigger] numbers@.contains(n) <==> is_covered(covered@, n as int)
        || is_found(lines@.take(0), n as int) by {}
    while i < lines.len()
        invariant
            i <= lines@.len(),
            ascending(numbers@),
            forall|n: usize| #[trigger]
                numbers@.contains(n) <==> is_covered(covered@, n as int) || is_found(
                    lines@.take(i as int),
                    n as int,
                ),
        decreases lines@.len() - i,
    {
        let ghost before = numbers@;
        let number = lines[i].number;
        add_number(&mut numbers, number);
        proof {
            let so_far = lines@.take(i as int);
            let more = lines@.take(i + 1);
            assert forall|n: usize| #[trigger] numbers@.contains(n) <==> is_covered(
                covered@,
                n as int,
            ) || is_found(more, n as int) by {
                assert(numbers@.contains(n) <==> before.contains(n) || n == number);
                if is_found(so_far, n as int) {
                    let k = choose|k: int|
                        0 <= k < so_far.len() && (#[trigger] so_far[k]).number == n;
                    assert(more[k] == so_far[k]);
                }
                if n == number {
                    assert(more[i as int].number == n);
                }
                if is_found(more, n as int) {
                    let k = choose|k: int| 0 <= k < more.len() && (#[trigger] more[k]).number == n;
                    if k < i {
                        assert(so_far[k] == more[k]);
                    }
                }
            }
        }
        i = i + 1;
    }
    assert(lines@.take(i as int) =~= lines@);
    numbers
}

fn render(lines: &Vec<Line>, raw: &[u8], starts: &Vec<usize>, covered: &Vec<(usize, usize)>) -> (r:
    (Vec<Line>, Vec<usize>, usize))
    requires
        are_starts(raw@, starts@),
        are_within(covered@, starts@.len()),
    ensures
        is_rendered(r.0@, r.1@, r.2 as nat, lines@, raw@, covered@),
        r.2 <= r.0@.len(),
{
    let numbers = shown_numbers(lines, covered);
    let mut shown: Vec<Line> = Vec::new();
    let mut lost: Vec<usize> = Vec::new();
    let mut cut: usize = 0;
    let mut i: usize = 0;
    while i < numbers.len()
        invariant
            i <= numbers@.len(),
            are_starts(raw@, starts@),
            are_within(covered@, starts@.len()),
            are_numbers(numbers@, lines@, covered@),
            shown@.len() == i,
            cut <= i,
            forall|k: int|
                0 <= k < i ==> {
                    let line = #[trigger] shown@[k];
                    if is_found(lines@, numbers@[k] as int) {
                        line.number == numbers@[k] && lines@.contains(line)
                    } else {
                        is_context(line, raw@, numbers@[k] as int)
                    }
                },
            lost@ == lost_upto(numbers@, lines@, raw@, i as int),
            cut == cut_upto(numbers@, lines@, raw@, i as int),
        decreases numbers@.len() - i,
    {
        let number = numbers[i];
        match find_line(lines, number) {
            Some(k) => {
                assert(is_found(lines@, number as int));
                let line = copy_line(&lines[k]);
                assert(lines@[k as int] == line);
                shown.push(line);
            },
            None => {
                assert(numbers@.contains(number));
                assert(is_covered(covered@, number as int));
                let context = context_line(raw, starts, number);
                if context.lossy {
                    lost.push(number);
                }
                cut = cut + context.cut;
                shown.push(context.line);
            },
        }
        i = i + 1;
    }
    (shown, lost, cut)
}

impl Expansion {
    /// The hits of one file, with context; the lines of it that did not decode; and how many of
    /// them were cut. `symbols` holds, for each line found, the definition
    /// that holds it; `unparsed` says that the file was too large to look for any.
    pub fn block(
        &mut self,
        lines: &Vec<Line>,
        raw: &[u8],
        symbols: &Vec<Option<(usize, usize)>>,
        unparsed: bool,
    ) -> (r: (Vec<Line>, Vec<usize>, usize))
        requires
            symbols@.len() == lines@.len(),
            old(self).can_count(lines@.len() as int),
            old(self).long_lines_cut + old(self).lines_left <= usize::MAX,
            forall|i: int|
                0 <= i < symbols@.len() ==> ((#[trigger] symbols@[i]) matches Some((start, end))
                    ==> 1 <= start <= lines@[i].number <= end < usize::MAX),
        ensures
            ({
                let end = grown_upto(
                    lines@,
                    raw@,
                    old(self).grown(Seq::empty()),
                    symbols@,
                    unparsed,
                    lines@.len() as int,
                );
                &&& final(self).grown(end.covered) == end
                &&& final(self).limit == old(self).limit
                &&& is_rendered(r.0@, r.1@, r.2 as nat, lines@, raw@, end.covered)
                &&& final(self).long_lines_cut == old(self).long_lines_cut + r.2
            }),
            total_lines(raw@) <= usize::MAX,
    {
        let starts = line_starts(raw);
        proof {
            lemma_starts_of(raw@, starts@);
        }
        let mut covered: Vec<(usize, usize)> = Vec::new();
        let ghost start = self.grown(Seq::empty());
        let ghost had = *self;
        let count = lines.len();
        let total = starts.len();
        let mut i: usize = 0;
        assert(self.grown(covered@) == grown_upto(lines@, raw@, start, symbols@, unparsed, 0));
        assert(lines_of_ranges(covered@) =~= Set::empty());
        while i < lines.len()
            invariant
                i <= lines@.len() == count,
                symbols@.len() == lines@.len(),
                total == starts@.len(),
                are_starts(raw@, starts@),
                self.can_count(count - i),
                self.limit == had.limit,
                self.long_lines_cut == had.long_lines_cut,
                are_within(covered@, starts@.len()),
                self.grown(covered@) == grown_upto(
                    lines@,
                    raw@,
                    start,
                    symbols@,
                    unparsed,
                    i as int,
                ),
                forall|i: int|
                    0 <= i < symbols@.len() ==> ((#[trigger] symbols@[i]) matches Some((start, end))
                        ==> 1 <= start <= lines@[i].number <= end < usize::MAX),
                lines_of_ranges(covered@).finite(),
                lines_of_ranges(covered@).len() + self.lines_left == had.lines_left,
            decreases lines@.len() - i,
        {
            assert(self.can_count(count - i));
            assert(symbols@[i as int] is Some ==> true);
            proof {
                lemma_starts_of(raw@, starts@);
                lemma_grown_by(
                    lines@,
                    raw@,
                    self.grown(covered@),
                    lines@[i as int].number as int,
                    symbols@[i as int],
                    unparsed,
                );
            }
            self.grow(lines, raw, &starts, &mut covered, lines[i].number, symbols[i], unparsed);
            i = i + 1;
        }
        let (shown, lost, cut) = render(lines, raw, &starts, &covered);
        proof {
            lemma_cut_within(shown@, lost@, cut as nat, lines@, raw@, covered@);
        }
        let ghost end = grown_upto(lines@, raw@, start, symbols@, unparsed, lines@.len() as int);
        assert(self.grown(covered@) == end);
        assert(end.covered == covered@);
        self.long_lines_cut = self.long_lines_cut + cut;
        (shown, lost, cut)
    }
}

/// A range of context is round a hit: no further from it than the window reaches, or the lines of
/// the definition that holds it.
pub open spec fn is_round(range: (usize, usize), hit: usize, symbol: Option<(usize, usize)>) -> bool {
    ||| hit - EXPAND_AROUND <= range.0 <= hit <= range.1 <= hit + EXPAND_AROUND
    ||| symbol matches Some((start, end)) && range.0 == start && range.1 <= end
}

/// Context is given round the hits of the file and nowhere else, and each hit that is given any
/// counts once, as given its definition or its window, and each that is not at most once.
pub proof fn law_context_is_round_a_hit(
    lines: Seq<Line>,
    raw: Seq<u8>,
    start: Grown,
    symbols: Seq<Option<(usize, usize)>>,
    unparsed: bool,
    n: int,
)
    requires
        0 <= n <= lines.len() == symbols.len(),
        start.covered.len() == 0,
        total_lines(raw) <= usize::MAX,
    ensures
        ({
            let end = grown_upto(lines, raw, start, symbols, unparsed, n);
            &&& forall|k: int|
                0 <= k < end.covered.len() ==> exists|j: int|
                    0 <= j < n && is_round(
                        #[trigger] end.covered[k],
                        (#[trigger] lines[j]).number,
                        symbols[j],
                    )
            &&& end.covered.len() == (end.symbols - start.symbols) + (end.windows - start.windows)
            &&& start.symbols <= end.symbols && start.windows <= end.windows
            &&& start.unexpanded <= end.unexpanded && start.over_limit <= end.over_limit
            &&& (end.symbols - start.symbols) + (end.windows - start.windows) + (end.unexpanded
                - start.unexpanded) + (end.over_limit - start.over_limit) <= n
        }),
    decreases n,
{
    if n > 0 {
        law_context_is_round_a_hit(lines, raw, start, symbols, unparsed, n - 1);
        let had = grown_upto(lines, raw, start, symbols, unparsed, n - 1);
        let end = grown_upto(lines, raw, start, symbols, unparsed, n);
        assert forall|k: int| 0 <= k < end.covered.len() implies exists|j: int|
            0 <= j < n && is_round(
                #[trigger] end.covered[k],
                (#[trigger] lines[j]).number,
                symbols[j],
            ) by {
            if k < had.covered.len() {
                assert(end.covered[k] == had.covered[k]);
                let j = choose|j: int|
                    0 <= j < n - 1 && is_round(
                        had.covered[k],
                        (#[trigger] lines[j]).number,
                        symbols[j],
                    );
                assert(is_round(end.covered[k], lines[j].number, symbols[j]));
            } else {
                assert(is_round(end.covered[k], lines[n - 1].number, symbols[n - 1]));
            }
        }
    }
}

/// A symbol is context from its first line to its last that the file has, exactly where it is neither
/// too short nor too long for it.
pub proof fn law_a_symbol_of_fair_length_is_context(start: usize, end: usize, total: int)
    ensures
        ({
            let last = if end <= total {
                end as int
            } else {
                total
            };
            let count = last - start + 1;
            match symbol_of(Some((start, end)), total) {
                Some((a, b)) => a == start && b == last && EXPAND_SYMBOL_MIN_LINES <= count
                    && count <= EXPAND_SYMBOL_MAX_LINES,
                None => count < EXPAND_SYMBOL_MIN_LINES || count > EXPAND_SYMBOL_MAX_LINES,
            }
        }),
        symbol_of(None, total) is None,
{
}

/// Of the lines of context, those that did not decode are named and those that were cut are counted;
/// a line that was found is neither here.
pub proof fn law_context_that_was_lost_or_cut_is_told(
    numbers: Seq<usize>,
    lines: Seq<Line>,
    raw: Seq<u8>,
    n: int,
)
    requires
        0 <= n <= numbers.len(),
    ensures
        lost_upto(numbers, lines, raw, n) == numbers.take(n).filter(
            |k: usize| !is_found(lines, k as int) && !valid_utf8(file_line(raw, k as int)),
        ),
        cut_upto(numbers, lines, raw, n) == numbers.take(n).filter(
            |k: usize|
                !is_found(lines, k as int) && byte_len(lossy(file_line(raw, k as int)))
                    > LINE_DISPLAY_CAP,
        ).len(),
    decreases n,
{
    reveal(Seq::filter);
    if n > 0 {
        law_context_that_was_lost_or_cut_is_told(numbers, lines, raw, n - 1);
        assert(numbers.take(n).drop_last() =~= numbers.take(n - 1));
    } else {
        assert(numbers.take(0) =~= Seq::empty());
        assert(lost_upto(numbers, lines, raw, 0) =~= numbers.take(0).filter(
            |k: usize| !is_found(lines, k as int) && !valid_utf8(file_line(raw, k as int)),
        ));
    }
}

} // verus!
