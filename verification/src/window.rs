//! How much of a file an answer may hold: which lines, how long a line, how many bytes in all.
use std::ops::Range;

use vstd::prelude::*;
use vstd::utf8::*;

use crate::output::{Line, Omission, Span, TargetBlock};
use crate::text;
use crate::text::{byte_len, ceil_boundary, floor_boundary};

verus! {

/// Always `1 <= start <= end <= total`; a file with no lines has no `Bounds`, hence `Option`.
#[derive(Debug, Clone, Copy, PartialEq, Eq, Structural)]
pub struct Bounds {
    pub start: usize,
    pub end: usize,
}

impl Bounds {
    /// The lines lie in a file of `total` lines.
    pub open spec fn within(self, total: int) -> bool {
        1 <= self.start <= self.end <= total
    }

    /// A part of a file of `total` lines, where it is one.
    pub fn checked(start: usize, end: usize, total: usize) -> (r: Option<Bounds>)
        ensures
            match r {
                Some(b) => b.within(total as int) && b.start == start && b.end == end,
                None => !(1 <= start <= end <= total),
            },
    {
        if start >= 1 && start <= end && end <= total {
            Some(Bounds { start, end })
        } else {
            None
        }
    }
}

/// The first `size` lines of a file of `total`, and what that leaves out.
pub fn window(total: usize, size: usize) -> (r: (Option<Bounds>, Option<Omission>))
    ensures
        match r.0 {
            Some(b) => b.within(total as int) && b.start == 1 && b.end == (if total <= size {
                total
            } else {
                size
            }),
            None => total == 0 || size == 0,
        },
        r.1 == (if total <= size {
            None::<Omission>
        } else {
            Some(Omission::Window { shown: (1, size), total })
        }),
{
    if total <= size {
        return (Bounds::checked(1, total, total), None);
    }
    (Bounds::checked(1, size, total), Some(Omission::Window { shown: (1, size), total }))
}

/// `center` with up to `before` lines above it and `after` below, where the file has them.
pub fn context(center: usize, before: usize, after: usize, total: usize) -> (r: Option<Bounds>)
    requires
        1 <= center <= total ==> center + after <= usize::MAX,
    ensures
        match r {
            Some(b) => {
                &&& b.within(total as int)
                &&& b.start == (if center - before >= 1 {
                    center - before
                } else {
                    1
                })
                &&& b.end == (if center + after <= total {
                    center + after
                } else {
                    total as int
                })
                &&& b.start <= center <= b.end
            },
            None => center == 0 || center > total,
        },
{
    if center == 0 || center > total {
        return None;
    }
    let start = if center > before {
        center - before
    } else {
        1
    };
    let end = if center + after <= total {
        center + after
    } else {
        total
    };
    Bounds::checked(start, end, total)
}

/// The lines from the lesser of `a` and `b` to the greater, cut at the end of the file.
pub fn range(a: usize, b: usize, total: usize) -> (r: Option<Bounds>)
    ensures
        ({
            let low = if a <= b { a } else { b };
            let high = if a <= b { b } else { a };
            match r {
                Some(found) => {
                    &&& found.within(total as int)
                    &&& found.start == low
                    &&& found.end == (if high <= total { high } else { total })
                },
                None => low == 0 || low > total,
            }
        }),
{
    let (start, end) = if a > b {
        (b, a)
    } else {
        (a, b)
    };
    Bounds::checked(
        start,
        if end <= total {
            end
        } else {
            total
        },
        total,
    )
}

/// One minified line must not flood the context, or push a search into being refused, alone.
pub const LINE_DISPLAY_CAP: usize = 1000;

pub const HIT_CONTEXT_BYTES: usize = 200;

const CUT_MARK: char = '\u{2026}';

/// The encoding of the mark that stands for what a cut took away.
pub open spec fn mark_bytes() -> Seq<u8> {
    encode_utf8(seq!['\u{2026}'])
}

/// `hit` names a part of a text with these bytes.
pub open spec fn is_part(bytes: Seq<u8>, hit: Range<usize>) -> bool {
    &&& hit.start <= hit.end <= bytes.len()
    &&& is_char_boundary(bytes, hit.start as int)
    &&& is_char_boundary(bytes, hit.end as int)
}

/// The bytes that a hit keeps: itself and its surroundings, at most the cap from its start.
pub open spec fn hit_bounds(bytes: Seq<u8>, hit: Range<usize>) -> (int, int) {
    let from = if hit.start > HIT_CONTEXT_BYTES {
        hit.start - HIT_CONTEXT_BYTES
    } else {
        0
    };
    let start = ceil_boundary(bytes, from);
    let end = floor_boundary(bytes, hit.end + HIT_CONTEXT_BYTES);
    if end - start > LINE_DISPLAY_CAP {
        (start, floor_boundary(bytes, start + LINE_DISPLAY_CAP))
    } else {
        (start, end)
    }
}

/// The bytes of an overlong line that are kept.
pub open spec fn kept_bounds(bytes: Seq<u8>, hit: Option<Range<usize>>) -> (int, int) {
    if hit is Some && is_part(bytes, hit->0) {
        hit_bounds(bytes, hit->0)
    } else {
        (0, floor_boundary(bytes, LINE_DISPLAY_CAP as int))
    }
}

/// A line as it is shown: whole up to the cap, else its kept part with a mark at each cut.
pub open spec fn shown_bytes(bytes: Seq<u8>, hit: Option<Range<usize>>) -> Seq<u8> {
    if bytes.len() <= LINE_DISPLAY_CAP {
        bytes
    } else {
        let (start, end) = kept_bounds(bytes, hit);
        let head = if start > 0 {
            mark_bytes()
        } else {
            seq![]
        };
        let tail = if end < bytes.len() {
            mark_bytes()
        } else {
            seq![]
        };
        head + bytes.subrange(start, end) + tail
    }
}

/// The first match span of line `i`, if one was given.
pub open spec fn hit_at(hits: Seq<Option<Range<usize>>>, i: int) -> Option<Range<usize>> {
    if 0 <= i < hits.len() {
        hits[i]
    } else {
        None
    }
}

/// How many of `lines` are over the cap.
pub open spec fn overlong(lines: Seq<Line>) -> nat
    decreases lines.len(),
{
    if lines.len() == 0 {
        0
    } else {
        overlong(lines.drop_last()) + (if byte_len(lines.last().text@) > LINE_DISPLAY_CAP {
            1nat
        } else {
            0nat
        })
    }
}

proof fn lemma_hit_bounds(bytes: Seq<u8>, hit: Range<usize>)
    requires
        valid_utf8(bytes),
        is_part(bytes, hit),
    ensures
        ({
            let (start, end) = hit_bounds(bytes, hit);
            &&& 0 <= start <= end <= bytes.len()
            &&& end - start <= LINE_DISPLAY_CAP
            &&& is_char_boundary(bytes, start)
            &&& is_char_boundary(bytes, end)
            &&& start <= hit.start
        }),
{
    let from = if hit.start > HIT_CONTEXT_BYTES {
        hit.start - HIT_CONTEXT_BYTES
    } else {
        0
    };
    text::lemma_ceil_boundary(bytes, from);
    text::lemma_floor_boundary(bytes, hit.end + HIT_CONTEXT_BYTES);
    let start = ceil_boundary(bytes, from);
    assert(start <= hit.start);
    text::lemma_floor_boundary(bytes, start + LINE_DISPLAY_CAP);
}

/// A shown line never takes more than the cap and its two marks, and one at or under the cap is
/// shown as it is.
pub proof fn law_a_shown_line_stays_within_the_cap(line: Seq<char>, hit: Option<Range<usize>>)
    ensures
        shown_bytes(encode_utf8(line), hit).len() <= LINE_DISPLAY_CAP + 2 * mark_bytes().len(),
        byte_len(line) <= LINE_DISPLAY_CAP ==> shown_bytes(encode_utf8(line), hit) == encode_utf8(
            line,
        ),
        mark_bytes().len() == 3,
{
    let bytes = encode_utf8(line);
    encode_utf8_valid_utf8(line);
    lemma_mark_len();
    if bytes.len() > LINE_DISPLAY_CAP {
        if hit is Some && is_part(bytes, hit->0) {
            lemma_hit_bounds(bytes, hit->0);
        } else {
            text::lemma_floor_boundary(bytes, LINE_DISPLAY_CAP as int);
        }
    }
}

proof fn lemma_mark_len()
    ensures
        mark_bytes().len() == 3,
{
    let mark = seq!['\u{2026}'];
    assert(mark.drop_first() =~= seq![]);
    reveal_with_fuel(encode_utf8, 2);
}

/// `hits[i]` is line `i`'s first match span, markers included; the caller passes it because a `«`
/// in the text may be the file's own.
pub fn cut_long_lines(lines: &mut [Line], hits: &[Option<Range<usize>>]) -> (cut: usize)
    ensures
        final(lines)@.len() == old(lines)@.len(),
        forall|i: int|
            0 <= i < old(lines)@.len() ==> {
                let before = old(lines)@[i];
                let after = #[trigger] final(lines)@[i];
                &&& after.number == before.number
                &&& after.marker == before.marker
                &&& encode_utf8(after.text@) == shown_bytes(
                    encode_utf8(before.text@),
                    hit_at(hits@, i),
                )
                &&& byte_len(before.text@) <= LINE_DISPLAY_CAP ==> after == before
            },
        cut == overlong(old(lines)@),
{
    let mut cut: usize = 0;
    let mut index: usize = 0;
    let ghost first = lines@;
    while index < lines.len()
        invariant
            index <= lines@.len(),
            lines@.len() == first.len(),
            cut <= index,
            cut == overlong(first.take(index as int)),
            forall|i: int| index <= i < first.len() ==> lines@[i] == first[i],
            forall|i: int|
                0 <= i < index ==> {
                    let before = first[i];
                    let after = #[trigger] lines@[i];
                    &&& after.number == before.number
                    &&& after.marker == before.marker
                    &&& encode_utf8(after.text@) == shown_bytes(
                        encode_utf8(before.text@),
                        hit_at(hits@, i),
                    )
                    &&& byte_len(before.text@) <= LINE_DISPLAY_CAP ==> after == before
                },
        decreases first.len() - index,
    {
        assert(first.take(index as int + 1).drop_last() =~= first.take(index as int));
        let size = text::len(lines[index].text.as_str());
        if size > LINE_DISPLAY_CAP {
            let kept = cut_line(lines[index].text.as_str(), first_hit(hits, index));
            let line = &mut lines[index];
            line.text = kept;
            cut = cut + 1;
        }
        index = index + 1;
    }
    assert(first.take(index as int) =~= first);
    cut
}

fn first_hit(hits: &[Option<Range<usize>>], index: usize) -> (r: Option<Range<usize>>)
    ensures
        r == hit_at(hits@, index as int),
{
    if index >= hits.len() {
        return None;
    }
    match &hits[index] {
        Some(hit) => Some(Range { start: hit.start, end: hit.end }),
        None => None,
    }
}

fn cut_line(line: &str, hit: Option<Range<usize>>) -> (r: String)
    requires
        byte_len(line@) > LINE_DISPLAY_CAP,
    ensures
        encode_utf8(r@) == shown_bytes(encode_utf8(line@), hit),
{
    let ghost bytes = encode_utf8(line@);
    proof {
        encode_utf8_valid_utf8(line@);
        is_char_boundary_start_end_of_seq(bytes);
        text::lemma_floor_boundary(bytes, LINE_DISPLAY_CAP as int);
    }
    let kept = match hit {
        Some(ref hit) => hit_window(line, hit),
        None => None,
    };
    let (start, end): (usize, usize) = match kept {
        Some(pair) => pair,
        None => (0, text::floor_char_boundary(line, LINE_DISPLAY_CAP)),
    };
    let mut out = String::new();
    if start > 0 {
        out.push(CUT_MARK);
    }
    let part = text::slice(line, start, end);
    let ghost head = out@;
    out.append(part);
    let ghost body = out@;
    if end < text::len(line) {
        out.push(CUT_MARK);
    }
    proof {
        text::lemma_encode_concat(head, part@);
        assert(start > 0 ==> head =~= seq!['\u{2026}']);
        if end < bytes.len() {
            text::lemma_encode_concat(body, seq!['\u{2026}']);
            assert(out@ =~= body + seq!['\u{2026}']);
        }
        assert(encode_utf8(out@) =~= shown_bytes(bytes, hit));
    }
    out
}

fn hit_window(line: &str, hit: &Range<usize>) -> (r: Option<(usize, usize)>)
    ensures
        match r {
            Some((start, end)) => {
                &&& is_part(encode_utf8(line@), *hit)
                &&& (start as int, end as int) == hit_bounds(encode_utf8(line@), *hit)
                &&& start <= end <= byte_len(line@)
                &&& is_char_boundary(encode_utf8(line@), start as int)
                &&& is_char_boundary(encode_utf8(line@), end as int)
            },
            None => !is_part(encode_utf8(line@), *hit),
        },
{
    let size = text::len(line);
    if hit.start > hit.end || hit.end > size || !line.is_char_boundary(hit.start)
        || !line.is_char_boundary(hit.end) {
        return None;
    }
    proof {
        encode_utf8_valid_utf8(line@);
        lemma_hit_bounds(encode_utf8(line@), *hit);
    }
    let from = if hit.start > HIT_CONTEXT_BYTES {
        hit.start - HIT_CONTEXT_BYTES
    } else {
        0
    };
    let start = text::ceil_char_boundary(line, from);
    let end = if size - hit.end <= HIT_CONTEXT_BYTES {
        size
    } else {
        text::floor_char_boundary(line, hit.end + HIT_CONTEXT_BYTES)
    };
    assert(end == floor_boundary(encode_utf8(line@), hit.end + HIT_CONTEXT_BYTES));
    proof {
        text::lemma_floor_boundary(encode_utf8(line@), hit.end + HIT_CONTEXT_BYTES);
        is_char_boundary_start_end_of_seq(encode_utf8(line@));
    }
    let end = if end - start > LINE_DISPLAY_CAP {
        text::floor_char_boundary(line, start + LINE_DISPLAY_CAP)
    } else {
        end
    };
    Some((start, end))
}

/// What a line costs: its bytes and its newline.
pub open spec fn line_bytes(line: Line) -> nat {
    byte_len(line.text@) + 1
}

/// What `lines` cost together.
pub open spec fn lines_bytes(lines: Seq<Line>) -> nat
    decreases lines.len(),
{
    if lines.len() == 0 {
        0
    } else {
        lines_bytes(lines.drop_last()) + line_bytes(lines.last())
    }
}

pub proof fn lemma_lines_bytes_take(lines: Seq<Line>, i: int, j: int)
    requires
        0 <= i <= j <= lines.len(),
    ensures
        lines_bytes(lines.take(i)) <= lines_bytes(lines.take(j)),
        i < j ==> lines_bytes(lines.take(i)) < lines_bytes(lines.take(j)),
    decreases j - i,
{
    if i < j {
        assert(lines.take(j).drop_last() =~= lines.take(j - 1));
        lemma_lines_bytes_take(lines, i, j - 1);
    }
}

/// `count` is how many of the first lines fit in `budget` bytes.
pub open spec fn fits(lines: Seq<Line>, budget: nat, count: nat) -> bool {
    &&& count <= lines.len()
    &&& lines_bytes(lines.take(count as int)) <= budget
    &&& count < lines.len() ==> lines_bytes(lines.take(count as int + 1)) > budget
}

/// Only one number of lines fits exactly.
pub proof fn lemma_fits_once(lines: Seq<Line>, budget: nat, a: nat, b: nat)
    requires
        fits(lines, budget, a),
        fits(lines, budget, b),
    ensures
        a == b,
{
    if a < b {
        lemma_lines_bytes_take(lines, a as int + 1, b as int);
    } else if b < a {
        lemma_lines_bytes_take(lines, b as int + 1, a as int);
    }
}

fn count_fitting(lines: &Vec<Line>, budget: usize) -> (count: usize)
    ensures
        fits(lines@, budget as nat, count as nat),
{
    let mut used: usize = 0;
    let mut kept: usize = 0;
    while kept < lines.len()
        invariant
            kept <= lines@.len(),
            used == lines_bytes(lines@.take(kept as int)),
            used <= budget,
        decreases lines@.len() - kept,
    {
        assert(lines@.take(kept as int + 1).drop_last() =~= lines@.take(kept as int));
        let size = text::len(lines[kept].text.as_str());
        if size >= budget - used {
            return kept;
        }
        used = used + size + 1;
        kept = kept + 1;
    }
    kept
}

/// The first lines that fit in `budget_bytes`, and whether that left any out.
pub fn trim_to_bytes(lines: Vec<Line>, budget_bytes: usize) -> (r: (Vec<Line>, bool))
    ensures
        fits(lines@, budget_bytes as nat, r.0@.len()),
        r.0@ == lines@.take(r.0@.len() as int),
        r.1 == (r.0@.len() < lines@.len()),
{
    let mut lines = lines;
    let total = lines.len();
    let kept = count_fitting(&lines, budget_bytes);
    lines.truncate(kept);
    (lines, kept < total)
}

/// Counts each line's newline, so a trim and the cost line agree on the same block.
pub fn content_bytes(lines: &[Line]) -> (r: usize)
    requires
        lines_bytes(lines@) <= usize::MAX,
    ensures
        r == lines_bytes(lines@),
{
    let mut total: usize = 0;
    let mut i: usize = 0;
    assert(lines@.take(lines@.len() as int) =~= lines@);
    while i < lines.len()
        invariant
            i <= lines@.len(),
            total == lines_bytes(lines@.take(i as int)),
            lines_bytes(lines@.take(lines@.len() as int)) <= usize::MAX,
        decreases lines@.len() - i,
    {
        assert(lines@.take(i as int + 1).drop_last() =~= lines@.take(i as int));
        proof {
            lemma_lines_bytes_take(lines@, i as int + 1, lines@.len() as int);
        }
        total = total + (text::len(lines[i].text.as_str()) + 1);
        i = i + 1;
    }
    total
}

/// A token budget is converted to bytes at this ratio.
pub const BYTES_PER_TOKEN: usize = 4;

/// How far a trim has got: how many lines of each block are left, which blocks had their turn,
/// and which of them were shortened, in the order it happened.
#[verifier::ext_equal]
pub struct Trim {
    pub kept: Seq<nat>,
    pub turn: Seq<bool>,
    pub order: Seq<int>,
}

/// What is left of block `i`.
pub open spec fn left(blocks: Seq<TargetBlock>, kept: Seq<nat>, i: int) -> Seq<Line> {
    blocks[i].lines@.take(kept[i] as int)
}

/// The bytes of what is left of the first `n` blocks.
pub open spec fn left_bytes(blocks: Seq<TargetBlock>, kept: Seq<nat>, n: int) -> nat
    decreases n,
{
    if n <= 0 {
        0
    } else {
        left_bytes(blocks, kept, n - 1) + lines_bytes(left(blocks, kept, n - 1))
    }
}

/// Among the first `n` blocks, the largest that has not had its turn, the first of equal ones.
pub open spec fn largest(blocks: Seq<TargetBlock>, trim: Trim, n: int) -> Option<int>
    decreases n,
{
    if n <= 0 {
        None
    } else {
        let best = largest(blocks, trim, n - 1);
        if trim.turn[n - 1] {
            best
        } else if best is Some && lines_bytes(left(blocks, trim.kept, best->0)) >= lines_bytes(
            left(blocks, trim.kept, n - 1),
        ) {
            best
        } else {
            Some(n - 1)
        }
    }
}

/// How many of the first lines fit in `budget` bytes.
pub open spec fn fitting(lines: Seq<Line>, budget: int) -> nat
    decreases lines.len(),
{
    if lines.len() == 0 || lines_bytes(lines) <= budget {
        lines.len()
    } else {
        fitting(lines.drop_last(), budget)
    }
}

/// The bytes block `p` may keep: what it has less the excess, and never less than its first line.
pub open spec fn allowance(blocks: Seq<TargetBlock>, trim: Trim, limit: nat, p: int) -> int {
    let lines = left(blocks, trim.kept, p);
    let cut = lines_bytes(lines) - (left_bytes(blocks, trim.kept, blocks.len() as int) - limit);
    let floor = if lines.len() == 0 {
        0
    } else {
        line_bytes(lines[0]) as int
    };
    if cut > floor {
        cut
    } else {
        floor
    }
}

/// Block `p` has its turn: it is cut to its allowance.
pub open spec fn turn_of(blocks: Seq<TargetBlock>, trim: Trim, limit: nat, p: int) -> Trim {
    let keep = allowance(blocks, trim, limit, p);
    let lines = left(blocks, trim.kept, p);
    if keep >= lines_bytes(lines) {
        Trim { turn: trim.turn.update(p, true), ..trim }
    } else {
        Trim {
            kept: trim.kept.update(p, fitting(lines, keep)),
            turn: trim.turn.update(p, true),
            order: trim.order.push(p),
        }
    }
}

/// The trim after at most `rounds` more turns: it stops once what is left is within `limit` or
/// every block had its turn.
pub open spec fn trimmed(
    blocks: Seq<TargetBlock>,
    trim: Trim,
    limit: nat,
    rounds: nat,
) -> Trim
    decreases rounds,
{
    let pick = largest(blocks, trim, blocks.len() as int);
    if rounds == 0 || left_bytes(blocks, trim.kept, blocks.len() as int) <= limit || pick is None {
        trim
    } else {
        trimmed(blocks, turn_of(blocks, trim, limit, pick->0), limit, (rounds - 1) as nat)
    }
}

/// Every line is there and no block had its turn.
pub open spec fn untrimmed(blocks: Seq<TargetBlock>) -> Trim {
    Trim {
        kept: Seq::new(blocks.len(), |i: int| blocks[i].lines@.len()),
        turn: Seq::new(blocks.len(), |i: int| false),
        order: Seq::empty(),
    }
}

/// Where a trim of `blocks` to `limit` bytes ends: each block has one turn at most.
pub open spec fn trim_end(blocks: Seq<TargetBlock>, limit: nat) -> Trim {
    trimmed(blocks, untrimmed(blocks), limit, blocks.len())
}

/// The byte limit of a budget in tokens.
pub open spec fn budget_bytes(budget: nat) -> nat {
    if budget * BYTES_PER_TOKEN <= usize::MAX {
        (budget * BYTES_PER_TOKEN) as nat
    } else {
        usize::MAX as nat
    }
}

/// The number of the last of `lines`, `0` where there is none.
pub open spec fn last_number(lines: Seq<Line>) -> usize {
    if lines.len() == 0 {
        0
    } else {
        lines.last().number
    }
}

/// `after` is `before` with its first `kept` lines: a shortened block says where it now ends and
/// what of the file it does not show, an unshortened one is as it was.
pub open spec fn is_shortened(before: TargetBlock, kept: nat, after: TargetBlock) -> bool {
    let last = last_number(before.lines@.take(kept as int));
    let file_lines = if before.span is Some {
        before.span->0.total
    } else {
        0
    };
    &&& after.lines@ == before.lines@.take(kept as int)
    &&& after.target == before.target
    &&& after.path == before.path
    &&& after.window == before.window
    &&& after.resolver == before.resolver
    &&& after.crlf == before.crlf
    &&& after.lossy_lines == before.lossy_lines
    &&& after.no_trailing_newline == before.no_trailing_newline
    &&& if kept < before.lines@.len() {
        &&& after.span == (match before.span {
            Some(span) => Some(Span { end: last, ..span }),
            None => None,
        })
        &&& after.not_shown == (if last < file_lines {
            Some(((last + 1) as usize, file_lines))
        } else {
            None
        })
    } else {
        after.span == before.span && after.not_shown == before.not_shown
    }
}

/// `note` says that `block` was cut to its first `kept` lines; a block with no span names none.
pub open spec fn is_budget_note(
    note: Omission,
    budget: usize,
    block: TargetBlock,
    kept: nat,
) -> bool {
    note == Omission::Budget {
        budget,
        trimmed_target: block.target,
        not_shown: if block.span is Some {
            Some(
                (
                    (last_number(block.lines@.take(kept as int)) + 1) as usize,
                    last_number(block.lines@),
                ),
            )
        } else {
            None
        },
    }
}

/// A trim that keeps to its rules so far.
pub open spec fn trim_wf(blocks: Seq<TargetBlock>, trim: Trim) -> bool {
    &&& trim.kept.len() == blocks.len()
    &&& trim.turn.len() == blocks.len()
    &&& forall|i: int|
        0 <= i < blocks.len() ==> #[trigger] trim.kept[i] <= blocks[i].lines@.len()
    &&& forall|i: int|
        0 <= i < blocks.len() && !#[trigger] trim.turn[i] ==> trim.kept[i]
            == blocks[i].lines@.len()
    &&& forall|i: int|
        0 <= i < blocks.len() && blocks[i].lines@.len() > 0 ==> #[trigger] trim.kept[i] > 0
    &&& forall|j: int|
        0 <= j < trim.order.len() ==> 0 <= #[trigger] trim.order[j] < blocks.len()
            && trim.turn[trim.order[j]]
}

/// How many blocks have not had their turn.
pub open spec fn waiting(turn: Seq<bool>) -> nat
    decreases turn.len(),
{
    if turn.len() == 0 {
        0
    } else {
        waiting(turn.drop_last()) + (if turn.last() {
            0nat
        } else {
            1nat
        })
    }
}

proof fn lemma_waiting_update(turn: Seq<bool>, p: int)
    requires
        0 <= p < turn.len(),
        !turn[p],
    ensures
        waiting(turn.update(p, true)) == waiting(turn) - 1,
    decreases turn.len(),
{
    let after = turn.update(p, true);
    if p == turn.len() - 1 {
        assert(after.drop_last() =~= turn.drop_last());
    } else {
        assert(after.drop_last() =~= turn.drop_last().update(p, true));
        lemma_waiting_update(turn.drop_last(), p);
    }
}

proof fn lemma_waiting_bound(turn: Seq<bool>)
    ensures
        waiting(turn) <= turn.len(),
        waiting(turn) == 0 ==> forall|i: int| 0 <= i < turn.len() ==> turn[i],
    decreases turn.len(),
{
    if turn.len() > 0 {
        lemma_waiting_bound(turn.drop_last());
        if waiting(turn) == 0 {
            assert forall|i: int| 0 <= i < turn.len() implies turn[i] by {
                if i < turn.len() - 1 {
                    assert(turn.drop_last()[i]);
                }
            }
        }
    }
}

proof fn lemma_fitting(lines: Seq<Line>, budget: nat)
    ensures
        fits(lines, budget, fitting(lines, budget as int)),
        lines.len() > 0 && line_bytes(lines[0]) <= budget ==> fitting(lines, budget as int) > 0,
        lines_bytes(lines) > budget ==> fitting(lines, budget as int) < lines.len(),
    decreases lines.len(),
{
    assert(lines.take(lines.len() as int) =~= lines);
    if lines.len() == 0 {
    } else if lines_bytes(lines) > budget {
        let shorter = lines.drop_last();
        lemma_fitting(shorter, budget);
        let count = fitting(shorter, budget as int);
        assert(shorter.take(count as int) =~= lines.take(count as int));
        if count < shorter.len() {
            assert(shorter.take(count as int + 1) =~= lines.take(count as int + 1));
        } else {
            assert(lines.take(count as int + 1) =~= lines);
        }
        if line_bytes(lines[0]) <= budget && lines.len() == 1 {
            assert(lines.drop_last() =~= Seq::<Line>::empty());
        }
    }
}

proof fn lemma_turn_of(blocks: Seq<TargetBlock>, trim: Trim, limit: nat, p: int)
    requires
        trim_wf(blocks, trim),
        0 <= p < blocks.len(),
        !trim.turn[p],
        left_bytes(blocks, trim.kept, blocks.len() as int) > limit,
    ensures
        trim_wf(blocks, turn_of(blocks, trim, limit, p)),
        allowance(blocks, trim, limit, p) >= 0,
        waiting(turn_of(blocks, trim, limit, p).turn) == waiting(trim.turn) - 1,
{
    lemma_waiting_update(trim.turn, p);
    let lines = left(blocks, trim.kept, p);
    let keep = allowance(blocks, trim, limit, p);
    if keep < lines_bytes(lines) {
        lemma_fitting(lines, keep as nat);
        if lines.len() > 0 {
            assert(fitting(lines, keep) > 0);
        }
    }
    let after = turn_of(blocks, trim, limit, p);
    assert forall|j: int| 0 <= j < after.order.len() implies 0 <= #[trigger] after.order[j]
        < blocks.len() && after.turn[after.order[j]] by {
        if j < trim.order.len() {
            assert(after.order[j] == trim.order[j]);
        }
    }
}

proof fn lemma_trimmed(blocks: Seq<TargetBlock>, trim: Trim, limit: nat, rounds: nat)
    requires
        trim_wf(blocks, trim),
    ensures
        trim_wf(blocks, trimmed(blocks, trim, limit, rounds)),
        rounds >= waiting(trim.turn) ==> {
            let end = trimmed(blocks, trim, limit, rounds);
            ||| left_bytes(blocks, end.kept, blocks.len() as int) <= limit
            ||| forall|i: int| 0 <= i < blocks.len() ==> end.turn[i]
        },
    decreases rounds,
{
    let n = blocks.len() as int;
    let pick = largest(blocks, trim, n);
    law_the_largest_block_is_cut_first(blocks, trim, n);
    lemma_waiting_bound(trim.turn);
    if rounds > 0 && left_bytes(blocks, trim.kept, n) > limit && pick is Some {
        lemma_turn_of(blocks, trim, limit, pick->0);
        lemma_trimmed(
            blocks,
            turn_of(blocks, trim, limit, pick->0),
            limit,
            (rounds - 1) as nat,
        );
    }
}

proof fn lemma_untrimmed_wf(blocks: Seq<TargetBlock>)
    ensures
        trim_wf(blocks, untrimmed(blocks)),
{
}

/// A trim never takes a block's first line, and it gives up on the limit only where every block
/// had its turn.
pub proof fn law_a_trim_keeps_first_lines_and_ends_within_the_limit(
    blocks: Seq<TargetBlock>,
    limit: nat,
)
    ensures
        ({
            let end = trim_end(blocks, limit);
            &&& end.kept.len() == blocks.len()
            &&& forall|i: int|
                0 <= i < blocks.len() ==> #[trigger] end.kept[i] <= blocks[i].lines@.len() && (
                blocks[i].lines@.len() > 0 ==> end.kept[i] > 0)
            &&& left_bytes(blocks, end.kept, blocks.len() as int) <= limit || forall|i: int|
                0 <= i < blocks.len() ==> #[trigger] end.turn[i]
        }),
{
    lemma_untrimmed_wf(blocks);
    lemma_waiting_bound(untrimmed(blocks).turn);
    lemma_trimmed(blocks, untrimmed(blocks), limit, blocks.len());
}

/// The largest block goes first: of those that wait for their turn, none is larger than the one that
/// is picked, and an equal one stands behind it.
pub proof fn law_the_largest_block_is_cut_first(blocks: Seq<TargetBlock>, trim: Trim, n: int)
    requires
        0 <= n <= blocks.len(),
    ensures
        match largest(blocks, trim, n) {
            Some(p) => 0 <= p < n && !trim.turn[p] && forall|i: int|
                0 <= i < n && !(#[trigger] trim.turn[i]) ==> {
                    let size = lines_bytes(left(blocks, trim.kept, i));
                    let most = lines_bytes(left(blocks, trim.kept, p));
                    size < most || size == most && p <= i
                },
            None => forall|i: int| 0 <= i < n ==> #[trigger] trim.turn[i],
        },
    decreases n,
{
    if n > 0 {
        law_the_largest_block_is_cut_first(blocks, trim, n - 1);
    }
}

proof fn lemma_left_updated(blocks: Seq<TargetBlock>, kept: Seq<nat>, p: int, k: nat, n: int)
    requires
        0 <= p < kept.len() == blocks.len(),
        0 <= n <= blocks.len(),
    ensures
        left_bytes(blocks, kept.update(p, k), n) + (if p < n {
            lines_bytes(left(blocks, kept, p))
        } else {
            0
        }) == left_bytes(blocks, kept, n) + (if p < n {
            lines_bytes(blocks[p].lines@.take(k as int))
        } else {
            0
        }),
    decreases n,
{
    if n > 0 {
        lemma_left_updated(blocks, kept, p, k, n - 1);
    }
}

/// Where a turn leaves the whole over the limit, it leaves the block its first line.
proof fn lemma_turn_leaves_one(blocks: Seq<TargetBlock>, trim: Trim, limit: nat, p: int)
    requires
        trim_wf(blocks, trim),
        0 <= p < blocks.len(),
        !trim.turn[p],
        left_bytes(blocks, trim.kept, blocks.len() as int) > limit,
    ensures
        ({
            let after = turn_of(blocks, trim, limit, p);
            left_bytes(blocks, after.kept, blocks.len() as int) > limit ==> after.kept[p] <= 1
        }),
{
    let n = blocks.len() as int;
    let lines = left(blocks, trim.kept, p);
    let keep = allowance(blocks, trim, limit, p);
    let after = turn_of(blocks, trim, limit, p);
    lemma_turn_of(blocks, trim, limit, p);
    assert(lines.len() == trim.kept[p]);
    assert(lines.take(lines.len() as int) =~= lines);
    if lines.len() > 0 {
        assert(lines.take(1).drop_last() =~= Seq::empty());
        assert(lines.take(1).last() == lines[0]);
        assert(lines_bytes(lines.take(1).drop_last()) == 0);
        assert(lines_bytes(lines.take(1)) == line_bytes(lines[0]));
    }
    if keep >= lines_bytes(lines) {
        if lines.len() > 1 {
            lemma_lines_bytes_take(lines, 1, lines.len() as int);
        }
    } else {
        let k = fitting(lines, keep);
        lemma_fitting(lines, keep as nat);
        assert(blocks[p].lines@.take(k as int) =~= lines.take(k as int));
        lemma_left_updated(blocks, trim.kept, p, k, n);
        if left_bytes(blocks, after.kept, n) > limit && k > 1 {
            lemma_lines_bytes_take(lines, 1, k as int);
        }
    }
}

proof fn lemma_over_leaves_one(blocks: Seq<TargetBlock>, trim: Trim, limit: nat, rounds: nat)
    requires
        trim_wf(blocks, trim),
        left_bytes(blocks, trim.kept, blocks.len() as int) > limit ==> forall|i: int|
            0 <= i < blocks.len() && trim.turn[i] ==> #[trigger] trim.kept[i] <= 1,
    ensures
        ({
            let end = trimmed(blocks, trim, limit, rounds);
            left_bytes(blocks, end.kept, blocks.len() as int) > limit ==> forall|i: int|
                0 <= i < blocks.len() && end.turn[i] ==> #[trigger] end.kept[i] <= 1
        }),
    decreases rounds,
{
    let n = blocks.len() as int;
    let pick = largest(blocks, trim, n);
    law_the_largest_block_is_cut_first(blocks, trim, n);
    if rounds > 0 && left_bytes(blocks, trim.kept, n) > limit && pick is Some {
        let p = pick->0;
        let after = turn_of(blocks, trim, limit, p);
        lemma_turn_of(blocks, trim, limit, p);
        lemma_turn_leaves_one(blocks, trim, limit, p);
        assert forall|i: int|
            left_bytes(blocks, after.kept, n) > limit && 0 <= i < n
                && after.turn[i] implies #[trigger] after.kept[i] <= 1 by {
            if i != p {
                assert(after.kept[i] == trim.kept[i]);
            }
        }
        lemma_over_leaves_one(blocks, after, limit, (rounds - 1) as nat);
    }
}

/// Where even that is over the limit, each block is left with its first line alone.
pub proof fn law_a_trim_over_the_limit_leaves_one_line_each(blocks: Seq<TargetBlock>, limit: nat)
    ensures
        ({
            let end = trim_end(blocks, limit);
            left_bytes(blocks, end.kept, blocks.len() as int) > limit ==> forall|i: int|
                0 <= i < blocks.len() ==> #[trigger] end.kept[i] == (if blocks[i].lines@.len() > 0 {
                    1nat
                } else {
                    0
                })
        }),
{
    let start = untrimmed(blocks);
    lemma_untrimmed_wf(blocks);
    law_a_trim_keeps_first_lines_and_ends_within_the_limit(blocks, limit);
    lemma_over_leaves_one(blocks, start, limit, blocks.len());
}

/// Blocks that are within the limit together are left alone.
pub proof fn law_a_trim_within_the_limit_changes_nothing(blocks: Seq<TargetBlock>, limit: nat)
    requires
        left_bytes(blocks, untrimmed(blocks).kept, blocks.len() as int) <= limit,
    ensures
        trim_end(blocks, limit) == untrimmed(blocks),
{
}

proof fn lemma_left_bytes_bound(blocks: Seq<TargetBlock>, kept: Seq<nat>, more: Seq<nat>, n: int)
    requires
        0 <= n <= blocks.len(),
        kept.len() == blocks.len(),
        more.len() == blocks.len(),
        forall|i: int|
            0 <= i < blocks.len() ==> #[trigger] kept[i] <= more[i] <= blocks[i].lines@.len(),
    ensures
        left_bytes(blocks, kept, n) <= left_bytes(blocks, more, n),
    decreases n,
{
    if n > 0 {
        lemma_left_bytes_bound(blocks, kept, more, n - 1);
        lemma_lines_bytes_take(blocks[n - 1].lines@, kept[n - 1] as int, more[n - 1] as int);
    }
}

proof fn lemma_left_bytes_mono(blocks: Seq<TargetBlock>, kept: Seq<nat>, m: int, n: int)
    requires
        0 <= m <= n,
    ensures
        left_bytes(blocks, kept, m) <= left_bytes(blocks, kept, n),
    decreases n,
{
    if m < n {
        lemma_left_bytes_mono(blocks, kept, m, n - 1);
    }
}

/// The bytes of all the blocks.
pub open spec fn blocks_bytes(blocks: Seq<TargetBlock>) -> nat {
    left_bytes(blocks, untrimmed(blocks).kept, blocks.len() as int)
}

fn total_bytes(
    blocks: &[TargetBlock],
    Ghost(before): Ghost<Seq<TargetBlock>>,
    Ghost(kept): Ghost<Seq<nat>>,
) -> (r: usize)
    requires
        blocks@.len() == before.len() == kept.len(),
        forall|i: int|
            0 <= i < before.len() ==> #[trigger] blocks@[i].lines@ == left(before, kept, i),
        left_bytes(before, kept, before.len() as int) <= usize::MAX,
    ensures
        r == left_bytes(before, kept, before.len() as int),
{
    let mut total: usize = 0;
    let mut i: usize = 0;
    while i < blocks.len()
        invariant
            i <= blocks@.len() == before.len() == kept.len(),
            total == left_bytes(before, kept, i as int),
            forall|i: int|
                0 <= i < before.len() ==> #[trigger] blocks@[i].lines@ == left(before, kept, i),
            left_bytes(before, kept, before.len() as int) <= usize::MAX,
        decreases blocks@.len() - i,
    {
        proof {
            lemma_left_bytes_mono(before, kept, i as int + 1, before.len() as int);
        }
        total = total + content_bytes(blocks[i].lines.as_slice());
        i = i + 1;
    }
    total
}

fn pick_largest(
    blocks: &[TargetBlock],
    turn: &Vec<bool>,
    Ghost(before): Ghost<Seq<TargetBlock>>,
    Ghost(trim): Ghost<Trim>,
) -> (r: Option<usize>)
    requires
        blocks@.len() == before.len() == trim.kept.len(),
        turn@ == trim.turn,
        turn@.len() == before.len(),
        forall|i: int|
            0 <= i < before.len() ==> #[trigger] blocks@[i].lines@ == left(before, trim.kept, i),
        left_bytes(before, trim.kept, before.len() as int) <= usize::MAX,
    ensures
        match r {
            Some(p) => largest(before, trim, before.len() as int) == Some(p as int),
            None => largest(before, trim, before.len() as int) is None,
        },
{
    let mut best: Option<(usize, usize)> = None;
    let mut i: usize = 0;
    while i < blocks.len()
        invariant
            i <= blocks@.len() == before.len() == trim.kept.len(),
            turn@ == trim.turn,
            turn@.len() == before.len(),
            forall|i: int|
                0 <= i < before.len() ==> #[trigger] blocks@[i].lines@ == left(
                    before,
                    trim.kept,
                    i,
                ),
            left_bytes(before, trim.kept, before.len() as int) <= usize::MAX,
            match best {
                Some((p, bytes)) => {
                    &&& largest(before, trim, i as int) == Some(p as int)
                    &&& bytes == lines_bytes(left(before, trim.kept, p as int))
                },
                None => largest(before, trim, i as int) is None,
            },
        decreases blocks@.len() - i,
    {
        if !turn[i] {
            proof {
                lemma_left_bytes_mono(before, trim.kept, i as int + 1, before.len() as int);
            }
            let bytes = content_bytes(blocks[i].lines.as_slice());
            best = match best {
                Some((p, most)) if most >= bytes => Some((p, most)),
                _ => Some((i, bytes)),
            };
        }
        i = i + 1;
    }
    match best {
        Some((p, _)) => Some(p),
        None => None,
    }
}

fn number_of_last(lines: &Vec<Line>) -> (r: usize)
    ensures
        r == last_number(lines@),
{
    if lines.len() == 0 {
        0
    } else {
        lines[lines.len() - 1].number
    }
}

/// Cuts `block` to `kept` of its lines and says so.
fn shorten(block: &mut TargetBlock, kept: usize, budget: usize) -> (note: Omission)
    requires
        kept < old(block).lines@.len(),
        old(block).span is Some ==> forall|i: int|
            0 <= i < old(block).lines@.len() ==> #[trigger] old(block).lines@[i].number
                < usize::MAX,
    ensures
        is_shortened(*old(block), kept as nat, *final(block)),
        is_budget_note(note, budget, *old(block), kept as nat),
{
    let end_before = number_of_last(&block.lines);
    block.lines.truncate(kept);
    let last = number_of_last(&block.lines);
    assert(block.span is Some ==> last < usize::MAX);
    let file_lines = match block.span {
        Some(span) => span.total,
        None => 0,
    };
    let has_span = block.span.is_some();
    if let Some(span) = block.span {
        block.span = Some(Span { start: span.start, end: last, total: span.total });
    }
    block.not_shown = if last < file_lines {
        Some((last + 1, file_lines))
    } else {
        None
    };
    Omission::Budget {
        budget,
        trimmed_target: block.target.clone(),
        not_shown: if has_span {
            Some((last + 1, end_before))
        } else {
            None
        },
    }
}

/// A trimmed target keeps its first line: an empty block is a header the footer cannot explain.
///
/// The largest block is cut first, by no more than the excess, until the blocks are together
/// within the budget or each of them had its turn.
pub fn trim_to_budget(blocks: &mut [TargetBlock], budget: usize) -> (omissions: Vec<Omission>)
    requires
        blocks_bytes(old(blocks)@) <= usize::MAX,
        forall|i: int, k: int|
            0 <= i < old(blocks)@.len() && old(blocks)@[i].span is Some && 0 <= k < old(
                blocks,
            )@[i].lines@.len() ==> #[trigger] old(blocks)@[i].lines@[k].number < usize::MAX,
    ensures
        final(blocks)@.len() == old(blocks)@.len(),
        ({
            let end = trim_end(old(blocks)@, budget_bytes(budget as nat));
            &&& forall|i: int|
                0 <= i < old(blocks)@.len() ==> is_shortened(
                    old(blocks)@[i],
                    end.kept[i],
                    #[trigger] final(blocks)@[i],
                )
            &&& omissions@.len() == end.order.len()
            &&& forall|j: int|
                0 <= j < end.order.len() ==> is_budget_note(
                    #[trigger] omissions@[j],
                    budget,
                    old(blocks)@[end.order[j]],
                    end.kept[end.order[j]],
                )
        }),
{
    let ghost before = blocks@;
    let limit: usize = if budget <= usize::MAX / BYTES_PER_TOKEN {
        budget * BYTES_PER_TOKEN
    } else {
        usize::MAX
    };
    assert(limit == budget_bytes(budget as nat)) by {
        assert(usize::MAX / 4 * 4 <= usize::MAX && usize::MAX < usize::MAX / 4 * 4 + 4)
            by (nonlinear_arith);
    }
    let mut omissions: Vec<Omission> = Vec::new();
    let mut turn: Vec<bool> = Vec::new();
    let count = blocks.len();
    let mut i: usize = 0;
    while i < count
        invariant
            i <= count,
            turn@ == Seq::new(i as nat, |j: int| false),
        decreases count - i,
    {
        turn.push(false);
        i = i + 1;
    }
    let ghost mut trim = untrimmed(before);
    proof {
        lemma_untrimmed_wf(before);
        assert forall|i: int| 0 <= i < before.len() implies #[trigger] blocks@[i].lines@ == left(
            before,
            trim.kept,
            i,
        ) by {
            assert(before[i].lines@.take(before[i].lines@.len() as int) =~= before[i].lines@);
        }
    }
    let mut rounds: usize = 0;
    while rounds < count
        invariant
            before == old(blocks)@,
            rounds <= count == before.len(),
            blocks@.len() == before.len(),
            limit == budget_bytes(budget as nat),
            turn@ == trim.turn,
            trim_wf(before, trim),
            trimmed(before, trim, limit as nat, (count - rounds) as nat) == trim_end(
                before,
                limit as nat,
            ),
            blocks_bytes(before) <= usize::MAX,
            forall|i: int|
                0 <= i < before.len() ==> #[trigger] blocks@[i].lines@ == left(
                    before,
                    trim.kept,
                    i,
                ),
            forall|i: int|
                0 <= i < before.len() ==> is_shortened(
                    before[i],
                    trim.kept[i],
                    #[trigger] blocks@[i],
                ),
            forall|i: int|
                0 <= i < before.len() && !trim.turn[i] ==> #[trigger] blocks@[i] == before[i],
            forall|i: int, k: int|
                0 <= i < before.len() && before[i].span is Some && 0 <= k < before[i].lines@.len()
                    ==> #[trigger] before[i].lines@[k].number < usize::MAX,
            omissions@.len() == trim.order.len(),
            forall|j: int|
                0 <= j < trim.order.len() ==> is_budget_note(
                    #[trigger] omissions@[j],
                    budget,
                    before[trim.order[j]],
                    trim.kept[trim.order[j]],
                ),
        decreases count - rounds,
    {
        proof {
            lemma_left_bytes_bound(before, trim.kept, untrimmed(before).kept, before.len() as int);
            law_the_largest_block_is_cut_first(before, trim, before.len() as int);
        }
        let total = total_bytes(blocks, Ghost(before), Ghost(trim.kept));
        if total <= limit {
            return omissions;
        }
        let index = match pick_largest(blocks, &turn, Ghost(before), Ghost(trim)) {
            Some(index) => index,
            None => return omissions,
        };
        let ghost p = index as int;
        let ghost next = turn_of(before, trim, limit as nat, p);
        proof {
            lemma_turn_of(before, trim, limit as nat, p);
            lemma_left_bytes_mono(before, trim.kept, p + 1, before.len() as int);
        }
        turn.set(index, true);
        let bytes = content_bytes(blocks[index].lines.as_slice());
        let excess = total - limit;
        let floor = if blocks[index].lines.len() == 0 {
            0
        } else {
            proof {
                let lines = blocks@[p].lines@;
                lemma_lines_bytes_take(lines, 1, lines.len() as int);
                assert(lines.take(lines.len() as int) =~= lines);
                assert(lines.take(1).drop_last() =~= Seq::<Line>::empty());
                reveal_with_fuel(lines_bytes, 2);
                assert(lines_bytes(lines.take(1)) == line_bytes(lines[0]));
            }
            text::len(blocks[index].lines[0].text.as_str()) + 1
        };
        let rest = if bytes > excess {
            bytes - excess
        } else {
            0
        };
        let keep = if rest > floor {
            rest
        } else {
            floor
        };
        assert(keep == allowance(before, trim, limit as nat, p));
        if keep < bytes {
            let kept = count_fitting(&blocks[index].lines, keep);
            proof {
                let lines = left(before, trim.kept, p);
                lemma_fitting(lines, keep as nat);
                lemma_fits_once(lines, keep as nat, kept as nat, fitting(lines, keep as int));
                assert(lines =~= before[p].lines@);
            }
            let block = &mut blocks[index];
            let note = shorten(block, kept, budget);
            omissions.push(note);
        }
        proof {
            assert forall|j: int| 0 <= j < next.order.len() implies is_budget_note(
                #[trigger] omissions@[j],
                budget,
                before[next.order[j]],
                next.kept[next.order[j]],
            ) by {
                if j < trim.order.len() {
                    assert(next.order[j] == trim.order[j]);
                }
            }
            trim = next;
        }
        rounds = rounds + 1;
    }
    omissions
}

/// A line over the cap is shown with a mark at each end that was cut, and at no other; what stands
/// between is a part of the line, and one with a hit that is a part of it shows where the hit begins.
pub proof fn law_a_cut_line_is_marked_where_it_is_cut(
    bytes: Seq<u8>,
    hit: Option<Range<usize>>,
) -> (place: (int, int))
    requires
        valid_utf8(bytes),
        bytes.len() > LINE_DISPLAY_CAP,
    ensures
        ({
            let (start, end) = place;
            &&& 0 <= start <= end <= bytes.len()
            &&& start == 0 && end < bytes.len() ==> shown_bytes(bytes, hit) == bytes.subrange(0, end)
                + mark_bytes()
            &&& start > 0 && end < bytes.len() ==> shown_bytes(bytes, hit) == mark_bytes()
                + bytes.subrange(start, end) + mark_bytes()
            &&& start > 0 && end == bytes.len() ==> shown_bytes(bytes, hit) == mark_bytes()
                + bytes.subrange(start, end)
            &&& start > 0 || end < bytes.len()
            &&& hit is Some && is_part(bytes, hit->0) ==> start <= (hit->0).start
            &&& hit is None ==> start == 0
        }),
{
    let (start, end) = kept_bounds(bytes, hit);
    if hit is Some && is_part(bytes, hit->0) {
        lemma_hit_bounds(bytes, hit->0);
    } else {
        crate::text::lemma_floor_boundary(bytes, LINE_DISPLAY_CAP as int);
    }
    let shown = shown_bytes(bytes, hit);
    if start == 0 && end < bytes.len() {
        assert(shown =~= bytes.subrange(0, end) + mark_bytes());
    }
    if start > 0 && end == bytes.len() {
        assert(shown =~= mark_bytes() + bytes.subrange(start, end));
    }
    (start, end)
}

/// A trim names the lines it dropped: those behind the last it kept, up to the last there was.
pub proof fn law_a_trim_names_the_lines_it_dropped(
    note: Omission,
    budget: usize,
    block: TargetBlock,
    kept: nat,
)
    requires
        is_budget_note(note, budget, block, kept),
        0 < kept <= block.lines@.len(),
        block.lines@[kept - 1].number < usize::MAX,
    ensures
        note matches Omission::Budget { budget: b, trimmed_target, not_shown } && b == budget
            && trimmed_target == block.target && match not_shown {
            Some((first, last)) => block.span is Some && first == block.lines@[kept - 1].number + 1
                && last == block.lines@.last().number,
            None => block.span is None,
        },
{
}

/// A block that is trimmed is its first lines, and says which lines of the file it no longer shows.
pub proof fn law_a_trimmed_block_is_its_first_lines(
    before: TargetBlock,
    kept: nat,
    after: TargetBlock,
)
    requires
        is_shortened(before, kept, after),
        0 < kept <= before.lines@.len(),
        before.lines@[kept - 1].number < usize::MAX,
    ensures
        after.lines@.is_prefix_of(before.lines@) && after.lines@.len() == kept,
        after.path == before.path && after.target == before.target,
        kept == before.lines@.len() ==> after.span == before.span && after.not_shown
            == before.not_shown,
        kept < before.lines@.len() && before.span is Some ==> {
            let (last, total) = (before.lines@[kept - 1].number, before.span->0.total);
            &&& after.span is Some && after.span->0.end == last && after.span->0.start
                == before.span->0.start
            &&& last < total ==> after.not_shown == Some(((last + 1) as usize, total))
            &&& last >= total ==> after.not_shown is None
        },
{
    assert(before.lines@.subrange(0, kept as int) =~= before.lines@.take(kept as int));
}

} // verus!
