//! The hits as they are shown: long lines cut, a small answer given context, and all of it within
//! the limits.
use std::ops::Range;

use vstd::prelude::*;
use vstd::utf8::encode_utf8;

use crate::find::args::{FindArgs, Global};
use crate::find::cost::{are_symbols, law_context_stays_within_its_bytes};
use crate::find::expand::{
    are_numbers, expands, grown_upto, is_context, is_found, is_rendered,
    law_context_stays_within_its_lines, total_lines, EXPAND_MAX_FILES, EXPAND_MAX_HITS,
    EXPAND_MAX_LINES, Expansion, Grown,
};
use crate::find::path::{is_same_path, same_path};
use crate::find::visit::is_orderly;
use crate::output::{ByteLimit, Line, Omission, TargetBlock};
use crate::text::byte_len;
use crate::window;
use crate::window::{
    blocks_bytes, budget_bytes, hit_at, is_budget_note, is_shortened, left, left_bytes, lines_bytes,
    overlong, shown_bytes, trim_end, untrimmed, BYTES_PER_TOKEN, LINE_DISPLAY_CAP,
};

verus! {

/// `after` is `before` with other lines.
pub open spec fn same_but_lines(before: TargetBlock, after: TargetBlock) -> bool {
    after == (TargetBlock { lines: after.lines, ..before })
}

/// `after` are the lines `before`, those that are too long cut round their first match.
pub open spec fn are_cut(
    before: Seq<Line>,
    hits: Seq<Option<Range<usize>>>,
    after: Seq<Line>,
) -> bool {
    &&& after.len() == before.len()
    &&& forall|i: int|
        0 <= i < before.len() ==> {
            let line = #[trigger] after[i];
            &&& line.number == before[i].number
            &&& line.marker == before[i].marker
            &&& encode_utf8(line.text@) == shown_bytes(encode_utf8(before[i].text@), hit_at(hits, i))
            &&& byte_len(before[i].text@) <= LINE_DISPLAY_CAP ==> line == before[i]
        }
}

/// Each block with its long lines cut.
pub open spec fn are_cut_blocks(
    before: Seq<TargetBlock>,
    hits: Seq<Vec<Option<Range<usize>>>>,
    after: Seq<TargetBlock>,
) -> bool {
    &&& after.len() == before.len()
    &&& forall|i: int|
        0 <= i < before.len() ==> same_but_lines(before[i], #[trigger] after[i]) && are_cut(
            before[i].lines@,
            hits[i]@,
            after[i].lines@,
        )
}

/// How many lines of the first `n` blocks are too long.
pub open spec fn overlong_in(blocks: Seq<TargetBlock>, n: int) -> nat
    decreases n,
{
    if n <= 0 {
        0
    } else {
        overlong_in(blocks, n - 1) + overlong(blocks[n - 1].lines@)
    }
}

/// How many lines the first `n` blocks have.
pub open spec fn lines_in(blocks: Seq<TargetBlock>, n: int) -> nat
    decreases n,
{
    if n <= 0 {
        0
    } else {
        lines_in(blocks, n - 1) + blocks[n - 1].lines@.len()
    }
}

proof fn lemma_overlong(lines: Seq<Line>)
    ensures
        overlong(lines) <= lines.len(),
    decreases lines.len(),
{
    if lines.len() > 0 {
        lemma_overlong(lines.drop_last());
    }
}

proof fn lemma_lines_within_bytes(lines: Seq<Line>)
    ensures
        lines.len() <= lines_bytes(lines),
    decreases lines.len(),
{
    if lines.len() > 0 {
        lemma_lines_within_bytes(lines.drop_last());
    }
}

/// The bytes of the first `n` blocks.
pub open spec fn bytes_in(blocks: Seq<TargetBlock>, n: int) -> nat
    decreases n,
{
    if n <= 0 {
        0
    } else {
        bytes_in(blocks, n - 1) + lines_bytes(blocks[n - 1].lines@)
    }
}

pub proof fn lemma_bytes_in(blocks: Seq<TargetBlock>, n: int)
    requires
        0 <= n <= blocks.len(),
    ensures
        bytes_in(blocks, n) == left_bytes(blocks, untrimmed(blocks).kept, n),
        lines_in(blocks, n) <= bytes_in(blocks, n),
        overlong_in(blocks, n) <= lines_in(blocks, n),
    decreases n,
{
    if n > 0 {
        lemma_bytes_in(blocks, n - 1);
        lemma_lines_within_bytes(blocks[n - 1].lines@);
        lemma_overlong(blocks[n - 1].lines@);
        assert(left(blocks, untrimmed(blocks).kept, n - 1) =~= blocks[n - 1].lines@);
    }
}

pub proof fn lemma_bytes_mono(blocks: Seq<TargetBlock>, m: int, n: int)
    requires
        0 <= m <= n,
    ensures
        bytes_in(blocks, m) <= bytes_in(blocks, n),
        lines_in(blocks, m) <= lines_in(blocks, n),
        overlong_in(blocks, m) <= overlong_in(blocks, n),
    decreases n,
{
    if m < n {
        lemma_bytes_mono(blocks, m, n - 1);
    }
}

/// How many lines the blocks hold, and how many bytes.
pub open spec fn size_of(blocks: Seq<TargetBlock>) -> (nat, nat) {
    (lines_in(blocks, blocks.len() as int), bytes_in(blocks, blocks.len() as int))
}

pub fn content_size(blocks: &[TargetBlock]) -> (r: (usize, usize))
    requires
        blocks_bytes(blocks@) <= usize::MAX,
    ensures
        (r.0 as nat, r.1 as nat) == size_of(blocks@),
        r.1 == blocks_bytes(blocks@),
{
    let mut lines: usize = 0;
    let mut bytes: usize = 0;
    let mut i: usize = 0;
    proof {
        lemma_bytes_in(blocks@, blocks@.len() as int);
    }
    while i < blocks.len()
        invariant
            i <= blocks@.len(),
            lines == lines_in(blocks@, i as int),
            bytes == bytes_in(blocks@, i as int),
            lines_in(blocks@, blocks@.len() as int) <= bytes_in(blocks@, blocks@.len() as int)
                <= usize::MAX,
        decreases blocks@.len() - i,
    {
        proof {
            lemma_bytes_mono(blocks@, i + 1, blocks@.len() as int);
        }
        lines = lines + blocks[i].lines.len();
        bytes = bytes + window::content_bytes(blocks[i].lines.as_slice());
        i = i + 1;
    }
    (lines, bytes)
}

fn cut_blocks(blocks: &mut Vec<TargetBlock>, hits: &Vec<Vec<Option<Range<usize>>>>) -> (cut: usize)
    requires
        old(blocks)@.len() == hits@.len(),
        blocks_bytes(old(blocks)@) <= usize::MAX,
    ensures
        are_cut_blocks(old(blocks)@, hits@, final(blocks)@),
        cut == overlong_in(old(blocks)@, old(blocks)@.len() as int),
{
    let ghost before = blocks@;
    let mut cut: usize = 0;
    let mut i: usize = 0;
    proof {
        lemma_bytes_in(before, before.len() as int);
    }
    while i < blocks.len()
        invariant
            i <= blocks@.len() == before.len() == hits@.len(),
            overlong_in(before, before.len() as int) <= usize::MAX,
            cut == overlong_in(before, i as int),
            forall|k: int| i <= k < before.len() ==> blocks@[k] == before[k],
            forall|k: int|
                0 <= k < i ==> same_but_lines(before[k], #[trigger] blocks@[k]) && are_cut(
                    before[k].lines@,
                    hits@[k]@,
                    blocks@[k].lines@,
                ),
        decreases blocks@.len() - i,
    {
        proof {
            lemma_bytes_mono(before, i + 1, before.len() as int);
        }
        let ghost so_far = blocks@;
        let block = &mut blocks[i];
        let more = window::cut_long_lines(block.lines.as_mut_slice(), hits[i].as_slice());
        cut = cut + more;
        assert(are_cut(before[i as int].lines@, hits@[i as int]@, blocks@[i as int].lines@));
        i = i + 1;
    }
    cut
}

/// What was read of the file of a block, and the definitions that hold its hits.
#[derive(Debug)]
pub struct Source {
    /// `None` where the file could not be read.
    pub raw: Option<Vec<u8>>,
    /// For each line of the block, the definition that holds it.
    pub symbols: Vec<Option<(usize, usize)>>,
    /// The file is too large to look for definitions.
    pub unparsed: bool,
}

impl Source {
    /// What of the file can be shown: nothing where it is gone or has grown since the search.
    pub open spec fn readable(self, max_file_bytes: u64) -> Option<Seq<u8>> {
        match self.raw {
            Some(raw) => if raw@.len() <= max_file_bytes {
                Some(raw@)
            } else {
                None
            },
            None => None,
        }
    }
}

/// The sources are those of the blocks.
pub open spec fn are_sources(blocks: Seq<TargetBlock>, sources: Seq<Source>) -> bool {
    &&& sources.len() == blocks.len()
    &&& forall|i: int|
        0 <= i < blocks.len() ==> are_symbols(
            blocks[i].lines@,
            (#[trigger] sources[i]).symbols@,
        )
}

/// Where the giving of context stands after the first `n` blocks.
pub open spec fn spread_upto(
    blocks: Seq<TargetBlock>,
    sources: Seq<Source>,
    max_file_bytes: u64,
    start: Grown,
    n: int,
) -> Grown
    decreases n,
{
    if n <= 0 {
        start
    } else {
        let so_far = spread_upto(blocks, sources, max_file_bytes, start, n - 1);
        match sources[n - 1].readable(max_file_bytes) {
            Some(raw) => Grown {
                covered: Seq::empty(),
                ..grown_block(blocks[n - 1], sources[n - 1], raw, so_far)
            },
            None => so_far,
        }
    }
}

/// One block is given context.
pub open spec fn grown_block(
    block: TargetBlock,
    source: Source,
    raw: Seq<u8>,
    so_far: Grown,
) -> Grown {
    grown_upto(
        block.lines@,
        raw,
        so_far,
        source.symbols@,
        source.unparsed,
        block.lines@.len() as int,
    )
}

/// How many lines of context were cut, over the first `n` blocks.
pub open spec fn sum_upto(cuts: Seq<usize>, n: int) -> nat
    decreases n,
{
    if n <= 0 {
        0
    } else {
        sum_upto(cuts, n - 1) + cuts[n - 1] as nat
    }
}

/// What came of giving an answer context.
#[derive(Debug)]
pub struct Expanded {
    pub expansion: Expansion,
    /// Per block, the lines of context that did not decode.
    pub lost: Vec<Vec<usize>>,
    /// Per block, how many lines of context were cut.
    pub cuts: Vec<usize>,
}

/// Block `i` with its context.
pub open spec fn is_grown_block(
    before: Seq<TargetBlock>,
    sources: Seq<Source>,
    max_file_bytes: u64,
    start: Grown,
    after: TargetBlock,
    lost: Seq<usize>,
    cut: usize,
    i: int,
) -> bool {
    let so_far = spread_upto(before, sources, max_file_bytes, start, i);
    match sources[i].readable(max_file_bytes) {
        Some(raw) => {
            let end = grown_block(before[i], sources[i], raw, so_far);
            &&& same_but_lines(before[i], after)
            &&& is_rendered(after.lines@, lost, cut as nat, before[i].lines@, raw, end.covered)
        },
        None => after == before[i] && lost.len() == 0 && cut == 0,
    }
}

/// The start of every expansion.
pub open spec fn nothing_grown(bytes_left: nat) -> Grown {
    Grown {
        covered: Seq::empty(),
        lines_left: EXPAND_MAX_LINES as nat,
        bytes_left,
        symbols: 0,
        windows: 0,
        unparsed: 0,
        unexpanded: 0,
        over_limit: 0,
    }
}

/// `after` are the blocks `before` with context, within `bytes_left` of the limit.
pub open spec fn are_expanded(
    before: Seq<TargetBlock>,
    sources: Seq<Source>,
    max_file_bytes: u64,
    limit: ByteLimit,
    bytes_left: nat,
    after: Seq<TargetBlock>,
    expanded: Expanded,
) -> bool {
    let n = before.len() as int;
    let start = nothing_grown(bytes_left);
    &&& after.len() == n
    &&& expanded.lost@.len() == n
    &&& expanded.cuts@.len() == n
    &&& forall|i: int|
        0 <= i < n ==> is_grown_block(
            before,
            sources,
            max_file_bytes,
            start,
            #[trigger] after[i],
            expanded.lost@[i]@,
            expanded.cuts@[i],
            i,
        )
    &&& expanded.expansion.grown(Seq::empty()) == spread_upto(
        before,
        sources,
        max_file_bytes,
        start,
        n,
    )
    &&& expanded.expansion.limit == limit
    &&& expanded.expansion.long_lines_cut == sum_upto(expanded.cuts@, n)
}

proof fn lemma_counts(
    lines: Seq<Line>,
    raw: Seq<u8>,
    start: Grown,
    symbols: Seq<Option<(usize, usize)>>,
    unparsed: bool,
    n: int,
)
    requires
        0 <= n,
    ensures
        ({
            let end = grown_upto(lines, raw, start, symbols, unparsed, n);
            &&& start.symbols <= end.symbols <= start.symbols + n
            &&& start.windows <= end.windows <= start.windows + n
            &&& start.unparsed <= end.unparsed <= start.unparsed + n
            &&& start.unexpanded <= end.unexpanded <= start.unexpanded + n
            &&& start.over_limit <= end.over_limit <= start.over_limit + n
        }),
    decreases n,
{
    if n > 0 {
        lemma_counts(lines, raw, start, symbols, unparsed, n - 1);
    }
}

/// Every block's lines stand in their order.
pub open spec fn are_orderly(blocks: Seq<TargetBlock>) -> bool {
    forall|i: int|
        0 <= i < blocks.len() ==> is_orderly(
            (#[trigger] blocks[i]).lines@,
            blocks[i].lines@.len(),
        )
}

/// Hits are taken in the order they are shown, so which stay bare past a limit does not change
/// from call to call.
fn expand(
    blocks: &mut Vec<TargetBlock>,
    sources: &Vec<Source>,
    max_file_bytes: u64,
    limit: ByteLimit,
    bytes_left: usize,
) -> (expanded: Expanded)
    requires
        are_sources(old(blocks)@, sources@),
        are_orderly(old(blocks)@),
        lines_in(old(blocks)@, old(blocks)@.len() as int) <= usize::MAX,
    ensures
        are_expanded(
            old(blocks)@,
            sources@,
            max_file_bytes,
            limit,
            bytes_left as nat,
            final(blocks)@,
            expanded,
        ),
        bytes_in(final(blocks)@, final(blocks)@.len() as int) <= bytes_in(
            old(blocks)@,
            old(blocks)@.len() as int,
        ) + bytes_left,
        expanded.expansion.long_lines_cut <= EXPAND_MAX_LINES,
{
    let ghost before = blocks@;
    let ghost start = nothing_grown(bytes_left as nat);
    let mut expansion = Expansion::new(limit, bytes_left);
    let mut lost: Vec<Vec<usize>> = Vec::new();
    let mut cuts: Vec<usize> = Vec::new();
    let count = blocks.len();
    let mut i: usize = 0;
    assert(expansion.grown(Seq::empty()) == start);
    while i < count
        invariant
            i <= count == blocks@.len() == before.len(),
            are_sources(before, sources@),
            are_orderly(before),
            start == nothing_grown(bytes_left as nat),
            lines_in(before, before.len() as int) <= usize::MAX,
            expansion.can_count(lines_in(before, before.len() as int) - lines_in(before, i as int)),
            expansion.long_lines_cut + expansion.lines_left <= EXPAND_MAX_LINES,
            expansion.limit == limit,
            expansion.grown(Seq::empty()) == spread_upto(
                before,
                sources@,
                max_file_bytes,
                start,
                i as int,
            ),
            expansion.long_lines_cut == sum_upto(cuts@, i as int),
            lost@.len() == i,
            cuts@.len() == i,
            bytes_in(blocks@, i as int) + expansion.bytes_left <= bytes_in(before, i as int)
                + bytes_left,
            forall|k: int| i <= k < before.len() ==> blocks@[k] == before[k],
            forall|k: int|
                0 <= k < i ==> is_grown_block(
                    before,
                    sources@,
                    max_file_bytes,
                    start,
                    #[trigger] blocks@[k],
                    lost@[k]@,
                    cuts@[k],
                    k,
                ),
        decreases count - i,
    {
        let ghost had = blocks@;
        let ghost so_far = expansion.grown(Seq::empty());
        let ghost cut_before = expansion.long_lines_cut;
        let ghost had_cuts = cuts@;
        let ghost had_lost = lost@;
        let ghost lines = before[i as int].lines@;
        proof {
            lemma_bytes_mono(before, i + 1, before.len() as int);
            assert(are_symbols(lines, sources@[i as int].symbols@));
            assert(is_orderly(lines, lines.len()));
        }
        let raw = match &sources[i].raw {
            Some(raw) => if raw.len() as u64 <= max_file_bytes {
                Some(raw)
            } else {
                None
            },
            None => None,
        };
        match raw {
            Some(raw) => {
                proof {
                    let source = sources@[i as int];
                    lemma_counts(
                        lines,
                        raw@,
                        so_far,
                        source.symbols@,
                        source.unparsed,
                        lines.len() as int,
                    );
                }
                let (shown, lossy, cut) = expansion.block(
                    &blocks[i].lines,
                    raw.as_slice(),
                    &sources[i].symbols,
                    sources[i].unparsed,
                );
                proof {
                    let source = sources@[i as int];
                    law_context_stays_within_its_lines(
                        lines,
                        raw@,
                        so_far,
                        source.symbols@,
                        source.unparsed,
                        lines.len() as int,
                    );
                    law_context_stays_within_its_bytes(
                        shown@,
                        lossy@,
                        cut as nat,
                        lines,
                        raw@,
                        so_far,
                        source.symbols@,
                        source.unparsed,
                    );
                    crate::find::expand::lemma_cut_within(
                        shown@,
                        lossy@,
                        cut as nat,
                        lines,
                        raw@,
                        grown_block(before[i as int], source, raw@, so_far).covered,
                    );
                }
                let block = &mut blocks[i];
                block.lines = shown;
                lost.push(lossy);
                cuts.push(cut);
            },
            None => {
                lost.push(Vec::new());
                cuts.push(0);
            },
        }
        proof {
            assert forall|k: int| 0 <= k <= i implies is_grown_block(
                before,
                sources@,
                max_file_bytes,
                start,
                #[trigger] blocks@[k],
                lost@[k]@,
                cuts@[k],
                k,
            ) by {
                if k < i {
                    assert(blocks@[k] == had[k]);
                    assert(lost@[k] == had_lost[k]);
                    assert(cuts@[k] == had_cuts[k]);
                }
            }
            lemma_sum_same(had_cuts, cuts@, i as int);
            lemma_bytes_same(had, blocks@, i as int);
            assert(expansion.grown(Seq::empty()) == spread_upto(
                before,
                sources@,
                max_file_bytes,
                start,
                i + 1,
            ));
        }
        i = i + 1;
    }
    Expanded { expansion, lost, cuts }
}

proof fn lemma_sum_same(a: Seq<usize>, b: Seq<usize>, n: int)
    requires
        0 <= n <= a.len(),
        n <= b.len(),
        forall|i: int| 0 <= i < n ==> a[i] == b[i],
    ensures
        sum_upto(a, n) == sum_upto(b, n),
    decreases n,
{
    if n > 0 {
        lemma_sum_same(a, b, n - 1);
    }
}

proof fn lemma_bytes_same(a: Seq<TargetBlock>, b: Seq<TargetBlock>, n: int)
    requires
        0 <= n <= a.len(),
        n <= b.len(),
        forall|i: int| 0 <= i < n ==> a[i] == b[i],
    ensures
        bytes_in(a, n) == bytes_in(b, n),
    decreases n,
{
    if n > 0 {
        lemma_bytes_same(a, b, n - 1);
    }
}

/// Line `n` of the file is known not to have decoded.
pub open spec fn is_lost(lossy: Seq<(String, Vec<usize>)>, path: Seq<char>, n: usize) -> bool {
    exists|i: int|
        0 <= i < lossy.len() && same_path((#[trigger] lossy[i]).0@, path) && lossy[i].1@.contains(n)
}

/// How many of the first `n` lines are known not to have decoded.
pub open spec fn lost_in(
    lossy: Seq<(String, Vec<usize>)>,
    path: Seq<char>,
    lines: Seq<Line>,
    n: int,
) -> nat
    decreases n,
{
    if n <= 0 {
        0
    } else {
        lost_in(lossy, path, lines, n - 1) + (if is_lost(lossy, path, lines[n - 1].number) {
            1nat
        } else {
            0nat
        })
    }
}

/// How many lines of the first `n` blocks are known not to have decoded.
pub open spec fn lost_shown(
    lossy: Seq<(String, Vec<usize>)>,
    blocks: Seq<TargetBlock>,
    n: int,
) -> nat
    decreases n,
{
    if n <= 0 {
        0
    } else {
        lost_shown(lossy, blocks, n - 1) + lost_in(
            lossy,
            blocks[n - 1].path@,
            blocks[n - 1].lines@,
            blocks[n - 1].lines@.len() as int,
        )
    }
}

fn is_lossy(lossy: &Vec<(String, Vec<usize>)>, path: &str, number: usize) -> (r: bool)
    ensures
        r == is_lost(lossy@, path@, number),
{
    let mut i: usize = 0;
    while i < lossy.len()
        invariant
            i <= lossy@.len(),
            forall|k: int|
                0 <= k < i ==> !(same_path((#[trigger] lossy@[k]).0@, path@)
                    && lossy@[k].1@.contains(number)),
        decreases lossy@.len() - i,
    {
        if is_same_path(lossy[i].0.as_str(), path) {
            let numbers = &lossy[i].1;
            let mut k: usize = 0;
            while k < numbers.len()
                invariant
                    k <= numbers@.len(),
                    i < lossy@.len(),
                    *numbers == lossy@[i as int].1,
                    same_path(lossy@[i as int].0@, path@),
                    forall|j: int| 0 <= j < k ==> numbers@[j] != number,
                decreases numbers@.len() - k,
            {
                if numbers[k] == number {
                    assert(numbers@.contains(number));
                    assert(lossy@[i as int].1@.contains(number));
                    return true;
                }
                k = k + 1;
            }
        }
        i = i + 1;
    }
    false
}

/// How many of the lines shown did not decode.
pub fn lossy_shown(blocks: &[TargetBlock], lossy: &Vec<(String, Vec<usize>)>) -> (r: usize)
    requires
        blocks_bytes(blocks@) <= usize::MAX,
    ensures
        r == lost_shown(lossy@, blocks@, blocks@.len() as int),
{
    let mut lost: usize = 0;
    let mut i: usize = 0;
    proof {
        lemma_bytes_in(blocks@, blocks@.len() as int);
    }
    while i < blocks.len()
        invariant
            i <= blocks@.len(),
            lines_in(blocks@, blocks@.len() as int) <= usize::MAX,
            lost == lost_shown(lossy@, blocks@, i as int),
            lost <= lines_in(blocks@, i as int),
        decreases blocks@.len() - i,
    {
        proof {
            lemma_bytes_mono(blocks@, i + 1, blocks@.len() as int);
        }
        let ghost had = lost;
        let block = &blocks[i];
        let total = block.lines.len();
        let mut k: usize = 0;
        while k < total
            invariant
                k <= total == block.lines@.len(),
                i < blocks@.len(),
                *block == blocks@[i as int],
                had <= lines_in(blocks@, i as int),
                lines_in(blocks@, i as int) + total <= usize::MAX,
                lost == had + lost_in(lossy@, block.path@, block.lines@, k as int),
                lost <= had + k,
            decreases total - k,
        {
            if is_lossy(lossy, block.path.as_str(), block.lines[k].number) {
                lost = lost + 1;
            }
            k = k + 1;
        }
        i = i + 1;
    }
    lost
}

/// The limit on an answer, and its bytes.
pub open spec fn limit_of(global: Global) -> (ByteLimit, nat) {
    match global.budget {
        Some(budget) => (ByteLimit::Budget(budget), budget_bytes(budget as nat)),
        None => (ByteLimit::MaxBytes(global.max_bytes), global.max_bytes as nat),
    }
}

fn byte_limit(global: &Global) -> (r: (ByteLimit, usize))
    ensures
        (r.0, r.1 as nat) == limit_of(*global),
{
    match global.budget {
        Some(budget) => {
            let bytes: usize = if budget <= usize::MAX / BYTES_PER_TOKEN {
                budget * BYTES_PER_TOKEN
            } else {
                usize::MAX
            };
            assert(bytes == budget_bytes(budget as nat)) by {
                assert(usize::MAX / 4 * 4 <= usize::MAX && usize::MAX < usize::MAX / 4 * 4 + 4)
                    by (nonlinear_arith);
            }
            (ByteLimit::Budget(budget), bytes)
        },
        None => (ByteLimit::MaxBytes(global.max_bytes), global.max_bytes),
    }
}

/// What the context may take: only what the bare hits leave, so no trim or refusal can cost a hit
/// its line.
pub open spec fn room_for(global: Global, blocks: Seq<TargetBlock>) -> nat {
    let (_, limit) = limit_of(global);
    if limit > blocks_bytes(blocks) {
        (limit - blocks_bytes(blocks)) as nat
    } else {
        0
    }
}

/// What each file's lines of context add to the lines that did not decode, over the first `n`.
pub open spec fn lost_more(
    lossy: Seq<(String, Vec<usize>)>,
    blocks: Seq<TargetBlock>,
    lost: Seq<Vec<usize>>,
    n: int,
    after: Seq<(String, Vec<usize>)>,
) -> bool
    decreases n,
{
    if n <= 0 {
        after == lossy
    } else if lost[n - 1]@.len() == 0 {
        lost_more(lossy, blocks, lost, n - 1, after)
    } else {
        &&& after.len() > 0
        &&& after.last().0@ == blocks[n - 1].path@
        &&& after.last().1@ == lost[n - 1]@
        &&& lost_more(lossy, blocks, lost, n - 1, after.drop_last())
    }
}

fn add_lost(
    lossy: &mut Vec<(String, Vec<usize>)>,
    blocks: &Vec<TargetBlock>,
    lost: &Vec<Vec<usize>>,
)
    requires
        blocks@.len() == lost@.len(),
    ensures
        lost_more(old(lossy)@, blocks@, lost@, blocks@.len() as int, final(lossy)@),
{
    let ghost start = lossy@;
    let mut i: usize = 0;
    while i < blocks.len()
        invariant
            i <= blocks@.len() == lost@.len(),
            lost_more(start, blocks@, lost@, i as int, lossy@),
        decreases blocks@.len() - i,
    {
        if lost[i].len() > 0 {
            let ghost had = lossy@;
            let mut numbers: Vec<usize> = Vec::new();
            let mut k: usize = 0;
            while k < lost[i].len()
                invariant
                    i < lost@.len(),
                    k <= lost@[i as int]@.len(),
                    numbers@ == lost@[i as int]@.take(k as int),
                decreases lost@[i as int]@.len() - k,
            {
                numbers.push(lost[i][k]);
                k = k + 1;
                assert(numbers@ =~= lost@[i as int]@.take(k as int));
            }
            assert(numbers@ =~= lost@[i as int]@);
            lossy.push((blocks[i].path.clone(), numbers));
            assert(lossy@.drop_last() =~= had);
        }
        i = i + 1;
    }
}

/// The hits as they are shown.
pub struct Shown {
    pub blocks: Vec<TargetBlock>,
    pub long_lines_cut: usize,
    /// `None` where the answer is not given context.
    pub expanded: Option<Expanded>,
    /// What a budget took away.
    pub trimmed: Vec<Omission>,
    pub lossy_lines: usize,
    /// The blocks with their long lines cut, and then with their context.
    pub cut: Ghost<Seq<TargetBlock>>,
    pub grown: Ghost<Seq<TargetBlock>>,
    pub lossy: Ghost<Seq<(String, Vec<usize>)>>,
}

/// The blocks are trimmed to the budget.
pub open spec fn are_trimmed(
    before: Seq<TargetBlock>,
    budget: usize,
    after: Seq<TargetBlock>,
    notes: Seq<Omission>,
) -> bool {
    let end = trim_end(before, budget_bytes(budget as nat));
    &&& after.len() == before.len()
    &&& forall|i: int|
        0 <= i < before.len() ==> is_shortened(before[i], end.kept[i], #[trigger] after[i])
    &&& notes.len() == end.order.len()
    &&& forall|j: int|
        0 <= j < end.order.len() ==> is_budget_note(
            #[trigger] notes[j],
            budget,
            before[end.order[j]],
            end.kept[end.order[j]],
        )
}

/// Whether an answer of so many hits in so many files is given context.
pub open spec fn is_expanded(args: FindArgs, global: Global, hits: usize, files: nat) -> bool {
    !(args.no_expand || global.json || global.jsonl) && args.after is None && args.before is None
        && args.context is None && 1 <= hits <= EXPAND_MAX_HITS && files <= EXPAND_MAX_FILES
}

impl Shown {
    /// First the long lines are cut, then a small answer is given context, and last a budget
    /// trims what is over it.
    pub open spec fn is(
        self,
        blocks: Seq<TargetBlock>,
        firsts: Seq<Vec<Option<Range<usize>>>>,
        lossy: Seq<(String, Vec<usize>)>,
        hits: usize,
        args: FindArgs,
        global: Global,
        sources: Seq<Source>,
    ) -> bool {
        let n = blocks.len() as int;
        &&& are_cut_blocks(blocks, firsts, self.cut@)
        &&& match self.expanded {
            Some(expanded) => {
                &&& is_expanded(args, global, hits, blocks.len())
                &&& are_expanded(
                    self.cut@,
                    sources,
                    global.max_file_bytes,
                    limit_of(global).0,
                    room_for(global, self.cut@),
                    self.grown@,
                    expanded,
                )
                &&& self.long_lines_cut == overlong_in(blocks, n)
                    + expanded.expansion.long_lines_cut
                &&& lost_more(lossy, self.grown@, expanded.lost@, n, self.lossy@)
            },
            None => {
                &&& !is_expanded(args, global, hits, blocks.len())
                &&& self.grown@ == self.cut@
                &&& self.long_lines_cut == overlong_in(blocks, n)
                &&& self.lossy@ == lossy
            },
        }
        &&& match global.budget {
            Some(budget) => are_trimmed(self.grown@, budget, self.blocks@, self.trimmed@),
            None => self.blocks@ == self.grown@ && self.trimmed@.len() == 0,
        }
        &&& self.lossy_lines == lost_shown(self.lossy@, self.blocks@, n)
    }
}

pub proof fn lemma_cut_bytes(before: Seq<Line>, hits: Seq<Option<Range<usize>>>, after: Seq<Line>)
    requires
        are_cut(before, hits, after),
    ensures
        lines_bytes(after) <= 2 * lines_bytes(before),
    decreases before.len(),
{
    if before.len() > 0 {
        let b = before.drop_last();
        let a = after.drop_last();
        assert(are_cut(b, hits, a)) by {
            assert forall|i: int| 0 <= i < b.len() implies {
                let line = #[trigger] a[i];
                &&& line.number == b[i].number
                &&& line.marker == b[i].marker
                &&& encode_utf8(line.text@) == shown_bytes(encode_utf8(b[i].text@), hit_at(hits, i))
                &&& byte_len(b[i].text@) <= LINE_DISPLAY_CAP ==> line == b[i]
            } by {
                assert(a[i] == after[i] && b[i] == before[i]);
            }
        }
        lemma_cut_bytes(b, hits, a);
        let last = before.len() - 1;
        assert(after[last].number == before[last].number);
        window::law_a_shown_line_stays_within_the_cap(before[last].text@, hit_at(hits, last));
    }
}

proof fn lemma_cut_blocks_bytes(
    before: Seq<TargetBlock>,
    hits: Seq<Vec<Option<Range<usize>>>>,
    after: Seq<TargetBlock>,
    n: int,
)
    requires
        are_cut_blocks(before, hits, after),
        0 <= n <= before.len(),
    ensures
        bytes_in(after, n) <= 2 * bytes_in(before, n),
    decreases n,
{
    if n > 0 {
        lemma_cut_blocks_bytes(before, hits, after, n - 1);
        assert(same_but_lines(before[n - 1], after[n - 1]));
        lemma_cut_bytes(before[n - 1].lines@, hits[n - 1]@, after[n - 1].lines@);
    }
}

proof fn lemma_cut_keeps_order(
    before: Seq<TargetBlock>,
    hits: Seq<Vec<Option<Range<usize>>>>,
    after: Seq<TargetBlock>,
    sources: Seq<Source>,
)
    requires
        are_cut_blocks(before, hits, after),
        are_orderly(before),
    ensures
        are_orderly(after),
        are_sources(before, sources) ==> are_sources(after, sources),
{
    assert forall|i: int| 0 <= i < after.len() implies is_orderly(
        (#[trigger] after[i]).lines@,
        after[i].lines@.len(),
    ) by {
        assert(same_but_lines(before[i], after[i]));
        assert(is_orderly(before[i].lines@, before[i].lines@.len()));
        let (b, a) = (before[i].lines@, after[i].lines@);
        assert forall|x: int, y: int| 0 <= x < y < a.len() implies a[x].number < a[y].number by {
            assert(a[x].number == b[x].number && a[y].number == b[y].number);
        }
    }
    if are_sources(before, sources) {
        assert forall|i: int| 0 <= i < after.len() implies are_symbols(
            after[i].lines@,
            (#[trigger] sources[i]).symbols@,
        ) by {
            assert(same_but_lines(before[i], after[i]));
            let (b, a) = (before[i].lines@, after[i].lines@);
            let symbols = sources[i].symbols@;
            assert(are_symbols(b, symbols));
            assert forall|k: int| 0 <= k < symbols.len() implies ((
            #[trigger] symbols[k]) matches Some((start, end)) ==> 1 <= start <= a[k].number <= end
                < usize::MAX) by {
                assert(a[k].number == b[k].number);
            }
        }
    }
}

pub proof fn lemma_trimmed_bytes(
    before: Seq<TargetBlock>,
    budget: usize,
    after: Seq<TargetBlock>,
    notes: Seq<Omission>,
    n: int,
)
    requires
        are_trimmed(before, budget, after, notes),
        0 <= n <= before.len(),
    ensures
        bytes_in(after, n) <= bytes_in(before, n),
    decreases n,
{
    if n > 0 {
        lemma_trimmed_bytes(before, budget, after, notes, n - 1);
        let limit = budget_bytes(budget as nat);
        window::law_a_trim_keeps_first_lines_and_ends_within_the_limit(before, limit);
        let end = trim_end(before, limit);
        assert(is_shortened(before[n - 1], end.kept[n - 1], after[n - 1]));
        let lines = before[n - 1].lines@;
        assert(end.kept[n - 1] <= lines.len());
        window::lemma_lines_bytes_take(lines, end.kept[n - 1] as int, lines.len() as int);
        assert(lines.take(lines.len() as int) =~= lines);
    }
}

/// The hits, ready to be shown. `sources` is looked at only where the answer is given context.
pub fn show_hits(
    blocks: Vec<TargetBlock>,
    firsts: &Vec<Vec<Option<Range<usize>>>>,
    lossy: &mut Vec<(String, Vec<usize>)>,
    hits: usize,
    args: &FindArgs,
    global: &Global,
    sources: &Vec<Source>,
) -> (shown: Shown)
    requires
        blocks@.len() == firsts@.len(),
        are_orderly(blocks@),
        forall|i: int| 0 <= i < blocks@.len() ==> (#[trigger] blocks@[i]).span is None,
        2 * blocks_bytes(blocks@) + EXPAND_MAX_LINES <= usize::MAX,
        is_expanded(*args, *global, hits, blocks@.len()) ==> are_sources(blocks@, sources@),
    ensures
        shown.is(blocks@, firsts@, old(lossy)@, hits, *args, *global, sources@),
        final(lossy)@ == shown.lossy@,
        blocks_bytes(shown.blocks@) <= usize::MAX,
        shown.blocks@.len() == blocks@.len(),
{
    let ghost before = blocks@;
    let ghost n = before.len() as int;
    let mut blocks = blocks;
    let files = blocks.len();
    let mut long_lines_cut = cut_blocks(&mut blocks, firsts);
    let ghost cut = blocks@;
    proof {
        lemma_cut_blocks_bytes(before, firsts@, cut, n);
        lemma_bytes_in(before, n);
        lemma_bytes_in(cut, n);
        lemma_cut_keeps_order(before, firsts@, cut, sources@);
    }
    let mut expanded: Option<Expanded> = None;
    if expands(args, global, hits, files) {
        let (limit, limit_bytes) = byte_limit(global);
        let bare = content_size(blocks.as_slice()).1;
        let bytes_left: usize = if limit_bytes > bare {
            limit_bytes - bare
        } else {
            0
        };
        let grew = expand(&mut blocks, sources, global.max_file_bytes, limit, bytes_left);
        proof {
            lemma_bytes_in(blocks@, n);
        }
        long_lines_cut = long_lines_cut + grew.expansion.long_lines_cut;
        add_lost(lossy, &blocks, &grew.lost);
        expanded = Some(grew);
    }
    let ghost grown = blocks@;
    proof {
        assert forall|i: int| 0 <= i < n implies (#[trigger] grown[i]).span is None by {
            assert(same_but_lines(before[i], cut[i]));
            if expanded is Some {
                assert(is_grown_block(
                    cut,
                    sources@,
                    global.max_file_bytes,
                    nothing_grown(room_for(*global, cut)),
                    grown[i],
                    (expanded->0).lost@[i]@,
                    (expanded->0).cuts@[i],
                    i,
                ));
            }
        }
    }
    let mut trimmed: Vec<Omission> = Vec::new();
    if let Some(budget) = global.budget {
        trimmed = window::trim_to_budget(blocks.as_mut_slice(), budget);
        proof {
            assert(are_trimmed(grown, budget, blocks@, trimmed@));
            lemma_trimmed_bytes(grown, budget, blocks@, trimmed@, n);
        }
    }
    proof {
        lemma_bytes_in(grown, n);
        lemma_bytes_in(blocks@, n);
    }
    let lossy_lines = lossy_shown(blocks.as_slice(), lossy);
    Shown {
        blocks,
        long_lines_cut,
        expanded,
        trimmed,
        lossy_lines,
        cut: Ghost(cut),
        grown: Ghost(grown),
        lossy: Ghost(lossy@),
    }
}

/// The files that can be shown have no more lines than can be counted.
pub open spec fn are_countable(sources: Seq<Source>, max_file_bytes: u64) -> bool {
    forall|i: int|
        0 <= i < sources.len() ==> ((#[trigger] sources[i]).readable(max_file_bytes) matches Some(
            raw,
        ) ==> total_lines(raw) <= usize::MAX)
}

proof fn lemma_spread(
    blocks: Seq<TargetBlock>,
    sources: Seq<Source>,
    max_file_bytes: u64,
    start: Grown,
    n: int,
)
    requires
        start.covered.len() == 0,
    ensures
        spread_upto(blocks, sources, max_file_bytes, start, n).covered.len() == 0,
    decreases n,
{
    if n > 0 {
        lemma_spread(blocks, sources, max_file_bytes, start, n - 1);
    }
}

proof fn lemma_expanded_bytes(
    before: Seq<TargetBlock>,
    sources: Seq<Source>,
    max_file_bytes: u64,
    limit: ByteLimit,
    bytes_left: nat,
    after: Seq<TargetBlock>,
    expanded: Expanded,
    n: int,
)
    requires
        are_expanded(before, sources, max_file_bytes, limit, bytes_left, after, expanded),
        are_orderly(before),
        are_sources(before, sources),
        are_countable(sources, max_file_bytes),
        0 <= n <= before.len(),
    ensures
        bytes_in(after, n) + spread_upto(
            before,
            sources,
            max_file_bytes,
            nothing_grown(bytes_left),
            n,
        ).bytes_left == bytes_in(before, n) + bytes_left,
    decreases n,
{
    if n > 0 {
        lemma_expanded_bytes(
            before,
            sources,
            max_file_bytes,
            limit,
            bytes_left,
            after,
            expanded,
            n - 1,
        );
        let i = n - 1;
        let start = nothing_grown(bytes_left);
        let so_far = spread_upto(before, sources, max_file_bytes, start, i);
        lemma_spread(before, sources, max_file_bytes, start, i);
        assert(is_grown_block(
            before,
            sources,
            max_file_bytes,
            start,
            after[i],
            expanded.lost@[i]@,
            expanded.cuts@[i],
            i,
        ));
        assert(is_orderly(before[i].lines@, before[i].lines@.len()));
        match sources[i].readable(max_file_bytes) {
            Some(raw) => {
                law_context_stays_within_its_bytes(
                    after[i].lines@,
                    expanded.lost@[i]@,
                    expanded.cuts@[i] as nat,
                    before[i].lines@,
                    raw,
                    so_far,
                    sources[i].symbols@,
                    sources[i].unparsed,
                );
            },
            None => {},
        }
    }
}

/// Where the bare hits are within the limit, so is the answer with its context: nothing of it is
/// trimmed, whatever the context.
pub proof fn law_context_costs_no_hit_its_line(
    shown: Shown,
    blocks: Seq<TargetBlock>,
    firsts: Seq<Vec<Option<Range<usize>>>>,
    lossy: Seq<(String, Vec<usize>)>,
    hits: usize,
    args: FindArgs,
    global: Global,
    sources: Seq<Source>,
)
    requires
        shown.is(blocks, firsts, lossy, hits, args, global, sources),
        are_orderly(blocks),
        is_expanded(args, global, hits, blocks.len()) ==> are_sources(blocks, sources),
        are_countable(sources, global.max_file_bytes),
        blocks_bytes(shown.cut@) <= limit_of(global).1,
    ensures
        blocks_bytes(shown.grown@) <= limit_of(global).1,
        blocks_bytes(shown.blocks@) <= limit_of(global).1,
        shown.trimmed@.len() == 0,
{
    let n = blocks.len() as int;
    lemma_cut_keeps_order(blocks, firsts, shown.cut@, sources);
    lemma_bytes_in(shown.cut@, n);
    if shown.expanded is Some {
        lemma_expanded_bytes(
            shown.cut@,
            sources,
            global.max_file_bytes,
            limit_of(global).0,
            room_for(global, shown.cut@),
            shown.grown@,
            shown.expanded->0,
            n,
        );
    }
    lemma_bytes_in(shown.grown@, n);
    lemma_bytes_in(shown.blocks@, n);
    if let Some(budget) = global.budget {
        window::law_a_trim_within_the_limit_changes_nothing(
            shown.grown@,
            budget_bytes(budget as nat),
        );
        lemma_trimmed_bytes(shown.grown@, budget, shown.blocks@, shown.trimmed@, n);
    }
}

/// The block shows this line, as it is or, where it is too long, cut.
pub open spec fn shows_line(block: TargetBlock, line: Line) -> bool {
    exists|k: int|
        0 <= k < block.lines@.len() && (#[trigger] block.lines@[k]).number == line.number
            && block.lines@[k].marker == line.marker && (byte_len(line.text@) <= LINE_DISPLAY_CAP
            ==> block.lines@[k] == line)
}

/// Every line that was found is in the answer, in the block of its file and under its number,
/// whatever context it is given; only a budget may leave lines out.
pub proof fn law_every_found_line_is_shown(
    shown: Shown,
    blocks: Seq<TargetBlock>,
    firsts: Seq<Vec<Option<Range<usize>>>>,
    lossy: Seq<(String, Vec<usize>)>,
    hits: usize,
    args: FindArgs,
    global: Global,
    sources: Seq<Source>,
    i: int,
    j: int,
)
    requires
        shown.is(blocks, firsts, lossy, hits, args, global, sources),
        are_orderly(blocks),
        global.budget is None,
        0 <= i < blocks.len(),
        0 <= j < blocks[i].lines@.len(),
    ensures
        shown.blocks@.len() == blocks.len(),
        shown.blocks@[i].path == blocks[i].path,
        shows_line(shown.blocks@[i], blocks[i].lines@[j]),
{
    let line = blocks[i].lines@[j];
    lemma_cut_keeps_order(blocks, firsts, shown.cut@, sources);
    let cut = shown.cut@[i];
    assert(same_but_lines(blocks[i], cut));
    let kept = cut.lines@[j];
    assert(kept.number == line.number);
    let after = shown.blocks@[i];
    if shown.expanded is Some {
        let expanded = shown.expanded->0;
        let start = nothing_grown(room_for(global, shown.cut@));
        assert(is_grown_block(
            shown.cut@,
            sources,
            global.max_file_bytes,
            start,
            shown.grown@[i],
            expanded.lost@[i]@,
            expanded.cuts@[i],
            i,
        ));
        match sources[i].readable(global.max_file_bytes) {
            Some(raw) => {
                let so_far = spread_upto(shown.cut@, sources, global.max_file_bytes, start, i);
                let covered = grown_block(cut, sources[i], raw, so_far).covered;
                let numbers = choose|numbers: Seq<usize>| #[trigger]
                    are_numbers(numbers, cut.lines@, covered) && {
                        let n = numbers.len() as int;
                        &&& after.lines@.len() == n
                        &&& forall|i: int|
                            0 <= i < n ==> {
                                let line = #[trigger] after.lines@[i];
                                if is_found(cut.lines@, numbers[i] as int) {
                                    line.number == numbers[i] && cut.lines@.contains(line)
                                } else {
                                    is_context(line, raw, numbers[i] as int)
                                }
                            }
                    };
                assert(is_found(cut.lines@, kept.number as int));
                assert(numbers.contains(kept.number));
                let k = choose|k: int| 0 <= k < numbers.len() && numbers[k] == kept.number;
                let there = after.lines@[k];
                let m = choose|m: int| 0 <= m < cut.lines@.len() && cut.lines@[m] == there;
                assert(is_orderly(cut.lines@, cut.lines@.len()));
                if m < j {
                    assert(cut.lines@[m].number < cut.lines@[j].number);
                } else if j < m {
                    assert(cut.lines@[j].number < cut.lines@[m].number);
                }
                assert(after.lines@[k] == kept);
            },
            None => {
                assert(after.lines@[j] == kept);
            },
        }
    } else {
        assert(after.lines@[j] == kept);
    }
}

/// Context may take what the hits leave of the limit, and no more.
pub proof fn law_context_takes_what_the_hits_leave(global: Global, blocks: Seq<TargetBlock>)
    ensures
        ({
            let limit = limit_of(global).1;
            &&& blocks_bytes(blocks) <= limit ==> room_for(global, blocks) + blocks_bytes(blocks)
                == limit
            &&& blocks_bytes(blocks) > limit ==> room_for(global, blocks) == 0
        }),
{
}

/// Each shown line that is known not to have decoded is counted.
pub proof fn law_each_lost_line_is_counted(
    lossy: Seq<(String, Vec<usize>)>,
    path: Seq<char>,
    lines: Seq<Line>,
    n: int,
)
    requires
        0 <= n <= lines.len(),
    ensures
        lost_in(lossy, path, lines, n) == lines.take(n).filter(
            |line: Line| is_lost(lossy, path, line.number),
        ).len(),
    decreases n,
{
    reveal(Seq::filter);
    if n > 0 {
        law_each_lost_line_is_counted(lossy, path, lines, n - 1);
        assert(lines.take(n).drop_last() =~= lines.take(n - 1));
    } else {
        assert(lines.take(0) =~= Seq::empty());
    }
}

} // verus!
