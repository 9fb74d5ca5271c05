//! What an answer over its cap shows: the busiest files, and the first hits of the busiest.
use std::ops::Range;

use vstd::prelude::*;
use vstd::utf8::encode_utf8;

use crate::find::args::Global;
use crate::find::order::{is_put_in_order, sort, Order, Placed};
use crate::find::path::{
    compare_paths, law_components_order_is_antisymmetric, law_components_order_is_transitive,
    listed_order, parts_of,
};
use crate::find::shown::{
    are_cut, are_trimmed, lemma_bytes_in, lemma_cut_bytes, lemma_trimmed_bytes, lossy_shown,
    lost_shown, same_but_lines, bytes_in,
};
use crate::output::{told_all, told_of, tell_all, tell_some, CountRow, Line, Marker, Omission, TargetBlock, Told};
use crate::text;
use crate::window;
use crate::window::{blocks_bytes, hit_at, lines_bytes, shown_bytes};

verus! {

/// Bounds the map of an answer over its cap, so that it is read in one call.
pub const TOP_FILES_SHOWN: usize = 10;

/// Bounds the preview as the map beside it is bounded.
pub const BUSIEST_HITS_SHOWN: usize = 10;

/// A file listed by its hits, the busiest first.
pub struct Busy {
    pub row: CountRow,
}

impl Placed for Busy {
    open spec fn precedes(self, other: Busy) -> bool {
        self.row.count > other.row.count || (self.row.count == other.row.count && listed_order(
            self.row.path@,
            other.row.path@,
        ) != Order::Greater)
    }

    proof fn lemma_total(a: Busy, b: Busy) {
        law_components_order_is_antisymmetric(parts_of(a.row.path@), parts_of(b.row.path@));
        law_components_order_is_antisymmetric(parts_of(b.row.path@), parts_of(a.row.path@));
    }

    proof fn lemma_transitive(a: Busy, b: Busy, c: Busy) {
        if a.row.count == b.row.count && b.row.count == c.row.count {
            law_components_order_is_transitive(
                parts_of(a.row.path@),
                parts_of(b.row.path@),
                parts_of(c.row.path@),
            );
        }
    }

    fn stands_before(&self, other: &Busy) -> (r: bool) {
        if self.row.count != other.row.count {
            return self.row.count > other.row.count;
        }
        match compare_paths(self.row.path.as_str(), other.row.path.as_str()) {
            Order::Greater => false,
            _ => true,
        }
    }
}

/// The rows of a list.
pub open spec fn rows_of(list: Seq<Busy>) -> Seq<CountRow> {
    list.map_values(|busy: Busy| busy.row)
}

/// The same files, the busiest first, equal ones by their paths.
pub open spec fn are_busiest_first(rows: Seq<CountRow>, top: Seq<CountRow>) -> bool {
    exists|all: Seq<Busy>, list: Seq<Busy>| #[trigger]
        rows_of(all) == rows && is_put_in_order(all, list)
            && #[trigger] rows_of(list) == top
}

pub fn busiest_first(rows: Vec<CountRow>) -> (top: Vec<CountRow>)
    ensures
        are_busiest_first(rows@, top@),
        top@.len() == rows@.len(),
{
    let ghost before = rows@;
    let mut rest = rows;
    let mut list: Vec<Busy> = Vec::new();
    let count = rest.len();
    let mut i: usize = 0;
    while i < count
        invariant
            i <= count == before.len(),
            rest@ == before.skip(i as int),
            rows_of(list@) == before.take(i as int),
        decreases count - i,
    {
        let ghost had = list@;
        let row = rest.remove(0);
        list.push(Busy { row });
        assert(rows_of(list@) =~= rows_of(had).push(row));
        i = i + 1;
        assert(rest@ =~= before.skip(i as int));
        assert(rows_of(list@) =~= before.take(i as int));
    }
    assert(rows_of(list@) =~= before);
    let ghost all = list@;
    let mut list = sort(list);
    let ghost in_order = list@;
    let mut top: Vec<CountRow> = Vec::new();
    let mut i: usize = 0;
    while i < count
        invariant
            i <= count == in_order.len(),
            list@ == in_order.skip(i as int),
            top@ == rows_of(in_order).take(i as int),
        decreases count - i,
    {
        let busy = list.remove(0);
        top.push(busy.row);
        i = i + 1;
        assert(list@ =~= in_order.skip(i as int));
        assert(top@ =~= rows_of(in_order).take(i as int));
    }
    proof {
        assert(top@ =~= rows_of(in_order));
        assert(rows_of(all) == before);
    }
    top
}

/// The first `most` of the hits among the first `n` lines, with the first match of each.
pub open spec fn picked(
    lines: Seq<Line>,
    firsts: Seq<Option<Range<usize>>>,
    most: nat,
    n: int,
) -> (Seq<Line>, Seq<Option<Range<usize>>>)
    decreases n,
{
    if n <= 0 {
        (Seq::empty(), Seq::empty())
    } else {
        let (so_far, matches) = picked(lines, firsts, most, n - 1);
        if so_far.len() < most && lines[n - 1].marker == Marker::Hit {
            (so_far.push(lines[n - 1]), matches.push(firsts[n - 1]))
        } else {
            (so_far, matches)
        }
    }
}

proof fn lemma_picked_full(
    lines: Seq<Line>,
    firsts: Seq<Option<Range<usize>>>,
    most: nat,
    m: int,
    n: int,
)
    requires
        0 <= m <= n,
        picked(lines, firsts, most, m).0.len() >= most,
    ensures
        picked(lines, firsts, most, n) == picked(lines, firsts, most, m),
    decreases n,
{
    if m < n {
        lemma_picked_full(lines, firsts, most, m, n - 1);
    }
}

proof fn lemma_picked_bytes(
    lines: Seq<Line>,
    firsts: Seq<Option<Range<usize>>>,
    most: nat,
    n: int,
)
    requires
        0 <= n <= lines.len(),
    ensures
        lines_bytes(picked(lines, firsts, most, n).0) <= lines_bytes(lines.take(n)),
    decreases n,
{
    if n > 0 {
        lemma_picked_bytes(lines, firsts, most, n - 1);
        assert(lines.take(n).drop_last() =~= lines.take(n - 1));
        let (so_far, _) = picked(lines, firsts, most, n - 1);
        assert(so_far.push(lines[n - 1]).drop_last() =~= so_far);
    } else {
        assert(lines.take(0) =~= Seq::empty());
    }
}

fn pick(lines: Vec<Line>, firsts: Vec<Option<Range<usize>>>, most: usize) -> (r: (
    Vec<Line>,
    Vec<Option<Range<usize>>>,
))
    requires
        lines@.len() == firsts@.len(),
    ensures
        (r.0@, r.1@) == picked(lines@, firsts@, most as nat, lines@.len() as int),
{
    let ghost (all, all_firsts) = (lines@, firsts@);
    let mut lines = lines;
    let mut firsts = firsts;
    let mut kept: Vec<Line> = Vec::new();
    let mut matches: Vec<Option<Range<usize>>> = Vec::new();
    let count = lines.len();
    let mut i: usize = 0;
    assert(lines@ =~= all.skip(0));
    assert(firsts@ =~= all_firsts.skip(0));
    while i < count && kept.len() < most
        invariant
            i <= count == all.len() == all_firsts.len(),
            lines@ == all.skip(i as int),
            firsts@ == all_firsts.skip(i as int),
            (kept@, matches@) == picked(all, all_firsts, most as nat, i as int),
        decreases count - i,
    {
        let line = lines.remove(0);
        let first = firsts.remove(0);
        assert(line == all[i as int] && first == all_firsts[i as int]);
        assert(lines@ =~= all.skip(i + 1));
        assert(firsts@ =~= all_firsts.skip(i + 1));
        if line.marker == Marker::Hit {
            kept.push(line);
            matches.push(first);
        }
        i = i + 1;
    }
    proof {
        if i < count {
            lemma_picked_full(all, all_firsts, most as nat, i as int, count as int);
        }
    }
    (kept, matches)
}

/// What the lines weigh once they are cut.
pub open spec fn cut_weight(lines: Seq<Line>, firsts: Seq<Option<Range<usize>>>) -> nat
    decreases lines.len(),
{
    if lines.len() == 0 {
        0
    } else {
        cut_weight(lines.drop_last(), firsts) + shown_bytes(
            encode_utf8(lines.last().text@),
            hit_at(firsts, lines.len() - 1),
        ).len() + 1
    }
}

proof fn lemma_cut_weight(before: Seq<Line>, hits: Seq<Option<Range<usize>>>, after: Seq<Line>)
    requires
        are_cut(before, hits, after),
    ensures
        lines_bytes(after) == cut_weight(before, hits),
    decreases before.len(),
{
    if before.len() > 0 {
        let b = before.drop_last();
        let a = after.drop_last();
        assert(are_cut(b, hits, a)) by {
            assert forall|i: int| 0 <= i < b.len() implies {
                let line = #[trigger] a[i];
                &&& line.number == b[i].number
                &&& line.marker == b[i].marker
                &&& encode_utf8(line.text@) == shown_bytes(encode_utf8(b[i].text@), hit_at(hits, i))
                &&& text::byte_len(b[i].text@) <= window::LINE_DISPLAY_CAP ==> line == b[i]
            } by {
                assert(a[i] == after[i] && b[i] == before[i]);
            }
        }
        lemma_cut_weight(b, hits, a);
        let last = before.len() - 1;
        assert(after[last].number == before[last].number);
    }
}

/// The first of the first `n` blocks that is the file's.
pub open spec fn block_of(blocks: Seq<TargetBlock>, path: Seq<char>, n: int) -> Option<int>
    decreases n,
{
    if n <= 0 {
        None
    } else {
        match block_of(blocks, path, n - 1) {
            Some(i) => Some(i),
            None => if blocks[n - 1].path@ == path {
                Some(n - 1)
            } else {
                None
            },
        }
    }
}

proof fn lemma_block_of(blocks: Seq<TargetBlock>, path: Seq<char>, m: int, n: int)
    requires
        0 <= m <= n,
        block_of(blocks, path, m) is Some,
    ensures
        block_of(blocks, path, n) == block_of(blocks, path, m),
    decreases n,
{
    if m < n {
        lemma_block_of(blocks, path, m, n - 1);
    }
}

/// How many hits of the busiest file an answer shows: never more than the cap asked for.
pub open spec fn preview_size(cap: usize) -> nat {
    if cap < BUSIEST_HITS_SHOWN {
        cap as nat
    } else {
        BUSIEST_HITS_SHOWN as nat
    }
}

/// The first hits of the busiest file.
pub struct Preview {
    pub block: TargetBlock,
    pub trimmed: Vec<Omission>,
    pub cut: usize,
    pub lossy: usize,
    pub hits: usize,
    /// The block before a budget trimmed it.
    pub whole: Ghost<TargetBlock>,
}

/// The hits of a file that are previewed, before any of them is cut.
pub open spec fn previewed(
    blocks: Seq<TargetBlock>,
    firsts: Seq<Vec<Option<Range<usize>>>>,
    i: int,
    cap: usize,
) -> (Seq<Line>, Seq<Option<Range<usize>>>) {
    picked(blocks[i].lines@, firsts[i]@, preview_size(cap), blocks[i].lines@.len() as int)
}

impl Preview {
    pub open spec fn is(
        self,
        blocks: Seq<TargetBlock>,
        firsts: Seq<Vec<Option<Range<usize>>>>,
        busiest: CountRow,
        lossy: Seq<(String, Vec<usize>)>,
        global: Global,
        cap: usize,
    ) -> bool {
        let found = block_of(blocks, busiest.path@, blocks.len() as int);
        &&& preview_size(cap) > 0
        &&& found is Some
        &&& ({
            let (lines, matches) = previewed(blocks, firsts, found->0, cap);
            &&& same_but_lines(blocks[found->0], self.whole@)
            &&& are_cut(lines, matches, self.whole@.lines@)
            &&& self.cut == window::overlong(lines)
            &&& match global.budget {
                Some(budget) => are_trimmed(
                    seq![self.whole@],
                    budget,
                    seq![self.block],
                    self.trimmed@,
                ),
                None => self.block == self.whole@ && self.trimmed@.len() == 0 && cut_weight(
                    lines,
                    matches,
                ) <= global.max_bytes,
            }
            &&& self.lossy == lost_shown(lossy, seq![self.block], 1)
            &&& self.hits == busiest.count
        })
    }

    /// What the preview is told for.
    pub open spec fn told(self) -> Seq<Told> {
        seq![
            Told::Plain(
                Omission::BusiestFile {
                    shown: self.block.lines@.len() as usize,
                    hits: self.hits,
                },
            ),
        ] + told_all(self.trimmed@) + told_of(
            if self.cut > 0 {
                Some(Omission::LongLinesCut { lines: self.cut })
            } else {
                None
            },
        ) + told_of(
            if self.lossy > 0 {
                Some(Omission::LossyLines { lines: self.lossy })
            } else {
                None
            },
        )
    }
}

/// There is nothing to preview, or it alone is over the byte limit: the answer that it is over its
/// cap stays the answer.
pub open spec fn is_unpreviewed(
    blocks: Seq<TargetBlock>,
    firsts: Seq<Vec<Option<Range<usize>>>>,
    busiest: CountRow,
    global: Global,
    cap: usize,
) -> bool {
    let found = block_of(blocks, busiest.path@, blocks.len() as int);
    ||| preview_size(cap) == 0
    ||| found is None
    ||| global.budget is None && ({
        let (lines, matches) = previewed(blocks, firsts, found->0, cap);
        cut_weight(lines, matches) > global.max_bytes
    })
}

proof fn lemma_block_bytes(blocks: Seq<TargetBlock>, i: int, n: int)
    requires
        0 <= i < n <= blocks.len(),
    ensures
        lines_bytes(blocks[i].lines@) <= bytes_in(blocks, n),
    decreases n,
{
    if i < n - 1 {
        lemma_block_bytes(blocks, i, n - 1);
    }
}

/// Hit lines only, so that lines of context cannot crowd the hits out, and never more than the cap
/// asked for.
pub fn busiest_preview(
    blocks: Vec<TargetBlock>,
    firsts: Vec<Vec<Option<Range<usize>>>>,
    busiest: &CountRow,
    lossy: &Vec<(String, Vec<usize>)>,
    global: &Global,
    cap: usize,
) -> (r: Option<Preview>)
    requires
        blocks@.len() == firsts@.len(),
        forall|i: int|
            0 <= i < blocks@.len() ==> (#[trigger] blocks@[i]).span is None
                && blocks@[i].lines@.len() == firsts@[i]@.len(),
        2 * blocks_bytes(blocks@) <= usize::MAX,
    ensures
        match r {
            Some(preview) => preview.is(blocks@, firsts@, *busiest, lossy@, *global, cap),
            None => is_unpreviewed(blocks@, firsts@, *busiest, *global, cap),
        },
        r matches Some(preview) ==> blocks_bytes(seq![preview.block]) <= usize::MAX,
{
    let ghost (all, all_firsts) = (blocks@, firsts@);
    let most = if cap < BUSIEST_HITS_SHOWN {
        cap
    } else {
        BUSIEST_HITS_SHOWN
    };
    if most == 0 {
        return None;
    }
    let mut blocks = blocks;
    let mut firsts = firsts;
    let mut at: usize = 0;
    while at < blocks.len() && !text::same(blocks[at].path.as_str(), busiest.path.as_str())
        invariant
            at <= blocks@.len(),
            blocks@ == all,
            block_of(all, busiest.path@, at as int) is None,
        decreases blocks@.len() - at,
    {
        at = at + 1;
    }
    if at == blocks.len() {
        return None;
    }
    proof {
        assert(block_of(all, busiest.path@, at + 1) == Some(at as int));
        lemma_block_of(all, busiest.path@, at + 1, all.len() as int);
        lemma_block_bytes(all, at as int, all.len() as int);
        lemma_bytes_in(all, all.len() as int);
    }
    let mut block = blocks.swap_remove(at);
    let matches = firsts.swap_remove(at);
    let ghost found = block;
    let ghost found_lines = block.lines@;
    let mut taken: Vec<Line> = Vec::new();
    std::mem::swap(&mut taken, &mut block.lines);
    let (mut lines, first_match) = pick(taken, matches, most);
    let ghost hits = lines@;
    proof {
        lemma_picked_bytes(
            found_lines,
            all_firsts[at as int]@,
            most as nat,
            found_lines.len() as int,
        );
        assert(found_lines.take(found_lines.len() as int) =~= found_lines);
    }
    let cut = window::cut_long_lines(lines.as_mut_slice(), first_match.as_slice());
    proof {
        assert(are_cut(hits, first_match@, lines@));
        lemma_cut_weight(hits, first_match@, lines@);
        lemma_cut_bytes(hits, first_match@, lines@);
    }
    if global.budget.is_none() && window::content_bytes(lines.as_slice()) > global.max_bytes {
        return None;
    }
    block.lines = lines;
    let ghost whole = block;
    let mut one: Vec<TargetBlock> = Vec::new();
    one.push(block);
    let ghost before = one@;
    let mut trimmed: Vec<Omission> = Vec::new();
    proof {
        assert(before =~= seq![whole]);
        lemma_bytes_in(before, 1);
        reveal_with_fuel(bytes_in, 2);
    }
    if let Some(budget) = global.budget {
        trimmed = window::trim_to_budget(one.as_mut_slice(), budget);
        proof {
            assert(are_trimmed(before, budget, one@, trimmed@));
            lemma_trimmed_bytes(before, budget, one@, trimmed@, 1);
        }
    }
    proof {
        lemma_bytes_in(one@, 1);
        assert(one@ =~= seq![one@[0]]);
    }
    let lost = lossy_shown(one.as_slice(), lossy);
    match one.pop() {
        Some(block) => Some(
            Preview {
                block,
                trimmed,
                cut,
                lossy: lost,
                hits: busiest.count,
                whole: Ghost(whole),
            },
        ),
        None => {
            assert(false);
            None
        },
    }
}

impl Preview {
    /// The block, and what it is told for.
    pub fn into_parts(self) -> (r: (TargetBlock, Vec<Omission>))
        ensures
            r.0 == self.block,
            told_all(r.1@) == self.told(),
    {
        let mut omitted: Vec<Omission> = Vec::new();
        let shown = self.block.lines.len();
        assert(told_all(omitted@) =~= Seq::empty());
        tell_some(&mut omitted, Some(Omission::BusiestFile { shown, hits: self.hits }));
        let ghost first = told_all(omitted@);
        tell_all(&mut omitted, self.trimmed);
        tell_some(
            &mut omitted,
            if self.cut > 0 {
                Some(Omission::LongLinesCut { lines: self.cut })
            } else {
                None
            },
        );
        tell_some(
            &mut omitted,
            if self.lossy > 0 {
                Some(Omission::LossyLines { lines: self.lossy })
            } else {
                None
            },
        );
        assert(told_all(omitted@) =~= self.told());
        (self.block, omitted)
    }
}

/// The map of an answer over its cap holds every file, the busiest first.
pub proof fn law_the_busiest_file_comes_first(rows: Seq<CountRow>, top: Seq<CountRow>)
    requires
        are_busiest_first(rows, top),
    ensures
        top.len() == rows.len(),
        forall|row: CountRow| #[trigger] rows.contains(row) <==> top.contains(row),
        forall|i: int, j: int|
            0 <= i < j < top.len() ==> (#[trigger] top[i]).count >= (#[trigger] top[j]).count,
{
    broadcast use vstd::seq_lib::group_to_multiset_ensures;

    let (all, list) = choose|all: Seq<Busy>, list: Seq<Busy>| #[trigger]
        rows_of(all) == rows && is_put_in_order(all, list)
            && #[trigger] rows_of(list) == top;
    assert forall|row: CountRow| #[trigger] rows.contains(row) <==> top.contains(row) by {
        if rows.contains(row) {
            let i = choose|i: int| 0 <= i < rows.len() && rows[i] == row;
            assert(all.contains(all[i]));
            assert(all.to_multiset().count(all[i]) > 0);
            assert(list.contains(all[i]));
            let j = choose|j: int| 0 <= j < list.len() && list[j] == all[i];
            assert(top[j] == row);
        }
        if top.contains(row) {
            let i = choose|i: int| 0 <= i < top.len() && top[i] == row;
            assert(list.contains(list[i]));
            assert(list.to_multiset().count(list[i]) > 0);
            assert(all.contains(list[i]));
            let j = choose|j: int| 0 <= j < all.len() && all[j] == list[i];
            assert(rows[j] == row);
        }
    }
    assert forall|i: int, j: int| 0 <= i < j < top.len() implies (#[trigger] top[i]).count >= (
    #[trigger] top[j]).count by {
        assert(list[i].precedes(list[j]));
    }
}

/// A preview shows the first hits of its file, no more than it may, and no line of context.
pub proof fn law_a_preview_shows_the_first_hits(
    lines: Seq<Line>,
    firsts: Seq<Option<Range<usize>>>,
    most: nat,
    n: int,
)
    requires
        0 <= n <= lines.len() == firsts.len(),
    ensures
        ({
            let hits = lines.take(n).filter(|line: Line| line.marker == Marker::Hit);
            picked(lines, firsts, most, n).0 == (if hits.len() <= most {
                hits
            } else {
                hits.take(most as int)
            })
        }),
    decreases n,
{
    reveal(Seq::filter);
    let is_hit = |line: Line| line.marker == Marker::Hit;
    let hits = lines.take(n).filter(is_hit);
    if n > 0 {
        law_a_preview_shows_the_first_hits(lines, firsts, most, n - 1);
        assert(lines.take(n).drop_last() =~= lines.take(n - 1));
        let had = lines.take(n - 1).filter(is_hit);
        if had.len() >= most && hits.len() > most {
            assert(had.take(most as int) =~= hits.take(most as int));
        }
        if had.len() == most {
            assert(had.take(most as int) =~= had);
        }
    } else {
        assert(hits =~= Seq::empty());
    }
}

/// A preview shows as many hits as it may, and never more than were asked for.
pub proof fn law_a_preview_shows_no_more_than_was_asked_for(cap: usize)
    ensures
        preview_size(cap) <= cap,
        preview_size(cap) <= BUSIEST_HITS_SHOWN,
        preview_size(cap) == cap || preview_size(cap) == BUSIEST_HITS_SHOWN,
{
}

/// The block that is previewed is the file's own, where it has one.
pub proof fn law_a_preview_is_of_its_own_file(blocks: Seq<TargetBlock>, path: Seq<char>, n: int)
    requires
        0 <= n <= blocks.len(),
    ensures
        match block_of(blocks, path, n) {
            Some(i) => 0 <= i < n && blocks[i].path@ == path,
            None => forall|i: int| 0 <= i < n ==> (#[trigger] blocks[i]).path@ != path,
        },
    decreases n,
{
    if n > 0 {
        law_a_preview_is_of_its_own_file(blocks, path, n - 1);
    }
}

} // verus!
