//! The outline of whole files: the first line of each definition, within a byte limit.
use vstd::prelude::*;

use crate::edit::spec::Kind;
use crate::error::{is_usage, usage, Error};
use crate::find::order::{sort, sorted, Placed};
use crate::output::{OutlineBlock, OutlineEntry};
use crate::text;
use crate::text::{byte_len, decimal, decimal_of, lines_of, texts};

verus! {

/// Keeps nearly every first line of a definition whole.
pub const OUTLINE_SIG_CAP: usize = 120;

/// How a target that narrows its file is written.
pub open spec fn form_of(kind: Kind) -> Option<Seq<char>> {
    match kind {
        Kind::Whole => None,
        Kind::Line(_) => Some(":line"@),
        Kind::Range(_, _) => Some(":a-b"@),
        Kind::Symbol(_) => Some("#symbol"@),
        Kind::Regex { .. } => Some("@'regex'"@),
    }
}

pub open spec fn narrowed_text(raw: Seq<char>, form: Seq<char>) -> Seq<char> {
    "--outline reads whole files, and "@ + raw + " is a "@ + form + " target \u{b7} drop the "@
        + form + " or --outline"@
}

/// An outline reads whole files, so a target that narrows one asks a different question.
pub fn narrowed(raw: &str, kind: &Kind) -> (r: Option<Error>)
    ensures
        match form_of(*kind) {
            Some(form) => r matches Some(error) && is_usage(error, narrowed_text(raw@, form)),
            None => r is None,
        },
{
    let form = match kind {
        Kind::Whole => return None,
        Kind::Line(_) => ":line",
        Kind::Range(_, _) => ":a-b",
        Kind::Symbol(_) => "#symbol",
        Kind::Regex { .. } => "@'regex'",
    };
    Some(
        usage(
            "--outline reads whole files, and ".to_owned().concat(raw).concat(" is a ").concat(
                form,
            ).concat(" target \u{b7} drop the ").concat(form).concat(" or --outline"),
        ),
    )
}

/// The lines of a definition, listed by the first, the longer of two that share it first.
#[derive(Debug)]
pub struct DefinitionSpan {
    pub line: usize,
    pub end_line: usize,
}

impl Placed for DefinitionSpan {
    open spec fn precedes(self, other: DefinitionSpan) -> bool {
        self.line < other.line || (self.line == other.line && self.end_line >= other.end_line)
    }

    proof fn lemma_total(a: DefinitionSpan, b: DefinitionSpan) {
    }

    proof fn lemma_transitive(a: DefinitionSpan, b: DefinitionSpan, c: DefinitionSpan) {
    }

    fn stands_before(&self, other: &DefinitionSpan) -> (r: bool) {
        self.line < other.line || (self.line == other.line && self.end_line >= other.end_line)
    }
}

/// In source order, an enclosing definition before one that starts on its first line.
pub fn definition_spans(spans: Vec<DefinitionSpan>) -> (r: Vec<DefinitionSpan>)
    ensures
        sorted(r@),
        r@.to_multiset() == spans@.to_multiset(),
        r@.len() == spans@.len(),
{
    sort(spans)
}

/// An entry as a value.
pub ghost struct Outlined {
    pub line: nat,
    pub end_line: nat,
    pub sig: Seq<char>,
}

impl OutlineEntry {
    pub open spec fn outlined(self) -> Outlined {
        Outlined { line: self.line as nat, end_line: self.end_line as nat, sig: self.sig@ }
    }
}

pub open spec fn outlined_all(entries: Seq<OutlineEntry>) -> Seq<Outlined> {
    entries.map_values(|entry: OutlineEntry| entry.outlined())
}

/// The entry of a definition, where the file has its first line.
pub open spec fn entry_of(content: Seq<char>, span: DefinitionSpan) -> Option<Outlined> {
    let lines = lines_of(content);
    if 1 <= span.line <= lines.len() {
        Some(
            Outlined {
                line: span.line as nat,
                end_line: if span.end_line < span.line {
                    span.line as nat
                } else if span.end_line > lines.len() {
                    lines.len()
                } else {
                    span.end_line as nat
                },
                sig: text::trimmed_start(lines[span.line - 1]),
            },
        )
    } else {
        None
    }
}

/// The entries of the first `n` definitions.
pub open spec fn entries_upto(
    content: Seq<char>,
    spans: Seq<DefinitionSpan>,
    n: int,
) -> Seq<Outlined>
    decreases n,
{
    if n <= 0 {
        Seq::empty()
    } else {
        match entry_of(content, spans[n - 1]) {
            Some(entry) => entries_upto(content, spans, n - 1).push(entry),
            None => entries_upto(content, spans, n - 1),
        }
    }
}

/// One file's outline, of the definitions that a parser found in it.
pub fn outline_of(raw: &str, path: &str, content: &str, spans: Vec<DefinitionSpan>) -> (r:
    OutlineBlock)
    ensures
        r.target@ == raw@,
        r.path@ == path@,
        !r.omitted,
        exists|list: Seq<DefinitionSpan>|
            sorted(list) && list.to_multiset() == spans@.to_multiset() && outlined_all(r.entries@)
                == #[trigger] entries_upto(content@, list, list.len() as int),
{
    let lines = text::lines(content);
    let spans = definition_spans(spans);
    let mut entries: Vec<OutlineEntry> = Vec::new();
    let mut i: usize = 0;
    assert(outlined_all(entries@) =~= Seq::empty());
    assert(texts(lines@).len() == lines@.len());
    while i < spans.len()
        invariant
            i <= spans@.len(),
            texts(lines@) == lines_of(content@),
            texts(lines@).len() == lines@.len(),
            outlined_all(entries@) == entries_upto(content@, spans@, i as int),
        decreases spans@.len() - i,
    {
        let line = spans[i].line;
        if 1 <= line && line <= lines.len() {
            let ghost had = entries@;
            assert(texts(lines@)[line - 1] == lines@[line - 1]@);
            let sig = text::trim_start(lines[line - 1].as_str()).to_owned();
            let end = spans[i].end_line;
            let end_line = if end < line {
                line
            } else if end > lines.len() {
                lines.len()
            } else {
                end
            };
            let entry = OutlineEntry { line, end_line, sig };
            entries.push(entry);
            assert(outlined_all(entries@) =~= outlined_all(had).push(entry.outlined()));
        }
        i = i + 1;
    }
    OutlineBlock { target: raw.to_owned(), path: path.to_owned(), entries, omitted: false }
}

/// A file whose language has no grammar has no outline.
pub fn no_grammar(path: &str, ext: &str) -> (r: Error)
    ensures
        r matches Error::NoGrammar { path: p, ext: e } && p@ == path@ && e@ == ext@,
{
    Error::NoGrammar { path: path.to_owned(), ext: ext.to_owned() }
}

/// A signature as it is shown: cut with the mark that a long line gets, so that it says so itself.
pub open spec fn capped(sig: Seq<char>) -> Seq<char> {
    if sig.len() > OUTLINE_SIG_CAP {
        sig.take(OUTLINE_SIG_CAP as int).push('\u{2026}')
    } else {
        sig
    }
}

pub fn cap_sig(sig: &mut String) -> (cut: bool)
    ensures
        final(sig)@ == capped(old(sig)@),
        cut == (old(sig)@.len() > OUTLINE_SIG_CAP),
{
    if sig.as_str().unicode_len() <= OUTLINE_SIG_CAP {
        return false;
    }
    let mut kept = sig.as_str().substring_char(0, OUTLINE_SIG_CAP).to_owned();
    kept.push('\u{2026}');
    *sig = kept;
    true
}

/// The bytes an entry is shown as: its lines, a tab, its signature and a newline.
pub open spec fn entry_weight(entry: Outlined) -> nat {
    let range = if entry.end_line == entry.line {
        decimal_of(entry.line).len()
    } else {
        decimal_of(entry.line).len() + 1 + decimal_of(entry.end_line).len()
    };
    range + 1 + byte_len(entry.sig) + 1
}

pub fn entry_bytes(entry: &OutlineEntry) -> (r: usize)
    requires
        entry_weight(entry.outlined()) <= usize::MAX,
    ensures
        r == entry_weight(entry.outlined()),
{
    let first = decimal(entry.line).as_str().unicode_len();
    let range = if entry.end_line == entry.line {
        first
    } else {
        first + 1 + decimal(entry.end_line).as_str().unicode_len()
    };
    range + 1 + text::len(entry.sig.as_str()) + 1
}

/// An entry with its signature cut.
pub open spec fn shown_entry(entry: Outlined) -> Outlined {
    Outlined { sig: capped(entry.sig), ..entry }
}

/// How far the entries have got: the bytes that are left, whether one did not fit, how many
/// signatures were cut and how many definitions are left out.
pub ghost struct Filled {
    pub room: nat,
    pub full: bool,
    pub cut: nat,
    pub left_out: nat,
}

/// The entries of one file from the `k`-th on are taken while they fit: how many of them there are
/// then, and where that leaves things.
pub open spec fn fill(entries: Seq<Outlined>, filled: Filled, k: nat) -> (nat, Filled)
    decreases entries.len() - k,
{
    if filled.full || k >= entries.len() {
        (k, filled)
    } else {
        let entry = shown_entry(entries[k as int]);
        if entry_weight(entry) > filled.room {
            (k, Filled { full: true, ..filled })
        } else {
            fill(
                entries,
                Filled {
                    room: (filled.room - entry_weight(entry)) as nat,
                    cut: filled.cut + (if entries[k as int].sig.len() > OUTLINE_SIG_CAP {
                        1nat
                    } else {
                        0nat
                    }),
                    ..filled
                },
                k + 1,
            )
        }
    }
}

/// One file's entries are taken, and those that did not fit are counted.
pub open spec fn fill_block(entries: Seq<Outlined>, filled: Filled) -> (nat, Filled) {
    let (kept, after) = fill(entries, filled, 0);
    (kept, Filled { left_out: after.left_out + (entries.len() - kept) as nat, ..after })
}

/// Where things stand after the first `n` files.
pub open spec fn filled_upto(blocks: Seq<OutlineBlock>, max_bytes: nat, n: int) -> Filled
    decreases n,
{
    if n <= 0 {
        Filled { room: max_bytes, full: false, cut: 0, left_out: 0 }
    } else {
        fill_block(
            outlined_all(blocks[n - 1].entries@),
            filled_upto(blocks, max_bytes, n - 1),
        ).1
    }
}

/// How many entries of the `i`-th file are kept.
pub open spec fn kept_of(blocks: Seq<OutlineBlock>, max_bytes: nat, i: int) -> nat {
    fill_block(outlined_all(blocks[i].entries@), filled_upto(blocks, max_bytes, i)).0
}

/// `after` is the outline `before` with its first `kept` entries, their signatures cut.
pub open spec fn is_filled_block(before: OutlineBlock, kept: nat, after: OutlineBlock) -> bool {
    &&& after.target == before.target
    &&& after.path == before.path
    &&& outlined_all(after.entries@) == outlined_all(before.entries@).take(kept as int).map_values(
        |entry: Outlined| shown_entry(entry),
    )
    &&& after.omitted == (before.omitted || kept < before.entries@.len())
}

proof fn lemma_fill(entries: Seq<Outlined>, filled: Filled, k: nat)
    requires
        k <= entries.len(),
    ensures
        ({
            let (kept, after) = fill(entries, filled, k);
            &&& k <= kept <= entries.len()
            &&& after.room <= filled.room
            &&& after.left_out == filled.left_out
            &&& filled.cut <= after.cut <= filled.cut + (kept - k)
            &&& kept < entries.len() ==> after.full
            &&& filled.full ==> after.full
        }),
    decreases entries.len() - k,
{
    if !filled.full && k < entries.len() {
        let entry = shown_entry(entries[k as int]);
        if entry_weight(entry) <= filled.room {
            lemma_fill(
                entries,
                Filled {
                    room: (filled.room - entry_weight(entry)) as nat,
                    cut: filled.cut + (if entries[k as int].sig.len() > OUTLINE_SIG_CAP {
                        1nat
                    } else {
                        0nat
                    }),
                    ..filled
                },
                k + 1,
            );
        }
    }
}

/// The bytes of a list of entries.
pub open spec fn entries_weight(entries: Seq<Outlined>) -> nat
    decreases entries.len(),
{
    if entries.len() == 0 {
        0
    } else {
        entries_weight(entries.drop_last()) + entry_weight(entries.last())
    }
}

/// The bytes of what is shown of the first `n` files.
pub open spec fn shown_weight(blocks: Seq<OutlineBlock>, n: int) -> nat
    decreases n,
{
    if n <= 0 {
        0
    } else {
        shown_weight(blocks, n - 1) + entries_weight(outlined_all(blocks[n - 1].entries@))
    }
}

proof fn lemma_fill_weight(entries: Seq<Outlined>, filled: Filled, k: nat)
    requires
        k <= entries.len(),
    ensures
        ({
            let (kept, after) = fill(entries, filled, k);
            let shown = entries.map_values(|entry: Outlined| shown_entry(entry));
            entries_weight(shown.take(kept as int)) + after.room == entries_weight(
                shown.take(k as int),
            ) + filled.room
        }),
    decreases entries.len() - k,
{
    if !filled.full && k < entries.len() {
        let entry = shown_entry(entries[k as int]);
        if entry_weight(entry) <= filled.room {
            let shown = entries.map_values(|entry: Outlined| shown_entry(entry));
            assert(shown.take(k as int + 1).drop_last() =~= shown.take(k as int));
            assert(shown.take(k as int + 1).last() == entry);
            lemma_fill_weight(
                entries,
                Filled {
                    room: (filled.room - entry_weight(entry)) as nat,
                    cut: filled.cut + (if entries[k as int].sig.len() > OUTLINE_SIG_CAP {
                        1nat
                    } else {
                        0nat
                    }),
                    ..filled
                },
                k + 1,
            );
        }
    }
}

/// What an outline shows is what it took off its limit, so it never shows more than the limit.
pub proof fn law_an_outline_stays_within_its_limit(
    before: Seq<OutlineBlock>,
    max_bytes: nat,
    after: Seq<OutlineBlock>,
    n: int,
)
    requires
        0 <= n <= before.len() == after.len(),
        forall|i: int|
            0 <= i < before.len() ==> is_filled_block(
                before[i],
                kept_of(before, max_bytes, i),
                #[trigger] after[i],
            ),
    ensures
        shown_weight(after, n) + filled_upto(before, max_bytes, n).room == max_bytes,
    decreases n,
{
    if n > 0 {
        law_an_outline_stays_within_its_limit(before, max_bytes, after, n - 1);
        let i = n - 1;
        let entries = outlined_all(before[i].entries@);
        let so_far = filled_upto(before, max_bytes, i);
        lemma_fill(entries, so_far, 0);
        lemma_fill_weight(entries, so_far, 0);
        let kept = kept_of(before, max_bytes, i);
        let shown = entries.map_values(|entry: Outlined| shown_entry(entry));
        assert(is_filled_block(before[i], kept, after[i]));
        assert(outlined_all(after[i].entries@) =~= shown.take(kept as int));
        assert(shown.take(0) =~= Seq::empty());
    }
}

/// A definition is left out only where one did not fit, and from then on all are.
pub proof fn law_nothing_is_shown_past_the_first_that_does_not_fit(
    blocks: Seq<OutlineBlock>,
    max_bytes: nat,
    i: int,
    j: int,
)
    requires
        0 <= i < j < blocks.len(),
        kept_of(blocks, max_bytes, i) < blocks[i].entries@.len(),
    ensures
        kept_of(blocks, max_bytes, j) == 0,
{
    lemma_fill(outlined_all(blocks[i].entries@), filled_upto(blocks, max_bytes, i), 0);
    lemma_full_stays(blocks, max_bytes, i + 1, j);
}

proof fn lemma_full_stays(blocks: Seq<OutlineBlock>, max_bytes: nat, m: int, n: int)
    requires
        0 <= m <= n,
        filled_upto(blocks, max_bytes, m).full,
    ensures
        filled_upto(blocks, max_bytes, n).full,
    decreases n,
{
    if m < n {
        lemma_full_stays(blocks, max_bytes, m, n - 1);
        lemma_fill(
            outlined_all(blocks[n - 1].entries@),
            filled_upto(blocks, max_bytes, n - 1),
            0,
        );
    }
}

/// How many entries the first `n` files have.
pub open spec fn entries_in(blocks: Seq<OutlineBlock>, n: int) -> nat
    decreases n,
{
    if n <= 0 {
        0
    } else {
        entries_in(blocks, n - 1) + blocks[n - 1].entries@.len()
    }
}

pub proof fn lemma_entries_mono(blocks: Seq<OutlineBlock>, m: int, n: int)
    requires
        0 <= m <= n,
    ensures
        entries_in(blocks, m) <= entries_in(blocks, n),
    decreases n,
{
    if m < n {
        lemma_entries_mono(blocks, m, n - 1);
    }
}

/// Every entry can be weighed.
pub open spec fn are_weighable(blocks: Seq<OutlineBlock>) -> bool {
    &&& entries_in(blocks, blocks.len() as int) <= usize::MAX
    &&& forall|i: int, k: int|
        #![trigger blocks[i].entries@[k]]
        0 <= i < blocks.len() && 0 <= k < blocks[i].entries@.len() ==> entry_weight(
            shown_entry(blocks[i].entries@[k].outlined()),
        ) <= usize::MAX
}

/// What an outline was filled with.
pub struct Outline {
    pub blocks: Vec<OutlineBlock>,
    pub room: usize,
    pub cut: usize,
    pub left_out: usize,
}

fn fill_entries(
    block: &mut OutlineBlock,
    room: usize,
    full: bool,
    cut: usize,
    Ghost(filled): Ghost<Filled>,
) -> (r: (usize, usize, bool, usize))
    requires
        filled.room == room,
        filled.full == full,
        filled.cut == cut,
        cut + old(block).entries@.len() <= usize::MAX,
        forall|k: int|
            0 <= k < old(block).entries@.len() ==> entry_weight(
                shown_entry((#[trigger] old(block).entries@[k]).outlined()),
            ) <= usize::MAX,
    ensures
        ({
            let (kept, after) = fill(outlined_all(old(block).entries@), filled, 0);
            &&& kept == r.0
            &&& after.room == r.1
            &&& after.full == r.2
            &&& after.cut == r.3
            &&& is_filled_block(*old(block), kept, *final(block))
            &&& kept <= old(block).entries@.len()
        }),
{
    let ghost before = *block;
    let ghost entries = outlined_all(block.entries@);
    let total = block.entries.len();
    let mut rest: Vec<OutlineEntry> = Vec::new();
    std::mem::swap(&mut rest, &mut block.entries);
    let mut room = room;
    let mut full = full;
    let mut cut = cut;
    let mut kept: Vec<OutlineEntry> = Vec::new();
    let ghost mut now = filled;
    assert(rest@ =~= before.entries@.skip(0));
    proof {
        lemma_fill(entries, filled, 0);
    }
    while !full && kept.len() < total
        invariant
            entries == outlined_all(before.entries@),
            total == before.entries@.len(),
            kept@.len() <= total,
            rest@ == before.entries@.skip(kept@.len() as int) || full,
            now.room == room,
            now.full == full,
            now.cut == cut,
            cut <= filled.cut + kept@.len(),
            filled.cut + total <= usize::MAX,
            fill(entries, now, kept@.len()) == fill(entries, filled, 0),
            outlined_all(kept@) == entries.take(kept@.len() as int).map_values(
                |entry: Outlined| shown_entry(entry),
            ),
            forall|k: int|
                0 <= k < before.entries@.len() ==> entry_weight(
                    shown_entry((#[trigger] before.entries@[k]).outlined()),
                ) <= usize::MAX,
        decreases total - kept@.len() + (if full {
            0int
        } else {
            1int
        }),
    {
        let ghost k = kept@.len() as int;
        let mut entry = rest.remove(0);
        let ghost this = before.entries@[k];
        assert(entry == this);
        assert(entries[k] == this.outlined());
        assert(entry_weight(shown_entry(this.outlined())) <= usize::MAX);
        let was_cut = cap_sig(&mut entry.sig);
        assert(entry.outlined() == shown_entry(this.outlined()));
        let bytes = entry_bytes(&entry);
        if bytes > room {
            full = true;
            proof {
                now = Filled { full: true, ..now };
            }
        } else {
            room = room - bytes;
            if was_cut {
                cut = cut + 1;
            }
            let ghost had = kept@;
            kept.push(entry);
            proof {
                now = Filled { room: room as nat, cut: cut as nat, ..now };
                assert(rest@ =~= before.entries@.skip(k + 1));
                let shown = entries.take(k + 1).map_values(
                    |entry: Outlined| shown_entry(entry),
                );
                assert forall|j: int| 0 <= j < k + 1 implies outlined_all(kept@)[j]
                    == #[trigger] shown[j] by {
                    if j < k {
                        assert(outlined_all(kept@)[j] == outlined_all(had)[j]);
                        assert(outlined_all(had)[j] == shown_entry(entries.take(k)[j]));
                    }
                }
                assert(outlined_all(kept@) =~= shown);
            }
        }
    }
    let count = kept.len();
    block.entries = kept;
    if count < total {
        block.omitted = true;
    }
    (count, room, full, cut)
}

/// Bounded by bytes rather than by a count: the length of a signature varies ten-fold.
pub fn fill_outline(blocks: Vec<OutlineBlock>, max_bytes: usize) -> (r: Outline)
    requires
        are_weighable(blocks@),
    ensures
        r.blocks@.len() == blocks@.len(),
        forall|i: int|
            0 <= i < blocks@.len() ==> is_filled_block(
                blocks@[i],
                kept_of(blocks@, max_bytes as nat, i),
                #[trigger] r.blocks@[i],
            ),
        ({
            let end = filled_upto(blocks@, max_bytes as nat, blocks@.len() as int);
            r.room == end.room && r.cut == end.cut && r.left_out == end.left_out
        }),
        r.room <= max_bytes,
        entries_in(r.blocks@, blocks@.len() as int) <= usize::MAX,
{
    let ghost before = blocks@;
    let ghost limit = max_bytes as nat;
    let mut blocks = blocks;
    let mut room = max_bytes;
    let mut full = false;
    let mut cut: usize = 0;
    let mut left_out: usize = 0;
    let count = blocks.len();
    let mut i: usize = 0;
    while i < count
        invariant
            i <= count == before.len() == blocks@.len(),
            limit == max_bytes,
            are_weighable(before),
            room <= max_bytes,
            ({
                let now = filled_upto(before, limit, i as int);
                now.room == room && now.full == full && now.cut == cut && now.left_out == left_out
            }),
            cut <= entries_in(before, i as int),
            left_out <= entries_in(before, i as int),
            entries_in(blocks@, i as int) <= entries_in(before, i as int),
            forall|k: int| i <= k < before.len() ==> blocks@[k] == before[k],
            forall|k: int|
                0 <= k < i ==> is_filled_block(
                    before[k],
                    kept_of(before, limit, k),
                    #[trigger] blocks@[k],
                ),
        decreases count - i,
    {
        proof {
            lemma_entries_mono(before, i + 1, before.len() as int);
            assert(before[i as int] == blocks@[i as int]);
            assert forall|k: int| 0 <= k < before[i as int].entries@.len() implies entry_weight(
                shown_entry((#[trigger] blocks@[i as int].entries@[k]).outlined()),
            ) <= usize::MAX by {
                assert(before[i as int].entries@[k] == blocks@[i as int].entries@[k]);
            }
            lemma_fill(outlined_all(before[i as int].entries@), filled_upto(before, limit, i as int), 0);
        }
        let ghost had = blocks@;
        let total = blocks[i].entries.len();
        let block = &mut blocks[i];
        let (kept, left, stop, more) = fill_entries(
            block,
            room,
            full,
            cut,
            Ghost(filled_upto(before, limit, i as int)),
        );
        room = left;
        full = stop;
        cut = more;
        left_out = left_out + (total - kept);
        proof {
            lemma_entries_same(had, blocks@, i as int);
            assert(outlined_all(blocks@[i as int].entries@).len() == kept);
        }
        i = i + 1;
    }
    proof {
        lemma_entries_mono(before, i as int, before.len() as int);
    }
    Outline { blocks, room, cut, left_out }
}

proof fn lemma_entries_same(a: Seq<OutlineBlock>, b: Seq<OutlineBlock>, n: int)
    requires
        0 <= n <= a.len(),
        n <= b.len(),
        forall|i: int| 0 <= i < n ==> a[i] == b[i],
    ensures
        entries_in(a, n) == entries_in(b, n),
    decreases n,
{
    if n > 0 {
        lemma_entries_same(a, b, n - 1);
    }
}

/// An outline has an entry for each definition that stands in the file, in the order of the
/// definitions: its line, the line it ends on, as far as the file goes, and what its first line says
/// from its first character that is not blank.
pub proof fn law_each_definition_has_its_entry(
    content: Seq<char>,
    spans: Seq<DefinitionSpan>,
    n: int,
)
    requires
        0 <= n <= spans.len(),
    ensures
        ({
            let entries = entries_upto(content, spans, n);
            let lines = text::lines_of(content);
            let there = |span: DefinitionSpan| 1 <= span.line <= lines.len();
            &&& entries.len() == spans.take(n).filter(there).len()
            &&& forall|k: int|
                0 <= k < entries.len() ==> {
                    let (entry, span) = (
                        #[trigger] entries[k],
                        spans.take(n).filter(there)[k],
                    );
                    let said = lines[span.line - 1];
                    &&& 1 <= span.line <= lines.len()
                    &&& entry.line == span.line
                    &&& span.line <= span.end_line <= lines.len() ==> entry.end_line
                        == span.end_line
                    &&& entry.line <= entry.end_line <= lines.len()
                    &&& entry.sig.is_suffix_of(said)
                    &&& entry.sig.len() > 0 ==> !text::is_space(entry.sig[0])
                    &&& forall|i: int|
                        0 <= i < said.len() - entry.sig.len() ==> text::is_space(#[trigger] said[i])
                }
        }),
    decreases n,
{
    reveal(Seq::filter);
    if n > 0 {
        law_each_definition_has_its_entry(content, spans, n - 1);
        assert(spans.take(n).drop_last() =~= spans.take(n - 1));
        let span = spans[n - 1];
        let lines = text::lines_of(content);
        if 1 <= span.line <= lines.len() {
            let said = lines[span.line - 1];
            let from = text::law_leading_white_space_comes_off(said);
            let sig = text::trimmed_start(said);
            assert(said.subrange(said.len() - sig.len(), said.len() as int) =~= sig);
        }
    }
}

/// A signature is shown as it is up to the cap, and else cut there and marked.
pub proof fn law_a_long_signature_is_cut_and_marked(sig: Seq<char>)
    ensures
        sig.len() <= OUTLINE_SIG_CAP ==> capped(sig) == sig,
        sig.len() > OUTLINE_SIG_CAP ==> {
            &&& capped(sig).len() == OUTLINE_SIG_CAP + 1
            &&& capped(sig).last() == '\u{2026}'
            &&& capped(sig).drop_last().is_prefix_of(sig)
        },
{
    if sig.len() > OUTLINE_SIG_CAP {
        assert(capped(sig).drop_last() =~= sig.subrange(0, OUTLINE_SIG_CAP as int));
    }
}

/// A definition of one line is shown by one number, a longer one by two with a dash between them.
pub proof fn law_an_entry_weighs_what_it_shows(entry: Outlined)
    ensures
        entry.line == entry.end_line ==> entry_weight(entry) == decimal_of(entry.line).len()
            + byte_len(entry.sig) + 2,
        entry.line != entry.end_line ==> entry_weight(entry) == decimal_of(entry.line).len()
            + decimal_of(entry.end_line).len() + byte_len(entry.sig) + 3,
{
}

} // verus!
