//! Showing what a target names: a file, some lines of it, a definition, or an outline.
//!
//! A target that cannot be resolved fails alone: the rest are still shown, every failure is named
//! in the footer and on stderr, and the first in argument order sets the exit.
use std::ops::Range;

use vstd::prelude::*;

use crate::edit::spec::Kind;
use crate::error::{is_usage, usage, Error};
use crate::find::args::Global;
use crate::find::respond::{count_of, cut_note};
use crate::find::shown::{
    are_cut, are_trimmed, content_size, lemma_bytes_in, lemma_cut_bytes, lemma_trimmed_bytes,
    overlong_in, same_but_lines, size_of, bytes_in,
};
use crate::output::{
    tell, tell_all, told_all, told_of, Body, Omission, Outcome, OutlineBlock, Response, Stats,
    TargetBlock, Told,
};
use crate::show::outline::{
    are_weighable, entries_in, fill_outline, filled_upto, form_of, is_filled_block, kept_of,
    narrowed, narrowed_text, Outline,
};
use crate::show::resolve::{keep_in, numbers_in, Resolved, ShowArgs};
use crate::text::{decimal, plural_suffix};
use crate::window;
use crate::window::{blocks_bytes, last_number};

pub mod outline;
pub mod read;
pub mod resolve;

verus! {

/// What the first `n` targets came to: their blocks, what the footer says, and their failures.
pub ghost struct Gathered {
    pub blocks: Seq<TargetBlock>,
    pub told: Seq<Told>,
    pub errors: Seq<Error>,
}

/// A target that could not be resolved.
pub open spec fn unresolved(raw: Seq<char>, error: Error) -> Told {
    Told::Unresolved { target: raw, error: error.slug_of() }
}

pub open spec fn gathered_upto(targets: Seq<String>, resolved: Seq<Resolved>, n: int) -> Gathered
    decreases n,
{
    if n <= 0 {
        Gathered { blocks: Seq::empty(), told: Seq::empty(), errors: Seq::empty() }
    } else {
        let so_far = gathered_upto(targets, resolved, n - 1);
        let told = so_far.told + told_all(resolved[n - 1].notes@);
        match resolved[n - 1].result {
            Ok(block) => Gathered { blocks: so_far.blocks.push(block), told, ..so_far },
            Err(error) => Gathered {
                told: told.push(unresolved(targets[n - 1]@, error)),
                errors: so_far.errors.push(error),
                ..so_far
            },
        }
    }
}

/// What the targets came to.
struct Found {
    blocks: Vec<TargetBlock>,
    omitted: Vec<Omission>,
    errors: Vec<Error>,
}

fn gather(targets: &Vec<String>, resolved: Vec<Resolved>) -> (r: Found)
    requires
        targets@.len() == resolved@.len(),
    ensures
        ({
            let all = gathered_upto(targets@, resolved@, resolved@.len() as int);
            &&& r.blocks@ == all.blocks
            &&& told_all(r.omitted@) == all.told
            &&& r.errors@ == all.errors
        }),
{
    let ghost all = resolved@;
    let mut rest = resolved;
    let mut blocks: Vec<TargetBlock> = Vec::new();
    let mut omitted: Vec<Omission> = Vec::new();
    let mut errors: Vec<Error> = Vec::new();
    let count = rest.len();
    let mut i: usize = 0;
    assert(rest@ =~= all.skip(0));
    assert(told_all(omitted@) =~= Seq::empty());
    while i < count
        invariant
            i <= count == all.len() == targets@.len(),
            rest@ == all.skip(i as int),
            ({
                let so_far = gathered_upto(targets@, all, i as int);
                &&& blocks@ == so_far.blocks
                &&& told_all(omitted@) == so_far.told
                &&& errors@ == so_far.errors
            }),
        decreases count - i,
    {
        let one = rest.remove(0);
        assert(one == all[i as int]);
        assert(rest@ =~= all.skip(i + 1));
        tell_all(&mut omitted, one.notes);
        match one.result {
            Ok(block) => blocks.push(block),
            Err(error) => {
                let slug = error.slug();
                tell(
                    &mut omitted,
                    Omission::Unresolved { target: targets[i].clone(), error: slug.to_owned() },
                );
                errors.push(error);
            },
        }
        i = i + 1;
    }
    Found { blocks, omitted, errors }
}

/// Each block with its long lines cut.
pub open spec fn are_cut_whole(before: Seq<TargetBlock>, after: Seq<TargetBlock>) -> bool {
    &&& after.len() == before.len()
    &&& forall|i: int|
        0 <= i < before.len() ==> same_but_lines(before[i], #[trigger] after[i]) && are_cut(
            before[i].lines@,
            Seq::empty(),
            after[i].lines@,
        )
}

fn cut_whole(blocks: &mut Vec<TargetBlock>) -> (cut: usize)
    requires
        blocks_bytes(old(blocks)@) <= usize::MAX,
    ensures
        are_cut_whole(old(blocks)@, final(blocks)@),
        cut == overlong_in(old(blocks)@, old(blocks)@.len() as int),
{
    let ghost before = blocks@;
    let hits: [Option<Range<usize>>; 0] = [];
    let mut cut: usize = 0;
    let mut i: usize = 0;
    proof {
        lemma_bytes_in(before, before.len() as int);
    }
    while i < blocks.len()
        invariant
            i <= blocks@.len() == before.len(),
            hits@ == Seq::<Option<Range<usize>>>::empty(),
            overlong_in(before, before.len() as int) <= usize::MAX,
            cut == overlong_in(before, i as int),
            forall|k: int| i <= k < before.len() ==> blocks@[k] == before[k],
            forall|k: int|
                0 <= k < i ==> same_but_lines(before[k], #[trigger] blocks@[k]) && are_cut(
                    before[k].lines@,
                    Seq::empty(),
                    blocks@[k].lines@,
                ),
        decreases blocks@.len() - i,
    {
        proof {
            crate::find::shown::lemma_bytes_mono(before, i + 1, before.len() as int);
        }
        let block = &mut blocks[i];
        let more = window::cut_long_lines(block.lines.as_mut_slice(), &hits);
        cut = cut + more;
        assert(are_cut(before[i as int].lines@, Seq::empty(), blocks@[i as int].lines@));
        i = i + 1;
    }
    cut
}

/// `after` names only those lines as undecoded that a trim left.
pub open spec fn is_retained(before: TargetBlock, after: TargetBlock) -> bool {
    &&& after == (TargetBlock { lossy_lines: after.lossy_lines, ..before })
    &&& after.lossy_lines@ == numbers_in(
        before.lossy_lines@,
        0,
        last_number(before.lines@) as int,
        before.lossy_lines@.len() as int,
    )
}

fn retain_lossy(blocks: &mut Vec<TargetBlock>)
    ensures
        final(blocks)@.len() == old(blocks)@.len(),
        forall|i: int|
            0 <= i < old(blocks)@.len() ==> is_retained(
                old(blocks)@[i],
                #[trigger] final(blocks)@[i],
            ),
{
    let ghost before = blocks@;
    let count = blocks.len();
    let mut i: usize = 0;
    while i < count
        invariant
            i <= count == blocks@.len() == before.len(),
            forall|k: int| i <= k < before.len() ==> blocks@[k] == before[k],
            forall|k: int| 0 <= k < i ==> is_retained(before[k], #[trigger] blocks@[k]),
        decreases count - i,
    {
        let last = if blocks[i].lines.len() == 0 {
            0
        } else {
            blocks[i].lines[blocks[i].lines.len() - 1].number
        };
        let kept = keep_in(&blocks[i].lossy_lines, 0, last);
        let block = &mut blocks[i];
        block.lossy_lines = kept;
        i = i + 1;
    }
}

/// The blocks as they are shown: with their long lines cut, ahead of the limits, so that one
/// minified line is cut and not refused; and trimmed to the budget, where there is one.
pub struct Fitted {
    pub blocks: Vec<TargetBlock>,
    pub cut: usize,
    pub trimmed: Vec<Omission>,
    pub whole: Ghost<Seq<TargetBlock>>,
    pub short: Ghost<Seq<TargetBlock>>,
}

impl Fitted {
    pub open spec fn is(self, blocks: Seq<TargetBlock>, budget: Option<usize>) -> bool {
        &&& are_cut_whole(blocks, self.whole@)
        &&& self.cut == overlong_in(blocks, blocks.len() as int)
        &&& match budget {
            Some(budget) => {
                &&& are_trimmed(self.whole@, budget, self.short@, self.trimmed@)
                &&& self.blocks@.len() == self.short@.len()
                &&& forall|i: int|
                    0 <= i < self.short@.len() ==> is_retained(
                        self.short@[i],
                        #[trigger] self.blocks@[i],
                    )
            },
            None => self.blocks@ == self.whole@ && self.trimmed@.len() == 0,
        }
    }
}

/// The lines of the blocks can be counted.
pub open spec fn are_countable(blocks: Seq<TargetBlock>) -> bool {
    &&& 2 * blocks_bytes(blocks) <= usize::MAX
    &&& forall|i: int, k: int|
        0 <= i < blocks.len() && blocks[i].span is Some && 0 <= k < blocks[i].lines@.len()
            ==> #[trigger] blocks[i].lines@[k].number < usize::MAX
}

proof fn lemma_cut_whole_bytes(before: Seq<TargetBlock>, after: Seq<TargetBlock>, n: int)
    requires
        are_cut_whole(before, after),
        0 <= n <= before.len(),
    ensures
        bytes_in(after, n) <= 2 * bytes_in(before, n),
    decreases n,
{
    if n > 0 {
        lemma_cut_whole_bytes(before, after, n - 1);
        assert(same_but_lines(before[n - 1], after[n - 1]));
        lemma_cut_bytes(before[n - 1].lines@, Seq::empty(), after[n - 1].lines@);
    }
}

proof fn lemma_retained_bytes(before: Seq<TargetBlock>, after: Seq<TargetBlock>, n: int)
    requires
        0 <= n <= before.len() == after.len(),
        forall|i: int| 0 <= i < before.len() ==> is_retained(before[i], #[trigger] after[i]),
    ensures
        bytes_in(after, n) == bytes_in(before, n),
    decreases n,
{
    if n > 0 {
        lemma_retained_bytes(before, after, n - 1);
        assert(is_retained(before[n - 1], after[n - 1]));
    }
}

fn fit(blocks: Vec<TargetBlock>, budget: Option<usize>) -> (r: Fitted)
    requires
        are_countable(blocks@),
    ensures
        r.is(blocks@, budget),
        blocks_bytes(r.blocks@) <= usize::MAX,
        r.blocks@.len() == blocks@.len(),
{
    let ghost before = blocks@;
    let ghost n = before.len() as int;
    let mut blocks = blocks;
    let cut = cut_whole(&mut blocks);
    let ghost whole = blocks@;
    proof {
        lemma_bytes_in(before, n);
        lemma_bytes_in(whole, n);
        lemma_cut_whole_bytes(before, whole, n);
        assert forall|i: int, k: int|
            0 <= i < whole.len() && whole[i].span is Some && 0 <= k
                < whole[i].lines@.len() implies #[trigger] whole[i].lines@[k].number < usize::MAX by {
            assert(same_but_lines(before[i], whole[i]));
            assert(whole[i].lines@[k].number == before[i].lines@[k].number);
        }
    }
    let mut trimmed: Vec<Omission> = Vec::new();
    let ghost mut short = whole;
    if let Some(budget) = budget {
        trimmed = window::trim_to_budget(blocks.as_mut_slice(), budget);
        proof {
            short = blocks@;
            assert(are_trimmed(whole, budget, short, trimmed@));
            lemma_trimmed_bytes(whole, budget, short, trimmed@, n);
        }
        retain_lossy(&mut blocks);
        proof {
            lemma_retained_bytes(short, blocks@, n);
        }
    }
    proof {
        lemma_bytes_in(blocks@, n);
    }
    Fitted { blocks, cut, trimmed, whole: Ghost(whole), short: Ghost(short) }
}

/// Refused whole, not trimmed: the caller picks what to ask for instead of paying for a cut answer.
pub open spec fn is_over(global: Global, bytes: nat) -> bool {
    global.budget is None && bytes > global.max_bytes
}

pub fn over_max_bytes(global: &Global, bytes: usize) -> (r: Option<Error>)
    ensures
        r == (if is_over(*global, bytes as nat) {
            Some(Error::OverBudget { bytes: bytes as u64, limit: global.max_bytes as u64 })
        } else {
            None::<Error>
        }),
{
    if global.budget.is_some() || bytes <= global.max_bytes {
        return None;
    }
    Some(Error::OverBudget { bytes: bytes as u64, limit: global.max_bytes as u64 })
}

/// The line under an answer.
pub open spec fn summary_text(targets: nat, count: nat, thing: Seq<char>) -> Seq<char> {
    "showed "@ + count_of(targets, " target"@) + " \u{b7} "@ + count_of(count, thing)
}

fn summary(targets: usize, count: usize, thing: &str) -> (r: String)
    ensures
        r@ == summary_text(targets as nat, count as nat, thing@),
{
    let shown = decimal(targets).concat(" target").concat(plural_suffix(targets));
    let counted = decimal(count).concat(thing).concat(plural_suffix(count));
    "showed ".to_owned().concat(shown.as_str()).concat(" \u{b7} ").concat(counted.as_str())
}

/// The answer that shows the targets.
pub open spec fn is_shown(
    outcome: Outcome,
    gathered: Gathered,
    fitted: Fitted,
    args: ShowArgs,
    global: Global,
) -> bool {
    let (lines, bytes) = size_of(fitted.blocks@);
    if gathered.errors.len() > 0 && gathered.blocks.len() == 0 {
        outcome.response.is_empty_for("show"@) && Error::stands_for(
            outcome.error,
            gathered.errors,
        )
    } else if is_over(global, bytes) {
        outcome.is_failed(
            "show"@,
            Error::OverBudget { bytes: bytes as u64, limit: global.max_bytes as u64 },
        )
    } else {
        let response = outcome.response;
        &&& response.verb@ == "show"@
        &&& response.no_header == args.no_header
        &&& told_all(response.omitted@) == gathered.told + cut_note(fitted.cut) + told_all(
            fitted.trimmed@,
        )
        &&& response.stats == (Stats { lines: lines as usize, bytes: bytes as usize })
        &&& response.summary@ == summary_text(gathered.blocks.len(), lines, " line"@)
        &&& response.body == Body::Targets(fitted.blocks)
        &&& response.top_files@.len() == 0
        &&& response.top_files_more == 0
        &&& Error::stands_for(outcome.error, gathered.errors)
    }
}

/// The targets, each looked up in its file already, in the order they were given.
pub fn run(args: &ShowArgs, global: &Global, resolved: Vec<Resolved>) -> (outcome: Outcome)
    requires
        args.targets@.len() == resolved@.len(),
        are_countable(gathered_upto(args.targets@, resolved@, resolved@.len() as int).blocks),
    ensures
        exists|fitted: Fitted| #[trigger]
            fitted.is(
                gathered_upto(args.targets@, resolved@, resolved@.len() as int).blocks,
                global.budget,
            ) && is_shown(
                outcome,
                gathered_upto(args.targets@, resolved@, resolved@.len() as int),
                fitted,
                *args,
                *global,
            ),
{
    let ghost all = gathered_upto(args.targets@, resolved@, resolved@.len() as int);
    let found = gather(&args.targets, resolved);
    let shown_targets = found.blocks.len();
    let fitted = fit(found.blocks, global.budget);
    let ghost kept = fitted;
    let mut omitted = found.omitted;
    if fitted.cut > 0 {
        tell(&mut omitted, Omission::LongLinesCut { lines: fitted.cut });
    }
    assert(told_all(omitted@) =~= all.told + cut_note(fitted.cut));
    tell_all(&mut omitted, fitted.trimmed);
    let (lines, bytes) = content_size(fitted.blocks.as_slice());
    let failure = Error::all(found.errors);
    if shown_targets == 0 {
        if let Some(error) = failure {
            return Outcome::failed("show", error);
        }
    }
    if let Some(over) = over_max_bytes(global, bytes) {
        return Outcome::failed("show", over);
    }
    let mut response = Response::empty("show");
    response.no_header = args.no_header;
    response.omitted = omitted;
    response.stats = Stats { lines, bytes };
    response.summary = summary(shown_targets, lines, " line");
    response.body = Body::Targets(fitted.blocks);
    Outcome { response, error: failure }
}

/// The first of the first `n` targets that narrows its file, and how it is written.
pub open spec fn conflict_upto(targets: Seq<String>, kinds: Seq<Kind>, n: int) -> Option<Seq<char>>
    decreases n,
{
    if n <= 0 {
        None
    } else {
        match conflict_upto(targets, kinds, n - 1) {
            Some(said) => Some(said),
            None => match form_of(kinds[n - 1]) {
                Some(form) => Some(narrowed_text(targets[n - 1]@, form)),
                None => None,
            },
        }
    }
}

proof fn lemma_conflict(targets: Seq<String>, kinds: Seq<Kind>, m: int, n: int)
    requires
        0 <= m <= n,
        conflict_upto(targets, kinds, m) is Some,
    ensures
        conflict_upto(targets, kinds, n) == conflict_upto(targets, kinds, m),
    decreases n,
{
    if m < n {
        lemma_conflict(targets, kinds, m, n - 1);
    }
}

pub open spec fn header_conflict() -> Seq<char> {
    "--outline --no-header prints no file name, and several targets need one \u{b7} pass one target at a time"@
}

/// What keeps an outline from being made.
pub open spec fn outline_refusal(args: ShowArgs, kinds: Seq<Kind>) -> Option<Seq<char>> {
    match conflict_upto(args.targets@, kinds, kinds.len() as int) {
        Some(said) => Some(said),
        None => if args.no_header && args.targets@.len() > 1 {
            Some(header_conflict())
        } else {
            None
        },
    }
}

/// Before any file is read: no target may narrow its file, and several need their headers, since
/// entries carry no file name.
pub fn refuse_outline(args: &ShowArgs, kinds: &Vec<Kind>) -> (r: Option<Outcome>)
    requires
        kinds@.len() == args.targets@.len(),
    ensures
        match outline_refusal(*args, kinds@) {
            Some(said) => r matches Some(outcome) && outcome.response.is_empty_for("show"@) && (
            outcome.error matches Some(error) && is_usage(error, said)),
            None => r is None,
        },
{
    let mut i: usize = 0;
    while i < kinds.len()
        invariant
            i <= kinds@.len() == args.targets@.len(),
            conflict_upto(args.targets@, kinds@, i as int) is None,
        decreases kinds@.len() - i,
    {
        if let Some(error) = narrowed(args.targets[i].as_str(), &kinds[i]) {
            proof {
                lemma_conflict(args.targets@, kinds@, i + 1, kinds@.len() as int);
            }
            return Some(Outcome::failed("show", error));
        }
        i = i + 1;
    }
    if args.no_header && args.targets.len() > 1 {
        return Some(
            Outcome::failed(
                "show",
                usage(
                    "--outline --no-header prints no file name, and several targets need one \u{b7} pass one target at a time".to_owned(),
                ),
            ),
        );
    }
    None
}

/// What the first `n` files came to.
pub ghost struct Outlines {
    pub blocks: Seq<OutlineBlock>,
    pub told: Seq<Told>,
    pub errors: Seq<Error>,
}

pub open spec fn outlines_upto(
    targets: Seq<String>,
    files: Seq<Result<OutlineBlock, Error>>,
    n: int,
) -> Outlines
    decreases n,
{
    if n <= 0 {
        Outlines { blocks: Seq::empty(), told: Seq::empty(), errors: Seq::empty() }
    } else {
        let so_far = outlines_upto(targets, files, n - 1);
        match files[n - 1] {
            Ok(block) => Outlines { blocks: so_far.blocks.push(block), ..so_far },
            Err(error) => Outlines {
                told: so_far.told.push(unresolved(targets[n - 1]@, error)),
                errors: so_far.errors.push(error),
                ..so_far
            },
        }
    }
}

fn gather_outlines(targets: &Vec<String>, files: Vec<Result<OutlineBlock, Error>>) -> (r: (
    Vec<OutlineBlock>,
    Vec<Omission>,
    Vec<Error>,
))
    requires
        targets@.len() == files@.len(),
    ensures
        ({
            let all = outlines_upto(targets@, files@, files@.len() as int);
            &&& r.0@ == all.blocks
            &&& told_all(r.1@) == all.told
            &&& r.2@ == all.errors
        }),
{
    let ghost all = files@;
    let mut rest = files;
    let mut blocks: Vec<OutlineBlock> = Vec::new();
    let mut omitted: Vec<Omission> = Vec::new();
    let mut errors: Vec<Error> = Vec::new();
    let count = rest.len();
    let mut i: usize = 0;
    assert(rest@ =~= all.skip(0));
    assert(told_all(omitted@) =~= Seq::empty());
    while i < count
        invariant
            i <= count == all.len() == targets@.len(),
            rest@ == all.skip(i as int),
            ({
                let so_far = outlines_upto(targets@, all, i as int);
                &&& blocks@ == so_far.blocks
                &&& told_all(omitted@) == so_far.told
                &&& errors@ == so_far.errors
            }),
        decreases count - i,
    {
        let one = rest.remove(0);
        assert(one == all[i as int]);
        assert(rest@ =~= all.skip(i + 1));
        match one {
            Ok(block) => blocks.push(block),
            Err(error) => {
                let slug = error.slug();
                tell(
                    &mut omitted,
                    Omission::Unresolved { target: targets[i].clone(), error: slug.to_owned() },
                );
                errors.push(error);
            },
        }
        i = i + 1;
    }
    (blocks, omitted, errors)
}

/// The answer that outlines the files.
pub open spec fn is_outlined(
    outcome: Outcome,
    all: Outlines,
    args: ShowArgs,
    max_bytes: usize,
) -> bool {
    let end = filled_upto(all.blocks, max_bytes as nat, all.blocks.len() as int);
    if all.errors.len() > 0 && all.blocks.len() == 0 {
        outcome.response.is_empty_for("show"@) && Error::stands_for(outcome.error, all.errors)
    } else {
        let response = outcome.response;
        &&& response.verb@ == "show"@
        &&& response.no_header == args.no_header
        &&& told_all(response.omitted@) == all.told + cut_note(end.cut as usize) + told_of(
            if end.left_out > 0 {
                Some(
                    Omission::OutlineTrimmed {
                        limit: max_bytes,
                        definitions: end.left_out as usize,
                    },
                )
            } else {
                None
            },
        )
        &&& response.body matches Body::Outline(blocks) && {
            &&& blocks@.len() == all.blocks.len()
            &&& forall|i: int|
                0 <= i < blocks@.len() ==> is_filled_block(
                    all.blocks[i],
                    kept_of(all.blocks, max_bytes as nat, i),
                    #[trigger] blocks@[i],
                )
            &&& response.stats.lines == entries_in(blocks@, blocks@.len() as int)
            &&& response.summary@ == summary_text(
                blocks@.len(),
                entries_in(blocks@, blocks@.len() as int),
                " definition"@,
            )
        }
        &&& response.stats.bytes == max_bytes - end.room
        &&& response.top_files@.len() == 0
        &&& response.top_files_more == 0
        &&& Error::stands_for(outcome.error, all.errors)
    }
}

fn count_entries(blocks: &Vec<OutlineBlock>) -> (r: usize)
    requires
        entries_in(blocks@, blocks@.len() as int) <= usize::MAX,
    ensures
        r == entries_in(blocks@, blocks@.len() as int),
{
    let mut count: usize = 0;
    let mut i: usize = 0;
    while i < blocks.len()
        invariant
            i <= blocks@.len(),
            entries_in(blocks@, blocks@.len() as int) <= usize::MAX,
            count == entries_in(blocks@, i as int),
        decreases blocks@.len() - i,
    {
        proof {
            crate::show::outline::lemma_entries_mono(blocks@, i + 1, blocks@.len() as int);
        }
        count = count + blocks[i].entries.len();
        i = i + 1;
    }
    count
}

/// The outlines of the files, each read and parsed already, in the order they were given.
pub fn outline(args: &ShowArgs, global: &Global, files: Vec<Result<OutlineBlock, Error>>) -> (
    outcome: Outcome)
    requires
        args.targets@.len() == files@.len(),
        are_weighable(outlines_upto(args.targets@, files@, files@.len() as int).blocks),
    ensures
        is_outlined(
            outcome,
            outlines_upto(args.targets@, files@, files@.len() as int),
            *args,
            global.max_bytes,
        ),
{
    let ghost all = outlines_upto(args.targets@, files@, files@.len() as int);
    let (blocks, mut omitted, errors) = gather_outlines(&args.targets, files);
    let resolved = blocks.len();
    let filled = fill_outline(blocks, global.max_bytes);
    if filled.cut > 0 {
        tell(&mut omitted, Omission::LongLinesCut { lines: filled.cut });
    }
    assert(told_all(omitted@) =~= all.told + cut_note(filled.cut));
    if filled.left_out > 0 {
        tell(
            &mut omitted,
            Omission::OutlineTrimmed { limit: global.max_bytes, definitions: filled.left_out },
        );
    }
    assert(told_all(omitted@) =~= all.told + cut_note(filled.cut) + told_of(
        if filled.left_out > 0 {
            Some(
                Omission::OutlineTrimmed { limit: global.max_bytes, definitions: filled.left_out },
            )
        } else {
            None
        },
    ));
    let failure = Error::all(errors);
    if resolved == 0 {
        if let Some(error) = failure {
            return Outcome::failed("show", error);
        }
    }
    let shown = count_entries(&filled.blocks);
    let mut response = Response::empty("show");
    response.no_header = args.no_header;
    response.omitted = omitted;
    response.stats = Stats { lines: shown, bytes: global.max_bytes - filled.room };
    response.summary = summary(resolved, shown, " definition");
    response.body = Body::Outline(filled.blocks);
    Outcome { response, error: failure }
}

/// Every target is answered: those that were resolved are shown in the order they were given, and
/// each of the others is named in the footer with its failure.
pub proof fn law_every_target_is_answered(targets: Seq<String>, resolved: Seq<Resolved>, n: int)
    requires
        0 <= n <= resolved.len() == targets.len(),
    ensures
        ({
            let all = gathered_upto(targets, resolved, n);
            &&& all.blocks == resolved.take(n).filter(|one: Resolved| one.result is Ok).map_values(
                |one: Resolved| one.result->Ok_0,
            )
            &&& all.errors == resolved.take(n).filter(|one: Resolved| one.result is Err).map_values(
                |one: Resolved| one.result->Err_0,
            )
            &&& forall|i: int|
                0 <= i < n && (#[trigger] resolved[i]).result is Err ==> all.told.contains(
                    Told::Unresolved {
                        target: targets[i]@,
                        error: resolved[i].result->Err_0.slug_of(),
                    },
                )
            &&& forall|i: int, k: int|
                0 <= i < n && 0 <= k < resolved[i].notes@.len() ==> all.told.contains(
                    #[trigger] told_all(resolved[i].notes@)[k],
                )
        }),
    decreases n,
{
    reveal(Seq::filter);
    if n > 0 {
        law_every_target_is_answered(targets, resolved, n - 1);
        let (had, all) = (
            gathered_upto(targets, resolved, n - 1),
            gathered_upto(targets, resolved, n),
        );
        assert(resolved.take(n).drop_last() =~= resolved.take(n - 1));
        let notes = told_all(resolved[n - 1].notes@);
        assert(all.blocks =~= resolved.take(n).filter(
            |one: Resolved| one.result is Ok,
        ).map_values(|one: Resolved| one.result->Ok_0));
        assert(all.errors =~= resolved.take(n).filter(
            |one: Resolved| one.result is Err,
        ).map_values(|one: Resolved| one.result->Err_0));
        assert(had.told.is_prefix_of(all.told));
        assert forall|t: Told| #[trigger] had.told.contains(t) implies all.told.contains(t) by {
            let j = choose|j: int| 0 <= j < had.told.len() && had.told[j] == t;
            assert(all.told[j] == t);
        }
        assert forall|i: int|
            0 <= i < n && (#[trigger] resolved[i]).result is Err implies all.told.contains(
            Told::Unresolved { target: targets[i]@, error: resolved[i].result->Err_0.slug_of() },
        ) by {
            if i == n - 1 {
                assert(all.told[all.told.len() - 1] == unresolved(
                    targets[i]@,
                    resolved[i].result->Err_0,
                ));
            }
        }
        assert forall|i: int, k: int|
            0 <= i < n && 0 <= k < resolved[i].notes@.len() implies all.told.contains(
            #[trigger] told_all(resolved[i].notes@)[k],
        ) by {
            if i == n - 1 {
                assert(all.told[had.told.len() + k] == notes[k]);
            } else {
                assert(had.told.contains(told_all(resolved[i].notes@)[k]));
            }
        }
    } else {
        assert(resolved.take(0) =~= Seq::empty());
        assert(gathered_upto(targets, resolved, 0).blocks =~= resolved.take(0).filter(
            |one: Resolved| one.result is Ok,
        ).map_values(|one: Resolved| one.result->Ok_0));
        assert(gathered_upto(targets, resolved, 0).errors =~= resolved.take(0).filter(
            |one: Resolved| one.result is Err,
        ).map_values(|one: Resolved| one.result->Err_0));
    }
}

/// A target that failed leaves the others shown: every block is in the answer, with all of its lines
/// where no budget was given, and the failures stand beside it.
pub proof fn law_a_failure_leaves_the_others_shown(
    outcome: Outcome,
    gathered: Gathered,
    fitted: Fitted,
    args: ShowArgs,
    global: Global,
)
    requires
        fitted.is(gathered.blocks, global.budget),
        is_shown(outcome, gathered, fitted, args, global),
        gathered.blocks.len() > 0,
    ensures
        outcome.response.body matches Body::Targets(shown) ==> {
            &&& shown@.len() == gathered.blocks.len()
            &&& outcome.error is None <==> gathered.errors.len() == 0
            &&& gathered.errors.len() == 1 ==> outcome.error == Some(gathered.errors[0])
            &&& forall|t: Told|
                gathered.told.contains(t) ==> #[trigger] told_all(
                    outcome.response.omitted@,
                ).contains(t)
            &&& global.budget is None ==> outcome.response.stats.bytes <= global.max_bytes
                || size_of(fitted.blocks@).1 > usize::MAX
            &&& global.budget is None ==> forall|i: int, k: int|
                0 <= i < shown@.len() ==> shown@[i].lines@.len() == gathered.blocks[i].lines@.len()
                    && (0 <= k < shown@[i].lines@.len() ==> {
                    let (line, was) = (
                        #[trigger] shown@[i].lines@[k],
                        gathered.blocks[i].lines@[k],
                    );
                    &&& line.number == was.number
                    &&& line.marker == was.marker
                    &&& crate::text::byte_len(was.text@) <= window::LINE_DISPLAY_CAP ==> line == was
                })
        },
        outcome.response.body !is Targets ==> global.budget is None && outcome.error matches Some(
            Error::OverBudget { .. },
        ),
{
    if let Body::Targets(shown) = outcome.response.body {
        let all = told_all(outcome.response.omitted@);
        assert forall|t: Told| gathered.told.contains(t) implies #[trigger] all.contains(t) by {
            let j = choose|j: int| 0 <= j < gathered.told.len() && gathered.told[j] == t;
            assert(all[j] == t);
        }
        if global.budget is None {
            assert forall|i: int, k: int| 0 <= i < shown@.len() implies shown@[i].lines@.len()
                == gathered.blocks[i].lines@.len() && (0 <= k < shown@[i].lines@.len() ==> {
                let (line, was) = (#[trigger] shown@[i].lines@[k], gathered.blocks[i].lines@[k]);
                &&& line.number == was.number
                &&& line.marker == was.marker
                &&& crate::text::byte_len(was.text@) <= window::LINE_DISPLAY_CAP ==> line == was
            }) by {
                assert(same_but_lines(gathered.blocks[i], fitted.whole@[i]));
                if 0 <= k < shown@[i].lines@.len() {
                    assert(fitted.whole@[i].lines@[k] == shown@[i].lines@[k]);
                }
            }
        }
    }
}

/// Every file that was asked for is answered: those that could be read are outlined in the order they
/// were given, and each of the others is named in the footer with its failure.
pub proof fn law_every_file_to_outline_is_answered(
    targets: Seq<String>,
    files: Seq<Result<OutlineBlock, Error>>,
    n: int,
)
    requires
        0 <= n <= files.len() == targets.len(),
    ensures
        ({
            let all = outlines_upto(targets, files, n);
            &&& all.blocks == files.take(n).filter(
                |one: Result<OutlineBlock, Error>| one is Ok,
            ).map_values(|one: Result<OutlineBlock, Error>| one->Ok_0)
            &&& all.errors == files.take(n).filter(
                |one: Result<OutlineBlock, Error>| one is Err,
            ).map_values(|one: Result<OutlineBlock, Error>| one->Err_0)
            &&& forall|i: int|
                0 <= i < n && (#[trigger] files[i]) is Err ==> all.told.contains(
                    Told::Unresolved { target: targets[i]@, error: files[i]->Err_0.slug_of() },
                )
        }),
    decreases n,
{
    reveal(Seq::filter);
    let ok = |one: Result<OutlineBlock, Error>| one is Ok;
    let bad = |one: Result<OutlineBlock, Error>| one is Err;
    let all = outlines_upto(targets, files, n);
    if n > 0 {
        law_every_file_to_outline_is_answered(targets, files, n - 1);
        let had = outlines_upto(targets, files, n - 1);
        assert(files.take(n).drop_last() =~= files.take(n - 1));
        assert forall|t: Told| #[trigger] had.told.contains(t) implies all.told.contains(t) by {
            let j = choose|j: int| 0 <= j < had.told.len() && had.told[j] == t;
            assert(all.told[j] == t);
        }
        if files[n - 1] is Err {
            assert(all.told[all.told.len() - 1] == unresolved(
                targets[n - 1]@,
                files[n - 1]->Err_0,
            ));
        }
    } else {
        assert(files.take(0) =~= Seq::empty());
    }
    assert(all.blocks =~= files.take(n).filter(ok).map_values(
        |one: Result<OutlineBlock, Error>| one->Ok_0,
    ));
    assert(all.errors =~= files.take(n).filter(bad).map_values(
        |one: Result<OutlineBlock, Error>| one->Err_0,
    ));
}

proof fn lemma_conflict_is(targets: Seq<String>, kinds: Seq<Kind>, n: int)
    requires
        0 <= n <= kinds.len(),
    ensures
        conflict_upto(targets, kinds, n) is None <==> forall|i: int|
            0 <= i < n ==> (#[trigger] kinds[i]) is Whole,
    decreases n,
{
    if n > 0 {
        lemma_conflict_is(targets, kinds, n - 1);
    }
}

/// An outline is made exactly where every target is a whole file, and where several of them can be
/// told apart.
pub proof fn law_an_outline_reads_whole_files(args: ShowArgs, kinds: Seq<Kind>)
    requires
        kinds.len() == args.targets@.len(),
    ensures
        outline_refusal(args, kinds) is None <==> (forall|i: int|
            0 <= i < kinds.len() ==> (#[trigger] kinds[i]) is Whole) && (args.no_header
            ==> args.targets@.len() <= 1),
{
    lemma_conflict_is(args.targets@, kinds, kinds.len() as int);
}

/// An outline shows the first definitions of each file, each where it stands, and says of a file
/// whether any was left out; a failure stands beside what is shown.
pub proof fn law_an_outline_shows_the_first_definitions(
    outcome: Outcome,
    all: Outlines,
    args: ShowArgs,
    max_bytes: usize,
)
    requires
        is_outlined(outcome, all, args, max_bytes),
        all.blocks.len() > 0,
    ensures
        outcome.error is None <==> all.errors.len() == 0,
        outcome.response.body matches Body::Outline(blocks) && blocks@.len() == all.blocks.len()
            && forall|i: int|
            0 <= i < blocks@.len() ==> {
                let (now, was) = (#[trigger] blocks@[i], all.blocks[i]);
                &&& now.path == was.path
                &&& kept_of(all.blocks, max_bytes as nat, i) <= was.entries@.len() ==> {
                    &&& now.entries@.len() <= was.entries@.len()
                    &&& now.omitted == (was.omitted || now.entries@.len() < was.entries@.len())
                    &&& forall|k: int|
                        0 <= k < now.entries@.len() ==> (#[trigger] now.entries@[k]).line
                            == was.entries@[k].line && now.entries@[k].end_line
                            == was.entries@[k].end_line
                }
            },
{
    if let Body::Outline(blocks) = outcome.response.body {
        assert forall|i: int| 0 <= i < blocks@.len() implies {
            let (now, was) = (#[trigger] blocks@[i], all.blocks[i]);
            &&& now.path == was.path
            &&& kept_of(all.blocks, max_bytes as nat, i) <= was.entries@.len() ==> {
                &&& now.entries@.len() <= was.entries@.len()
                &&& now.omitted == (was.omitted || now.entries@.len() < was.entries@.len())
                &&& forall|k: int|
                    0 <= k < now.entries@.len() ==> (#[trigger] now.entries@[k]).line
                        == was.entries@[k].line && now.entries@[k].end_line
                        == was.entries@[k].end_line
            }
        } by {
            let (now, was) = (blocks@[i], all.blocks[i]);
            let kept = kept_of(all.blocks, max_bytes as nat, i);
            assert(is_filled_block(was, kept, now));
            let (a, b) = (
                crate::show::outline::outlined_all(now.entries@),
                crate::show::outline::outlined_all(was.entries@),
            );
            if kept <= was.entries@.len() {
                assert(a.len() == kept);
                assert forall|k: int| 0 <= k < now.entries@.len() implies (
                #[trigger] now.entries@[k]).line == was.entries@[k].line && now.entries@[k].end_line
                    == was.entries@[k].end_line by {
                    assert(a[k] == now.entries@[k].outlined());
                    assert(b[k] == was.entries@[k].outlined());
                    assert(a[k].line == b[k].line && a[k].end_line == b[k].end_line);
                }
            }
        }
    }
}

} // verus!
