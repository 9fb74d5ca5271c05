//! The answer to a search.
use vstd::prelude::*;

use crate::error::Error;
use crate::find::args::{FindArgs, Global};
use crate::find::expand::EXPAND_MAX_LINES;
use crate::find::preview::{
    law_the_busiest_file_comes_first,
    are_busiest_first, busiest_first, busiest_preview, is_unpreviewed, Preview, TOP_FILES_SHOWN,
};
use crate::find::shown::{
    are_sources, content_size, is_expanded, show_hits, size_of, Expanded, Shown, Source,
};
use crate::find::walk::{Found, Walk};
use crate::output::{
    tell, tell_all, tell_some, told_all, told_of, Body, CountRow, Omission, Outcome, Response,
    Stats, TargetBlock, Told,
};
use crate::text;
use crate::text::{byte_len, decimal, decimal_of, plural, plural_suffix};
use crate::window::blocks_bytes;

verus! {

/// Nothing was found, and how the pattern was read a second time, where it was.
pub open spec fn is_no_hits(error: Error, pattern: Seq<char>, read_as: Option<Seq<char>>) -> bool {
    error matches Error::NoHits { pattern: p, grep_style } && p@ == pattern && (match grep_style {
        Some(read) => read_as == Some(read@),
        None => read_as is None,
    })
}

pub fn no_match_error(pattern: &str) -> (r: Error)
    ensures
        is_no_hits(r, pattern@, None),
{
    Error::NoHits { pattern: pattern.to_owned(), grep_style: None }
}

/// So many of a thing.
pub open spec fn count_of(n: nat, thing: Seq<char>) -> Seq<char> {
    decimal_of(n) + thing + plural(n)
}

fn counted(n: usize, thing: &str) -> (r: String)
    ensures
        r@ == count_of(n as nat, thing@),
{
    decimal(n).concat(thing).concat(plural_suffix(n))
}

/// The line under an answer with hits.
pub open spec fn hit_text(hits: nat, files: nat, searched: nat) -> Seq<char> {
    count_of(hits, " hit"@) + " in "@ + count_of(files, " file"@) + " \u{b7} searched "@
        + count_of(searched, " file"@)
}

pub fn hit_summary(hits: usize, files: usize, searched: usize) -> (r: String)
    ensures
        r@ == hit_text(hits as nat, files as nat, searched as nat),
{
    counted(hits, " hit").concat(" in ").concat(counted(files, " file").as_str()).concat(
        " \u{b7} searched ",
    ).concat(counted(searched, " file").as_str())
}

/// What the answer says of its context.
pub open spec fn context_note(expanded: Option<Expanded>) -> Seq<Told> {
    match expanded {
        Some(expanded) => told_of(expanded.expansion.named_of()),
        None => Seq::empty(),
    }
}

/// A count that is told only where there is something to count.
pub open spec fn cut_note(lines: usize) -> Seq<Told> {
    told_of(
        if lines > 0 {
            Some(Omission::LongLinesCut { lines })
        } else {
            None
        },
    )
}

pub open spec fn lossy_note(lines: usize) -> Seq<Told> {
    told_of(
        if lines > 0 {
            Some(Omission::LossyLines { lines })
        } else {
            None
        },
    )
}

/// The answer that shows its hits: refused whole where it is over the byte limit, since the caller
/// decides what to ask for next; a failure beside it where there are none.
pub open spec fn is_hits_answer(
    outcome: Outcome,
    shown: Shown,
    hits: usize,
    searched: usize,
    pattern: Seq<char>,
    global: Global,
    walked: Seq<Omission>,
) -> bool {
    let (lines, bytes) = size_of(shown.blocks@);
    if global.budget is None && bytes > global.max_bytes {
        outcome.is_failed(
            "find"@,
            Error::OverBudget { bytes: bytes as u64, limit: global.max_bytes as u64 },
        )
    } else {
        let response = outcome.response;
        &&& response.verb@ == "find"@
        &&& told_all(response.omitted@) == context_note(shown.expanded) + told_all(shown.trimmed@)
            + cut_note(shown.long_lines_cut) + lossy_note(shown.lossy_lines) + told_all(walked)
        &&& response.stats == (Stats { lines: lines as usize, bytes: bytes as usize })
        &&& response.summary@ == hit_text(hits as nat, shown.blocks@.len(), searched as nat)
        &&& response.body == Body::Targets(shown.blocks)
        &&& !response.no_header
        &&& response.top_files@.len() == 0
        &&& response.top_files_more == 0
        &&& match outcome.error {
            Some(error) => hits == 0 && is_no_hits(error, pattern, None),
            None => hits > 0,
        }
    }
}

/// The first of the rows, up to `n` of them.
pub open spec fn at_most(rows: Seq<CountRow>, n: nat) -> Seq<CountRow> {
    if rows.len() <= n {
        rows
    } else {
        rows.take(n as int)
    }
}

/// The answer over its cap: a map of the busiest files, and a preview of the busiest.
pub open spec fn is_over_cap_answer(
    outcome: Outcome,
    found: Found,
    searched: usize,
    args: FindArgs,
    walked: Seq<Omission>,
    top: Seq<CountRow>,
    preview: Option<Preview>,
) -> bool {
    let response = outcome.response;
    let shown = at_most(top, TOP_FILES_SHOWN as nat);
    &&& response.verb@ == "find"@
    &&& told_all(response.omitted@) == seq![
        Told::Plain(Omission::HitCap { hits: found.total_hits, cap: args.cap }),
    ] + told_all(walked) + (match preview {
        Some(preview) => preview.told(),
        None => Seq::empty(),
    }) + (if shown.len() > 0 {
        seq![Told::Plain(Omission::TopFiles { shown: shown.len() as usize })]
    } else {
        Seq::empty()
    })
    &&& match preview {
        Some(preview) => {
            let (lines, bytes) = size_of(seq![preview.block]);
            &&& response.stats == (Stats { lines: lines as usize, bytes: bytes as usize })
            &&& response.body matches Body::Targets(blocks) && blocks@ == seq![preview.block]
        },
        None => response.stats == (Stats { lines: 0, bytes: 0 }) && response.body == Body::Empty,
    }
    &&& response.summary@ == hit_text(
        found.total_hits as nat,
        found.blocks@.len(),
        searched as nat,
    )
    &&& !response.no_header
    &&& response.top_files@ == shown
    &&& response.top_files_more == top.len() - shown.len()
    &&& outcome.error == Some(
        Error::OverCap {
            hits: found.total_hits,
            files: found.blocks@.len() as usize,
            cap: args.cap,
        },
    )
}

/// The preview is that of the first of the busiest files.
pub open spec fn is_previewed(
    preview: Option<Preview>,
    found: Found,
    lossy: Seq<(String, Vec<usize>)>,
    global: Global,
    cap: usize,
    top: Seq<CountRow>,
) -> bool {
    match preview {
        Some(preview) => top.len() > 0 && preview.is(
            found.blocks@,
            found.first_matches@,
            top[0],
            lossy,
            global,
            cap,
        ),
        None => top.len() == 0 || is_unpreviewed(
            found.blocks@,
            found.first_matches@,
            top[0],
            global,
            cap,
        ),
    }
}

/// What was found fits in memory twice over.
pub open spec fn fits_memory(found: Found) -> bool {
    2 * blocks_bytes(found.blocks@) + EXPAND_MAX_LINES <= usize::MAX
}

pub fn respond_over_cap(
    found: Found,
    walk: &Walk,
    args: &FindArgs,
    global: &Global,
    walked: Vec<Omission>,
) -> (outcome: Outcome)
    requires
        found.wf(),
        fits_memory(found),
    ensures
        exists|top: Seq<CountRow>, preview: Option<Preview>|
            are_busiest_first(found.file_hits@, top) && #[trigger] is_previewed(
                preview,
                found,
                walk.lossy@,
                *global,
                args.cap,
                top,
            ) && is_over_cap_answer(
                outcome,
                found,
                walk.searched,
                *args,
                walked@,
                top,
                preview,
            ),
{
    let ghost all = found;
    let Found { total_hits, blocks, first_matches, files: _, counts: _, file_hits } = found;
    let matched_files = blocks.len();
    let mut response = Response::empty("find");
    let mut top_files = busiest_first(file_hits);
    let ghost top = top_files@;
    let preview = if top_files.len() > 0 {
        busiest_preview(blocks, first_matches, &top_files[0], &walk.lossy, global, args.cap)
    } else {
        None
    };
    let ghost shown_preview = preview;
    let count = top_files.len();
    let shown = if count < TOP_FILES_SHOWN {
        count
    } else {
        TOP_FILES_SHOWN
    };
    let more = count - shown;
    top_files.truncate(shown);
    assert(top_files@ =~= at_most(top, TOP_FILES_SHOWN as nat));
    let mut omitted: Vec<Omission> = Vec::new();
    assert(told_all(omitted@) =~= Seq::empty());
    tell(&mut omitted, Omission::HitCap { hits: total_hits, cap: args.cap });
    tell_all(&mut omitted, walked);
    if let Some(preview) = preview {
        let (block, notes) = preview.into_parts();
        tell_all(&mut omitted, notes);
        let mut one: Vec<TargetBlock> = Vec::new();
        one.push(block);
        assert(one@ =~= seq![block]);
        let (lines, bytes) = content_size(one.as_slice());
        response.stats = Stats { lines, bytes };
        response.body = Body::Targets(one);
    }
    if top_files.len() > 0 {
        tell(&mut omitted, Omission::TopFiles { shown });
    }
    proof {
        assert(told_all(omitted@) =~= seq![
            Told::Plain(Omission::HitCap { hits: total_hits, cap: args.cap }),
        ] + told_all(walked@) + (match shown_preview {
            Some(preview) => preview.told(),
            None => Seq::empty(),
        }) + (if shown > 0 {
            seq![Told::Plain(Omission::TopFiles { shown })]
        } else {
            Seq::empty()
        }));
        assert(is_previewed(shown_preview, all, walk.lossy@, *global, args.cap, top));
    }
    response.omitted = omitted;
    response.top_files = top_files;
    response.top_files_more = more;
    response.summary = hit_summary(total_hits, matched_files, walk.searched);
    Outcome::partial(
        response,
        Error::OverCap { hits: total_hits, files: matched_files, cap: args.cap },
    )
}

/// The answer with its hits, or over its cap.
pub open spec fn is_targets_answer(
    outcome: Outcome,
    found: Found,
    walk: Walk,
    args: FindArgs,
    global: Global,
    sources: Seq<Source>,
    walked: Seq<Omission>,
) -> bool {
    if found.total_hits > args.cap {
        exists|top: Seq<CountRow>, preview: Option<Preview>|
            are_busiest_first(found.file_hits@, top) && #[trigger] is_previewed(
                preview,
                found,
                walk.lossy@,
                global,
                args.cap,
                top,
            ) && is_over_cap_answer(outcome, found, walk.searched, args, walked, top, preview)
    } else {
        exists|shown: Shown| #[trigger]
            shown.is(
                found.blocks@,
                found.first_matches@,
                walk.lossy@,
                found.total_hits,
                args,
                global,
                sources,
            ) && is_hits_answer(
                outcome,
                shown,
                found.total_hits,
                walk.searched,
                args.pattern@,
                global,
                walked,
            )
    }
}

pub fn respond_targets(
    found: Found,
    walk: Walk,
    args: &FindArgs,
    global: &Global,
    sources: &Vec<Source>,
    walked: Vec<Omission>,
) -> (outcome: Outcome)
    requires
        found.wf(),
        fits_memory(found),
        found.total_hits <= args.cap && is_expanded(
            *args,
            *global,
            found.total_hits,
            found.blocks@.len(),
        ) ==> are_sources(found.blocks@, sources@),
    ensures
        is_targets_answer(outcome, found, walk, *args, *global, sources@, walked@),
{
    if found.total_hits > args.cap {
        return respond_over_cap(found, &walk, args, global, walked);
    }
    let total_hits = found.total_hits;
    let matched_files = found.blocks.len();
    let searched = walk.searched;
    let mut lossy = walk.lossy;
    let ghost (blocks, firsts) = (found.blocks@, found.first_matches@);
    proof {
        assert forall|i: int| 0 <= i < blocks.len() implies crate::find::visit::is_orderly(
            (#[trigger] blocks[i]).lines@,
            blocks[i].lines@.len(),
        ) by {}
    }
    let shown = show_hits(
        found.blocks,
        &found.first_matches,
        &mut lossy,
        total_hits,
        args,
        global,
        sources,
    );
    let ghost all = shown;
    let (lines, bytes) = content_size(shown.blocks.as_slice());
    // Refused whole rather than trimmed: the caller decides what to ask for next.
    if global.budget.is_none() && bytes > global.max_bytes {
        return Outcome::failed(
            "find",
            Error::OverBudget { bytes: bytes as u64, limit: global.max_bytes as u64 },
        );
    }
    let mut response = Response::empty("find");
    let mut omitted: Vec<Omission> = Vec::new();
    assert(told_all(omitted@) =~= Seq::empty());
    if let Some(expanded) = shown.expanded {
        tell_some(&mut omitted, expanded.expansion.named());
    }
    assert(told_all(omitted@) =~= context_note(all.expanded));
    tell_all(&mut omitted, shown.trimmed);
    tell_some(
        &mut omitted,
        if shown.long_lines_cut > 0 {
            Some(Omission::LongLinesCut { lines: shown.long_lines_cut })
        } else {
            None
        },
    );
    tell_some(
        &mut omitted,
        if shown.lossy_lines > 0 {
            Some(Omission::LossyLines { lines: shown.lossy_lines })
        } else {
            None
        },
    );
    tell_all(&mut omitted, walked);
    response.omitted = omitted;
    response.stats = Stats { lines, bytes };
    response.summary = hit_summary(total_hits, matched_files, searched);
    response.body = Body::Targets(shown.blocks);
    if total_hits == 0 {
        return Outcome::partial(response, no_match_error(args.pattern.as_str()));
    }
    Outcome::ok(response)
}

/// The bytes of a list of files, a line each.
pub open spec fn names_bytes(files: Seq<String>, n: int) -> nat
    decreases n,
{
    if n <= 0 {
        0
    } else {
        names_bytes(files, n - 1) + byte_len(files[n - 1]@) + 1
    }
}

proof fn lemma_names_bytes(files: Seq<String>, m: int, n: int)
    requires
        0 <= m <= n,
    ensures
        names_bytes(files, m) <= names_bytes(files, n),
    decreases n,
{
    if m < n {
        lemma_names_bytes(files, m, n - 1);
    }
}

/// The answer that lists files.
pub open spec fn is_files_answer(
    outcome: Outcome,
    files: Seq<String>,
    searched: usize,
    pattern: Seq<char>,
    walked: Seq<Omission>,
) -> bool {
    let response = outcome.response;
    &&& response.verb@ == "find"@
    &&& response.omitted@ == walked
    &&& response.stats == (Stats {
        lines: files.len() as usize,
        bytes: names_bytes(files, files.len() as int) as usize,
    })
    &&& response.summary@ == count_of(files.len(), " file"@) + " \u{b7} searched "@ + count_of(
        searched as nat,
        " file"@,
    )
    &&& response.body matches Body::Files(listed) && listed@ == files
    &&& !response.no_header
    &&& response.top_files@.len() == 0
    &&& response.top_files_more == 0
    &&& match outcome.error {
        Some(error) => files.len() == 0 && is_no_hits(error, pattern, None),
        None => files.len() > 0,
    }
}

pub fn respond_files(
    files: Vec<String>,
    searched: usize,
    pattern: &str,
    walked: Vec<Omission>,
) -> (outcome: Outcome)
    requires
        names_bytes(files@, files@.len() as int) <= usize::MAX,
    ensures
        is_files_answer(outcome, files@, searched, pattern@, walked@),
{
    let matched = files.len();
    let mut response = Response::empty("find");
    response.omitted = walked;
    let mut bytes: usize = 0;
    let mut i: usize = 0;
    while i < files.len()
        invariant
            i <= files@.len(),
            names_bytes(files@, files@.len() as int) <= usize::MAX,
            bytes == names_bytes(files@, i as int),
        decreases files@.len() - i,
    {
        proof {
            lemma_names_bytes(files@, i + 1, files@.len() as int);
        }
        bytes = bytes + (text::len(files[i].as_str()) + 1);
        i = i + 1;
    }
    response.stats = Stats { lines: matched, bytes };
    response.summary = counted(matched, " file").concat(" \u{b7} searched ").concat(
        counted(searched, " file").as_str(),
    );
    response.body = Body::Files(files);
    if matched == 0 {
        return Outcome::partial(response, no_match_error(pattern));
    }
    Outcome::ok(response)
}

/// The bytes of a list of counts, a line each: the count, two spaces, and the path.
pub open spec fn counts_bytes(rows: Seq<CountRow>, n: int) -> nat
    decreases n,
{
    if n <= 0 {
        0
    } else {
        counts_bytes(rows, n - 1) + decimal_of(rows[n - 1].count as nat).len() + 2 + byte_len(
            rows[n - 1].path@,
        ) + 1
    }
}

proof fn lemma_counts_bytes(rows: Seq<CountRow>, m: int, n: int)
    requires
        0 <= m <= n,
    ensures
        counts_bytes(rows, m) <= counts_bytes(rows, n),
    decreases n,
{
    if m < n {
        lemma_counts_bytes(rows, m, n - 1);
    }
}

/// The answer that counts.
pub open spec fn is_counts_answer(
    outcome: Outcome,
    rows: Seq<CountRow>,
    total_hits: usize,
    pattern: Seq<char>,
    walked: Seq<Omission>,
) -> bool {
    let response = outcome.response;
    &&& response.verb@ == "find"@
    &&& response.omitted@ == walked
    &&& response.stats == (Stats {
        lines: rows.len() as usize,
        bytes: counts_bytes(rows, rows.len() as int) as usize,
    })
    &&& response.summary@ == count_of(total_hits as nat, " hit"@) + " in "@ + count_of(
        rows.len(),
        " file"@,
    )
    &&& response.body matches Body::Counts(listed) && listed@ == rows
    &&& !response.no_header
    &&& response.top_files@.len() == 0
    &&& response.top_files_more == 0
    &&& match outcome.error {
        Some(error) => rows.len() == 0 && is_no_hits(error, pattern, None),
        None => rows.len() > 0,
    }
}

pub fn respond_counts(
    counts: Vec<CountRow>,
    total_hits: usize,
    pattern: &str,
    walked: Vec<Omission>,
) -> (outcome: Outcome)
    requires
        counts_bytes(counts@, counts@.len() as int) <= usize::MAX,
    ensures
        is_counts_answer(outcome, counts@, total_hits, pattern@, walked@),
{
    let matched = counts.len();
    let mut response = Response::empty("find");
    response.omitted = walked;
    let mut bytes: usize = 0;
    let mut i: usize = 0;
    while i < counts.len()
        invariant
            i <= counts@.len(),
            counts_bytes(counts@, counts@.len() as int) <= usize::MAX,
            bytes == counts_bytes(counts@, i as int),
        decreases counts@.len() - i,
    {
        proof {
            lemma_counts_bytes(counts@, i + 1, counts@.len() as int);
        }
        let digits = decimal(counts[i].count).as_str().unicode_len();
        bytes = bytes + (digits + 2 + text::len(counts[i].path.as_str()) + 1);
        i = i + 1;
    }
    response.stats = Stats { lines: matched, bytes };
    response.summary = counted(total_hits, " hit").concat(" in ").concat(
        counted(matched, " file").as_str(),
    );
    response.body = Body::Counts(counts);
    if matched == 0 {
        return Outcome::partial(response, no_match_error(pattern));
    }
    Outcome::ok(response)
}

/// An answer with hits shows them, with what the walk left out; it is refused only where it is over
/// the limit and no budget was given, and a search without hits says so.
pub proof fn law_hits_are_answered(
    outcome: Outcome,
    shown: Shown,
    hits: usize,
    searched: usize,
    pattern: Seq<char>,
    global: Global,
    walked: Seq<Omission>,
)
    requires
        is_hits_answer(outcome, shown, hits, searched, pattern, global, walked),
    ensures
        outcome.error matches Some(Error::OverBudget { .. }) <==> global.budget is None && size_of(
            shown.blocks@,
        ).1 > global.max_bytes,
        !(outcome.error matches Some(Error::OverBudget { .. })) ==> {
            &&& outcome.response.body == Body::Targets(shown.blocks)
            &&& outcome.error is None <==> hits > 0
            &&& forall|i: int|
                0 <= i < walked.len() ==> told_all(outcome.response.omitted@).contains(
                    #[trigger] told_all(walked)[i],
                )
            &&& forall|i: int|
                0 <= i < shown.trimmed@.len() ==> told_all(outcome.response.omitted@).contains(
                    #[trigger] told_all(shown.trimmed@)[i],
                )
        },
{
    let all = told_all(outcome.response.omitted@);
    if !(global.budget is None && size_of(shown.blocks@).1 > global.max_bytes) {
        let first = context_note(shown.expanded);
        let second = told_all(shown.trimmed@);
        let third = cut_note(shown.long_lines_cut);
        let fourth = lossy_note(shown.lossy_lines);
        let last = told_all(walked);
        assert forall|i: int| 0 <= i < walked.len() implies all.contains(
            #[trigger] told_all(walked)[i],
        ) by {
            assert(all[first.len() + second.len() + third.len() + fourth.len() + i] == last[i]);
        }
        assert forall|i: int| 0 <= i < shown.trimmed@.len() implies all.contains(
            #[trigger] told_all(shown.trimmed@)[i],
        ) by {
            assert(all[first.len() + i] == second[i]);
        }
    }
}

/// An answer over its cap is a failure that maps the busiest files: as many as the map may hold, no
/// other busier than any of them, and the rest counted.
pub proof fn law_an_answer_over_its_cap_maps_the_busiest_files(
    outcome: Outcome,
    found: Found,
    searched: usize,
    args: FindArgs,
    walked: Seq<Omission>,
    top: Seq<CountRow>,
    preview: Option<Preview>,
)
    requires
        is_over_cap_answer(outcome, found, searched, args, walked, top, preview),
        are_busiest_first(found.file_hits@, top),
    ensures
        ({
            let (all, map) = (found.file_hits@, outcome.response.top_files@);
            &&& map.len() + outcome.response.top_files_more == all.len()
            &&& map.len() == TOP_FILES_SHOWN || outcome.response.top_files_more == 0
            &&& map.len() <= TOP_FILES_SHOWN
            &&& forall|row: CountRow, i: int|
                all.contains(row) && 0 <= i < map.len() ==> #[trigger] map.contains(row)
                    || row.count <= (#[trigger] map[i]).count
            &&& forall|i: int| 0 <= i < map.len() ==> all.contains(#[trigger] map[i])
            &&& outcome.error matches Some(Error::OverCap { hits, cap, .. }) && hits
                == found.total_hits && cap == args.cap
        }),
{
    let (all, map) = (found.file_hits@, outcome.response.top_files@);
    law_the_busiest_file_comes_first(all, top);
    assert forall|row: CountRow, i: int|
        all.contains(row) && 0 <= i < map.len() implies #[trigger] map.contains(row) || row.count
        <= (#[trigger] map[i]).count by {
        assert(top.contains(row));
        let j = choose|j: int| 0 <= j < top.len() && top[j] == row;
        assert(map[i] == top[i]);
        if j < map.len() {
            assert(map[j] == row);
        } else {
            assert(top[i].count >= top[j].count);
        }
    }
    assert forall|i: int| 0 <= i < map.len() implies all.contains(#[trigger] map[i]) by {
        assert(map[i] == top[i]);
        assert(top.contains(top[i]));
    }
}

/// The first `n` files as they are printed, a line each.
pub open spec fn listing(files: Seq<String>, n: int) -> Seq<char>
    decreases n,
{
    if n <= 0 {
        Seq::empty()
    } else {
        listing(files, n - 1) + files[n - 1]@ + "\n"@
    }
}

/// A list of files costs what it prints.
pub proof fn law_a_listing_costs_what_it_prints(files: Seq<String>, n: int)
    requires
        0 <= n <= files.len(),
    ensures
        names_bytes(files, n) == byte_len(listing(files, n)),
    decreases n,
{
    if n > 0 {
        law_a_listing_costs_what_it_prints(files, n - 1);
        reveal_strlit("\n");
        reveal_with_fuel(vstd::utf8::encode_utf8, 2);
        let (had, name) = (listing(files, n - 1), files[n - 1]@);
        text::lemma_encode_concat(had, name);
        text::lemma_encode_concat(had + name, "\n"@);
        assert("\n"@.drop_first() =~= Seq::empty());
        assert(byte_len("\n"@) == 1);
    }
}

} // verus!
