//! What a batch is answered with, once every edit of it was tried.
use vstd::prelude::*;

use crate::error::{CheckLayer, Error};
use crate::output::{
    tell, told_all, Body, EditResult, Line, Omission, Outcome, Response, Stats, Told,
};
use crate::text;
use crate::text::{decimal, decimal_of, joined, plural, plural_suffix, texts};
use crate::window::{content_bytes, lines_bytes};

verus! {

pub const VERB: &'static str = "edit";

/// The paths, as a list.
pub fn path_list(paths: &Vec<String>) -> (r: String)
    ensures
        r@ == joined(texts(paths@), ", "@),
{
    text::join(paths, ", ")
}

/// The answer to a batch that landed in part: which files were written, and no edit.
pub open spec fn is_partial(
    o: Outcome,
    summary: Seq<char>,
    written: Seq<Seq<char>>,
    failed: Seq<char>,
    detail: Seq<char>,
    omitted: Seq<Omission>,
) -> bool {
    &&& o.response.verb@ == VERB@
    &&& o.response.summary@ == summary
    &&& told_all(o.response.omitted@) == told_all(omitted).push(Told::Partial { written })
    &&& o.response.body matches Body::Edit(results) && results@.len() == 0
    &&& o.response.stats == (Stats { lines: 0, bytes: 0 })
    &&& !o.response.no_header
    &&& o.response.top_files@.len() == 0
    &&& o.response.top_files_more == 0
    &&& o.error matches Some(Error::PartialBatch { written: w, failed: f, detail: d }) && texts(w@)
        == written && f@ == failed && d@ == detail
}

/// Stdout still owes the footer naming which files landed, though no edit is rendered.
pub fn partial_batch(
    summary: String,
    written: Vec<String>,
    failed: String,
    detail: String,
    omitted: Vec<Omission>,
) -> (o: Outcome)
    ensures
        is_partial(o, summary@, texts(written@), failed@, detail@, omitted@),
{
    let mut omitted = omitted;
    let mut again: Vec<String> = Vec::new();
    let mut i: usize = 0;
    while i < written.len()
        invariant
            i <= written@.len(),
            again@ == written@.take(i as int),
        decreases written@.len() - i,
    {
        again.push(written[i].clone());
        i = i + 1;
        assert(again@ =~= written@.take(i as int));
    }
    assert(again@ =~= written@);
    tell(&mut omitted, Omission::PartialBatch { written: again });
    let mut response = Response::empty(VERB);
    response.summary = summary;
    response.omitted = omitted;
    response.body = Body::Edit(Vec::new());
    Outcome::partial(response, Error::PartialBatch { written, failed, detail })
}

/// The answer to a batch whose writing stopped: how many files are written, and which failed.
pub fn stopped_writing(
    total: usize,
    written: Vec<String>,
    failed: String,
    detail: String,
    omitted: Vec<Omission>,
) -> (o: Outcome)
    ensures
        is_partial(
            o,
            decimal_of(written@.len()) + " of "@ + decimal_of(total as nat) + " file"@ + plural(
                total as nat,
            ) + " written \u{b7} "@ + failed@ + " failed"@,
            texts(written@),
            failed@,
            detail@,
            omitted@,
        ),
{
    let summary = decimal(written.len()).concat(" of ").concat(decimal(total).as_str()).concat(
        " file",
    ).concat(plural_suffix(total)).concat(" written \u{b7} ").concat(failed.as_str()).concat(
        " failed",
    );
    partial_batch(summary, written, failed, detail, omitted)
}

/// What came of putting the files back: which are as they were, and which are not, with the
/// reason.
#[derive(Debug)]
pub struct Reverted {
    pub restored: Vec<String>,
    pub not_restored: Vec<(String, String)>,
}

pub open spec fn firsts(pairs: Seq<(String, String)>) -> Seq<Seq<char>> {
    pairs.map_values(|pair: (String, String)| pair.0@)
}

/// Each path with its reason.
pub open spec fn reasons(pairs: Seq<(String, String)>) -> Seq<Seq<char>> {
    pairs.map_values(|pair: (String, String)| pair.0@ + " ("@ + pair.1@ + ")"@)
}

pub open spec fn files_text(n: nat) -> Seq<char> {
    decimal_of(n) + " file"@ + plural(n)
}

fn count_files(n: usize) -> (r: String)
    ensures
        r@ == files_text(n as nat),
{
    decimal(n).concat(" file").concat(plural_suffix(n))
}

/// The answer to a batch that a checker turned against: a failure where every file is as it was,
/// else a partial batch of those that are not.
pub open spec fn is_reverted(
    o: Outcome,
    landed: Seq<String>,
    checker: Seq<char>,
    excerpt: Seq<char>,
    reverted: Reverted,
    omitted: Seq<Omission>,
) -> bool {
    if reverted.not_restored@.len() == 0 {
        &&& o.response.is_empty_for(VERB@)
        &&& o.error matches Some(Error::CheckFailed { path, layer: CheckLayer::Command, detail })
            && path@ == (if landed.len() > 0 {
            landed[0]@
        } else {
            ""@
        }) && detail@ == checker + " passed before the batch and failed after it"@ + (
        if excerpt.len() == 0 {
            ""@
        } else {
            ": "@ + excerpt
        }) + " \u{b7} "@ + files_text(landed.len()) + " reverted"@
    } else {
        let written = firsts(reverted.not_restored@);
        let head = checker + " failed after "@ + files_text(landed.len()) + " landed"@;
        let restored = if reverted.restored@.len() == 0 {
            head
        } else {
            head + " \u{b7} restored "@ + joined(texts(reverted.restored@), ", "@)
        };
        is_partial(
            o,
            restored + " \u{b7} not restored "@ + joined(written, ", "@),
            written,
            written[0],
            checker + " failed after the batch landed and the revert could not restore "@ + joined(
                reasons(reverted.not_restored@),
                ", "@,
            ),
            omitted,
        )
    }
}

pub fn reverted(
    landed: &Vec<String>,
    checker: &str,
    excerpt: &str,
    back: &Reverted,
    omitted: Vec<Omission>,
) -> (o: Outcome)
    ensures
        is_reverted(o, landed@, checker@, excerpt@, *back, omitted@),
{
    if back.not_restored.len() == 0 {
        let path = if landed.len() > 0 {
            landed[0].clone()
        } else {
            "".to_owned()
        };
        // The checker's first line is status, not content, so no budget trims it.
        let said = if excerpt.is_empty() {
            "".to_owned()
        } else {
            ": ".to_owned().concat(excerpt)
        };
        let detail = checker.to_owned().concat(
            " passed before the batch and failed after it",
        ).concat(said.as_str()).concat(" \u{b7} ").concat(
            count_files(landed.len()).as_str(),
        ).concat(" reverted");
        return Outcome::failed(
            VERB,
            Error::CheckFailed { path, layer: CheckLayer::Command, detail },
        );
    }
    // Only files still holding the new bytes count as written; restored ones are named beside.

    let mut written: Vec<String> = Vec::new();
    let mut why: Vec<String> = Vec::new();
    let mut i: usize = 0;
    let ghost pairs = back.not_restored@;
    assert(texts(written@) =~= firsts(pairs).take(0));
    assert(texts(why@) =~= reasons(pairs).take(0));
    while i < back.not_restored.len()
        invariant
            i <= pairs.len(),
            pairs == back.not_restored@,
            texts(written@) == firsts(pairs).take(i as int),
            texts(why@) == reasons(pairs).take(i as int),
        decreases pairs.len() - i,
    {
        let ghost w = written@;
        let ghost y = why@;
        written.push(back.not_restored[i].0.clone());
        why.push(
            back.not_restored[i].0.clone().concat(" (").concat(
                back.not_restored[i].1.as_str(),
            ).concat(")"),
        );
        assert(texts(written@) =~= texts(w).push(pairs[i as int].0@));
        assert(texts(written@) =~= firsts(pairs).take(i + 1));
        assert(texts(why@) =~= texts(y).push(reasons(pairs)[i as int]));
        assert(texts(why@) =~= reasons(pairs).take(i + 1));
        i = i + 1;
    }
    assert(texts(written@) =~= firsts(pairs));
    assert(texts(why@) =~= reasons(pairs));
    let mut summary = checker.to_owned().concat(" failed after ").concat(
        count_files(landed.len()).as_str(),
    ).concat(" landed");
    if back.restored.len() > 0 {
        summary = summary.concat(" \u{b7} restored ").concat(
            path_list(&back.restored).as_str(),
        );
    }
    summary = summary.concat(" \u{b7} not restored ").concat(path_list(&written).as_str());
    let detail = checker.to_owned().concat(
        " failed after the batch landed and the revert could not restore ",
    ).concat(text::join(&why, ", ").as_str());
    assert(texts(written@)[0] == written@[0]@);
    let first = written[0].clone();
    partial_batch(summary, written, first, detail, omitted)
}

/// The lines of a result that are shown.
pub open spec fn shown_lines(result: EditResult) -> Seq<Line> {
    match result.region {
        Some(region) => region.lines@,
        None => Seq::empty(),
    }
}

/// How many lines the first `n` results show.
pub open spec fn lines_shown(results: Seq<EditResult>, n: int) -> nat
    decreases n,
{
    if n <= 0 {
        0
    } else {
        lines_shown(results, n - 1) + shown_lines(results[n - 1]).len()
    }
}

/// The bytes of the lines that the first `n` results show.
pub open spec fn bytes_shown(results: Seq<EditResult>, n: int) -> nat
    decreases n,
{
    if n <= 0 {
        0
    } else {
        bytes_shown(results, n - 1) + lines_bytes(shown_lines(results[n - 1]))
    }
}

pub open spec fn sum(sizes: Seq<usize>, n: int) -> nat
    decreases n,
{
    if n <= 0 {
        0
    } else {
        sum(sizes, n - 1) + sizes[n - 1] as nat
    }
}

proof fn lemma_sums_mono(results: Seq<EditResult>, sizes: Seq<usize>, m: int, n: int)
    requires
        0 <= m <= n,
    ensures
        lines_shown(results, m) <= lines_shown(results, n),
        bytes_shown(results, m) <= bytes_shown(results, n),
        sum(sizes, m) <= sum(sizes, n),
    decreases n,
{
    if m < n {
        lemma_sums_mono(results, sizes, m, n - 1);
    }
}

/// A line takes a byte at least, so there are no more of them than bytes.
pub proof fn lemma_lines_within_bytes(lines: Seq<Line>)
    ensures
        lines.len() <= lines_bytes(lines),
    decreases lines.len(),
{
    if lines.len() > 0 {
        lemma_lines_within_bytes(lines.drop_last());
    }
}

proof fn lemma_shown_within_bytes(results: Seq<EditResult>, n: int)
    requires
        0 <= n,
    ensures
        lines_shown(results, n) <= bytes_shown(results, n),
    decreases n,
{
    if n > 0 {
        lemma_shown_within_bytes(results, n - 1);
        lemma_lines_within_bytes(shown_lines(results[n - 1]));
    }
}

/// How much the results show: their lines, and the bytes of those and of the headers. `headers`
/// holds the length of each result's header.
pub open spec fn stats_of(results: Seq<EditResult>, headers: Seq<usize>) -> (nat, nat) {
    let n = results.len() as int;
    (lines_shown(results, n), bytes_shown(results, n) + sum(headers, n))
}

pub fn count_stats(results: &Vec<EditResult>, headers: &Vec<usize>) -> (r: Stats)
    requires
        headers@.len() == results@.len(),
        stats_of(results@, headers@).1 <= usize::MAX,
    ensures
        (r.lines as nat, r.bytes as nat) == stats_of(results@, headers@),
{
    let mut lines: usize = 0;
    let mut bytes: usize = 0;
    let mut i: usize = 0;
    while i < results.len()
        invariant
            i <= results@.len() == headers@.len(),
            stats_of(results@, headers@).1 <= usize::MAX,
            lines == lines_shown(results@, i as int),
            bytes == bytes_shown(results@, i as int) + sum(headers@, i as int),
        decreases results@.len() - i,
    {
        proof {
            lemma_sums_mono(results@, headers@, i + 1, results@.len() as int);
            lemma_shown_within_bytes(results@, i + 1);
        }
        if let Some(region) = &results[i].region {
            lines = lines + region.lines.len();
            bytes = bytes + content_bytes(region.lines.as_slice());
        }
        bytes = bytes + headers[i];
        i = i + 1;
    }
    Stats { lines, bytes }
}

/// The answer to a batch of which nothing was written.
pub open spec fn is_rejected(
    o: Outcome,
    total: nat,
    failure: Error,
    failed: Seq<String>,
    stash: Option<EditResult>,
    header: usize,
    omitted: Seq<Omission>,
) -> bool {
    match stash {
        Some(result) => {
            &&& o.error == Some(failure)
            &&& o.response.verb@ == VERB@
            &&& o.response.omitted@ == omitted
            &&& o.response.summary@ == ""@
            &&& !o.response.no_header
            &&& o.response.top_files@.len() == 0
            &&& o.response.top_files_more == 0
            &&& o.response.body matches Body::Edit(results) && results@ == seq![result]
            &&& (o.response.stats.lines as nat, o.response.stats.bytes as nat) == stats_of(
                seq![result],
                seq![header],
            )
        },
        None => if total == 1 {
            o.is_failed(VERB@, failure)
        } else {
            &&& o.error == Some(failure)
            &&& o.response.verb@ == VERB@
            &&& o.response.omitted@ == omitted
            &&& o.response.summary@ == "0 of "@ + decimal_of(total)
                + " applied \u{b7} nothing written \u{b7} fix "@ + (if failed.len() == 0 {
                "the failing edit"@
            } else {
                joined(texts(failed), ", "@)
            }) + " and re-run"@
            &&& o.response.body matches Body::Edit(results) && results@.len() == 0
            &&& o.response.stats == (Stats { lines: 0, bytes: 0 })
            &&& !o.response.no_header
            &&& o.response.top_files@.len() == 0
            &&& o.response.top_files_more == 0
        },
    }
}

/// Every file to fix is named, since fixing only the first and re-running fails on the next. A
/// lone edit that a check refused is shown as it was tried; `header` is its header's length.
pub fn rejected(
    total: usize,
    failure: Error,
    failed: &Vec<String>,
    stash: Option<EditResult>,
    header: usize,
    omitted: Vec<Omission>,
) -> (o: Outcome)
    requires
        stash matches Some(result) ==> stats_of(seq![result], seq![header]).1 <= usize::MAX,
    ensures
        is_rejected(o, total as nat, failure, failed@, stash, header, omitted@),
{
    let mut response = Response::empty(VERB);
    if let Some(result) = stash {
        let mut results: Vec<EditResult> = Vec::new();
        results.push(result);
        let mut headers: Vec<usize> = Vec::new();
        headers.push(header);
        assert(results@ =~= seq![result]);
        assert(headers@ =~= seq![header]);
        response.stats = count_stats(&results, &headers);
        response.omitted = omitted;
        response.body = Body::Edit(results);
        return Outcome::partial(response, failure);
    }
    if total == 1 {
        return Outcome::failed(VERB, failure);
    }
    let names = if failed.len() == 0 {
        "the failing edit".to_owned()
    } else {
        path_list(failed)
    };
    response.omitted = omitted;
    response.summary = "0 of ".to_owned().concat(decimal(total).as_str()).concat(
        " applied \u{b7} nothing written \u{b7} fix ",
    ).concat(names.as_str()).concat(" and re-run");
    response.body = Body::Edit(Vec::new());
    Outcome::partial(response, failure)
}

/// A file's omission among those of a batch: with several files a skip names its file, and one
/// that is there is not repeated; so is a CRLF match, and a gap names its file.
pub open spec fn merged_one(omitted: Seq<Told>, own: Told, path: Seq<char>, several: bool) -> Seq<
    Told,
> {
    match own {
        Told::Skipped { reason } if several => {
            let named = Told::Skipped { reason: path + ": "@ + reason };
            if omitted.contains(named) {
                omitted
            } else {
                omitted.push(named)
            }
        },
        Told::Plain(Omission::CrlfMatched) => if omitted.contains(own) {
            omitted
        } else {
            omitted.push(own)
        },
        Told::Gap { not_shown, path: None } if several => omitted.push(
            Told::Gap { not_shown, path: Some(path) },
        ),
        _ => omitted.push(own),
    }
}

/// The first `n` of a file's omissions among those of a batch.
pub open spec fn merged(
    omitted: Seq<Told>,
    own: Seq<Told>,
    path: Seq<char>,
    several: bool,
    n: int,
) -> Seq<Told>
    decreases n,
{
    if n <= 0 {
        omitted
    } else {
        merged_one(merged(omitted, own, path, several, n - 1), own[n - 1], path, several)
    }
}

fn told_skip(omitted: &Vec<Omission>, reason: &str) -> (r: bool)
    ensures
        r == told_all(omitted@).contains(Told::Skipped { reason: reason@ }),
{
    let mut i: usize = 0;
    let ghost all = told_all(omitted@);
    while i < omitted.len()
        invariant
            i <= omitted@.len(),
            all == told_all(omitted@),
            forall|j: int| 0 <= j < i ==> #[trigger] all[j] != (Told::Skipped { reason: reason@ }),
        decreases omitted@.len() - i,
    {
        assert(all[i as int] == omitted@[i as int].told());
        if let Omission::CheckSkipped { reason: had } = &omitted[i] {
            if text::same(had.as_str(), reason) {
                assert(all[i as int] == (Told::Skipped { reason: reason@ }));
                return true;
            }
        }
        i = i + 1;
    }
    false
}

fn told_crlf(omitted: &Vec<Omission>) -> (r: bool)
    ensures
        r == told_all(omitted@).contains(Told::Plain(Omission::CrlfMatched)),
{
    let mut i: usize = 0;
    let ghost all = told_all(omitted@);
    while i < omitted.len()
        invariant
            i <= omitted@.len(),
            all == told_all(omitted@),
            forall|j: int| 0 <= j < i ==> #[trigger] all[j] != Told::Plain(Omission::CrlfMatched),
        decreases omitted@.len() - i,
    {
        assert(all[i as int] == omitted@[i as int].told());
        if let Omission::CrlfMatched = &omitted[i] {
            assert(all[i as int] == Told::Plain(Omission::CrlfMatched));
            return true;
        }
        i = i + 1;
    }
    false
}

fn merge_one(omitted: &mut Vec<Omission>, own: Omission, path: &str, several: bool)
    ensures
        told_all(final(omitted)@) == merged_one(told_all(old(omitted)@), own.told(), path@, several),
{
    match own {
        Omission::CheckSkipped { reason } => {
            if several {
                let named = path.to_owned().concat(": ").concat(reason.as_str());
                if !told_skip(omitted, named.as_str()) {
                    tell(omitted, Omission::CheckSkipped { reason: named });
                }
            } else {
                tell(omitted, Omission::CheckSkipped { reason });
            }
        },
        Omission::CrlfMatched => {
            if !told_crlf(omitted) {
                tell(omitted, Omission::CrlfMatched);
            }
        },
        Omission::RegionGap { not_shown, path: gap_path } => {
            if several && gap_path.is_none() {
                tell(omitted, Omission::RegionGap { not_shown, path: Some(path.to_owned()) });
            } else {
                tell(omitted, Omission::RegionGap { not_shown, path: gap_path });
            }
        },
        other => {
            tell(omitted, other);
        },
    }
}

/// With several files a skip line names its file, since `no grammar for .txt` reads the same for
/// each, and one file's repeats collapse to one line.
pub fn merge_omissions(
    omitted: &mut Vec<Omission>,
    own: Vec<Omission>,
    path: &str,
    several: bool,
)
    ensures
        told_all(final(omitted)@) == merged(
            told_all(old(omitted)@),
            told_all(own@),
            path@,
            several,
            own@.len() as int,
        ),
{
    let ghost before = told_all(omitted@);
    let ghost all = own@;
    let mut rest = own;
    let count = rest.len();
    let mut i: usize = 0;
    while i < count
        invariant
            i <= count == all.len(),
            rest@ == all.skip(i as int),
            told_all(omitted@) == merged(before, told_all(all), path@, several, i as int),
        decreases count - i,
    {
        let one = rest.remove(0);
        assert(one == all[i as int]);
        assert(told_all(all)[i as int] == one.told());
        merge_one(omitted, one, path, several);
        i = i + 1;
        assert(rest@ =~= all.skip(i as int));
    }
}

/// Each thing is told once.
pub open spec fn told_once(told: Seq<Told>, what: Told) -> bool {
    forall|i: int, j: int|
        0 <= i < told.len() && 0 <= j < told.len() && #[trigger] told[i] == what
            && #[trigger] told[j] == what ==> i == j
}

/// However many files and edits a batch has, it names a CRLF match once, and with several files
/// each skipped check once.
pub proof fn law_a_merge_repeats_no_skip(
    omitted: Seq<Told>,
    own: Seq<Told>,
    path: Seq<char>,
    n: int,
    reason: Seq<char>,
)
    requires
        0 <= n <= own.len(),
        told_once(omitted, Told::Skipped { reason }),
        told_once(omitted, Told::Plain(Omission::CrlfMatched)),
    ensures
        told_once(merged(omitted, own, path, true, n), Told::Skipped { reason }),
        told_once(merged(omitted, own, path, true, n), Told::Plain(Omission::CrlfMatched)),
    decreases n,
{
    if n > 0 {
        law_a_merge_repeats_no_skip(omitted, own, path, n - 1, reason);
        let before = merged(omitted, own, path, true, n - 1);
        let after = merged(omitted, own, path, true, n);
        assert forall|i: int| 0 <= i < before.len() implies #[trigger] after[i] == before[i] by {}
        let skip = Told::Skipped { reason };
        let crlf = Told::Plain(Omission::CrlfMatched);
        assert forall|i: int, j: int|
            0 <= i < after.len() && 0 <= j < after.len() && #[trigger] after[i] == skip
                && #[trigger] after[j] == skip implies i == j by {
            if i < before.len() {
                assert(before.contains(after[i]));
            }
            if j < before.len() {
                assert(before.contains(after[j]));
            }
        }
        assert forall|i: int, j: int|
            0 <= i < after.len() && 0 <= j < after.len() && #[trigger] after[i] == crlf
                && #[trigger] after[j] == crlf implies i == j by {
            if i < before.len() {
                assert(before.contains(after[i]));
            }
            if j < before.len() {
                assert(before.contains(after[j]));
            }
        }
    }
}

/// A batch that a checker turned against fails, whatever could be put back: it says so of every file
/// that could not be.
pub proof fn law_a_batch_that_broke_the_check_fails(
    o: Outcome,
    landed: Seq<String>,
    checker: Seq<char>,
    excerpt: Seq<char>,
    reverted: Reverted,
    omitted: Seq<Omission>,
)
    requires
        is_reverted(o, landed, checker, excerpt, reverted, omitted),
    ensures
        match o.error {
            None => false,
            Some(Error::PartialBatch { written, .. }) => written@.len()
                == reverted.not_restored@.len() && written@.len() > 0 && forall|i: int|
                0 <= i < written@.len() ==> (#[trigger] written@[i])@
                    == reverted.not_restored@[i].0@,
            Some(Error::CheckFailed { .. }) => reverted.not_restored@.len() == 0
                && o.response.body !is Edit,
            _ => false,
        },
{
    if let Some(Error::PartialBatch { written, .. }) = o.error {
        let names = firsts(reverted.not_restored@);
        assert(texts(written@).len() == names.len());
        assert forall|i: int| 0 <= i < written@.len() implies (#[trigger] written@[i])@
            == reverted.not_restored@[i].0@ by {
            assert(texts(written@)[i] == names[i]);
        }
    }
}

/// Every line that is shown is counted once.
pub proof fn law_every_shown_line_is_counted(results: Seq<EditResult>, n: int)
    requires
        0 <= n <= results.len(),
    ensures
        lines_shown(results, n) == results.take(n).map_values(
            |one: EditResult| shown_lines(one).len(),
        ).fold_left(0nat, |sum: nat, one: nat| sum + one),
        bytes_shown(results, n) == results.take(n).map_values(
            |one: EditResult| lines_bytes(shown_lines(one)),
        ).fold_left(0nat, |sum: nat, one: nat| sum + one),
    decreases n,
{
    let lines = |one: EditResult| shown_lines(one).len();
    let bytes = |one: EditResult| lines_bytes(shown_lines(one));
    if n > 0 {
        law_every_shown_line_is_counted(results, n - 1);
        let part = results.take(n);
        assert(part.map_values(lines).drop_last() =~= results.take(n - 1).map_values(lines));
        assert(part.map_values(bytes).drop_last() =~= results.take(n - 1).map_values(bytes));
        assert(part.map_values(lines).last() == shown_lines(results[n - 1]).len());
        assert(part.map_values(bytes).last() == lines_bytes(shown_lines(results[n - 1])));
    }
}

/// What a file's own answer leaves out is told of in the batch's: as it stands where there is one
/// file, and else with the file's name where it would not say which; what was told before stays.
pub proof fn law_a_merge_loses_nothing(
    omitted: Seq<Told>,
    own: Seq<Told>,
    path: Seq<char>,
    several: bool,
    n: int,
)
    requires
        0 <= n <= own.len(),
    ensures
        ({
            let all = merged(omitted, own, path, several, n);
            &&& omitted.is_prefix_of(all)
            &&& all.len() <= omitted.len() + n
            &&& forall|i: int|
                0 <= i < n && !several ==> all.contains(#[trigger] own[i])
            &&& forall|i: int|
                0 <= i < n && several ==> all.contains(
                    match #[trigger] own[i] {
                        Told::Skipped { reason } => Told::Skipped { reason: path + ": "@ + reason },
                        Told::Gap { not_shown, path: None } => Told::Gap {
                            not_shown,
                            path: Some(path),
                        },
                        other => other,
                    },
                )
        }),
    decreases n,
{
    let all = merged(omitted, own, path, several, n);
    if n > 0 {
        law_a_merge_loses_nothing(omitted, own, path, several, n - 1);
        let had = merged(omitted, own, path, several, n - 1);
        assert forall|t: Told| #[trigger] had.contains(t) implies all.contains(t) by {
            let j = choose|j: int| 0 <= j < had.len() && had[j] == t;
            assert(all[j] == t);
        }
        if all.len() > had.len() {
            assert(all[had.len() as int] == all.last());
            assert(all.contains(all.last()));
        }
        assert(omitted =~= all.subrange(0, omitted.len() as int)) by {
            assert(omitted == had.subrange(0, omitted.len() as int));
        }
    } else {
        assert(omitted =~= all.subrange(0, omitted.len() as int));
    }
}

} // verus!
