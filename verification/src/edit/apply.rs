//! Carrying a batch out: edits are tried file by file, each on what the one before it left, and
//! answered together.
use vstd::prelude::*;

use crate::edit::bound::{are_bounded, bound_notes, bound_output};
use crate::edit::lines::lossy;
use crate::edit::region::{is_region, region};
use crate::edit::report::{bytes_shown, count_stats, stats_of, sum, VERB};
use crate::edit::spec::Applied;
use crate::error::{CheckLayer, Error, UnsupportedReason};
use crate::output::{
    tell, told_all, Body, CheckResult, EditResult, Omission, Outcome, Region, Response, Sha12,
    ShaPair, Told,
};
use crate::text;
use crate::text::{decimal, decimal_of, lines_of, plural, plural_suffix};

verus! {

/// The closing brace never matched, so the edit may have searched the wrong span.
pub const GUESSED_SPAN: &'static str = "span guessed (plaintext heuristic)";

/// A file is sniffed this far for the zero byte that makes it binary.
pub const BINARY_SNIFF_WINDOW: usize = 8192;

/// The edits of one file, by their place in the batch. `file` is the target as typed, which is
/// what the output names.
#[derive(Debug)]
pub struct Group {
    pub file: String,
    pub members: Vec<usize>,
}

/// The members of a group are edits of one file, in order, and its name is that of the first.
pub open spec fn is_group(group: Group, files: Seq<String>, keys: Seq<String>) -> bool {
    let m = group.members@;
    &&& m.len() > 0
    &&& forall|a: int, b: int| 0 <= a < b < m.len() ==> m[a] < m[b]
    &&& forall|a: int|
        0 <= a < m.len() ==> #[trigger] m[a] < keys.len() && keys[m[a] as int]@
            == keys[m[0] as int]@
    &&& group.file@ == files[m[0] as int]@
}

/// Every edit is in the group of its file, and the groups stand in the order of their first edits.
pub open spec fn are_grouped(groups: Seq<Group>, files: Seq<String>, keys: Seq<String>, n: int) -> bool {
    &&& forall|g: int| 0 <= g < groups.len() ==> is_group(#[trigger] groups[g], files, keys)
    &&& forall|g: int, a: int|
        0 <= g < groups.len() && 0 <= a < groups[g].members@.len()
            ==> #[trigger] groups[g].members@[a] < n
    &&& forall|g: int, h: int|
        0 <= g < h < groups.len() ==> {
            &&& (#[trigger] groups[g]).members@[0] < (#[trigger] groups[h]).members@[0]
            &&& keys[groups[g].members@[0] as int]@ != keys[groups[h].members@[0] as int]@
        }
    &&& forall|i: int| 0 <= i < n ==> #[trigger] is_member(groups, i)
}

/// Edit `i` is in one of the groups.
pub open spec fn is_member(groups: Seq<Group>, i: int) -> bool {
    exists|g: int, a: int|
        0 <= g < groups.len() && 0 <= a < groups[g].members@.len()
            && #[trigger] groups[g].members@[a] == i
}

fn find_group(groups: &Vec<Group>, keys: &Vec<String>, key: &str) -> (r: Option<usize>)
    requires
        forall|g: int|
            0 <= g < groups@.len() ==> (#[trigger] groups@[g]).members@.len() > 0
                && groups@[g].members@[0] < keys@.len(),
    ensures
        match r {
            Some(g) => g < groups@.len() && keys@[groups@[g as int].members@[0] as int]@ == key@,
            None => forall|g: int|
                0 <= g < groups@.len() ==> keys@[(#[trigger] groups@[g]).members@[0] as int]@
                    != key@,
        },
{
    let mut g: usize = 0;
    while g < groups.len()
        invariant
            g <= groups@.len(),
            forall|g: int|
                0 <= g < groups@.len() ==> (#[trigger] groups@[g]).members@.len() > 0
                    && groups@[g].members@[0] < keys@.len(),
            forall|h: int|
                0 <= h < g ==> keys@[(#[trigger] groups@[h]).members@[0] as int]@ != key@,
        decreases groups@.len() - g,
    {
        assert(groups@[g as int].members@.len() > 0);
        if text::same(keys[groups[g].members[0]].as_str(), key) {
            return Some(g);
        }
        g = g + 1;
    }
    None
}

/// Keyed by the file a target is of, which `canonical` tells; named by the target as typed.
pub fn group(files: &Vec<String>, canonical: &Vec<String>) -> (groups: Vec<Group>)
    requires
        files@.len() == canonical@.len(),
    ensures
        are_grouped(groups@, files@, canonical@, files@.len() as int),
{
    let mut groups: Vec<Group> = Vec::new();
    let mut i: usize = 0;
    while i < files.len()
        invariant
            i <= files@.len() == canonical@.len(),
            are_grouped(groups@, files@, canonical@, i as int),
        decreases files@.len() - i,
    {
        let ghost before = groups@;
        proof {
            assert forall|g: int| 0 <= g < before.len() implies (#[trigger] before[g]).members@.len()
                > 0 && before[g].members@[0] < canonical@.len() by {
                assert(is_group(before[g], files@, canonical@));
                assert(before[g].members@[0] < i);
            }
        }
        match find_group(&groups, canonical, canonical[i].as_str()) {
            Some(g) => {
                let found = &mut groups[g];
                found.members.push(i);
                proof {
                    lemma_grouped_more(before, groups@, files@, canonical@, i as int, g as int);
                }
            },
            None => {
                let mut members: Vec<usize> = Vec::new();
                members.push(i);
                groups.push(Group { file: files[i].clone(), members });
                proof {
                    lemma_grouped_new(before, groups@, files@, canonical@, i as int);
                }
            },
        }
        i = i + 1;
    }
    groups
}

proof fn lemma_grouped_more(
    before: Seq<Group>,
    after: Seq<Group>,
    files: Seq<String>,
    keys: Seq<String>,
    i: int,
    g: int,
)
    requires
        are_grouped(before, files, keys, i),
        0 <= i < keys.len() <= usize::MAX,
        0 <= g < before.len(),
        keys[before[g].members@[0] as int]@ == keys[i]@,
        after.len() == before.len(),
        forall|h: int| 0 <= h < before.len() && h != g ==> after[h] == before[h],
        after[g].file == before[g].file,
        after[g].members@ == before[g].members@.push(i as usize),
    ensures
        are_grouped(after, files, keys, i + 1),
{
    assert forall|h: int| 0 <= h < after.len() implies is_group(
        #[trigger] after[h],
        files,
        keys,
    ) by {
        assert(is_group(before[h], files, keys));
        if h == g {
            let m = after[g].members@;
            assert forall|a: int, b: int| 0 <= a < b < m.len() implies m[a] < m[b] by {
                assert(before[g].members@[a] < i);
            }
        }
    }
    assert forall|h: int, a: int| 0 <= h < after.len() && 0 <= a
        < after[h].members@.len() implies #[trigger] after[h].members@[a] < i + 1 by {
        if h != g || a < before[g].members@.len() {
            assert(before[h].members@[a] < i);
        }
    }
    assert forall|a: int, b: int| 0 <= a < b < after.len() implies {
        &&& (#[trigger] after[a]).members@[0] < (#[trigger] after[b]).members@[0]
        &&& keys[after[a].members@[0] as int]@ != keys[after[b].members@[0] as int]@
    } by {
        assert(is_group(before[a], files, keys) && is_group(before[b], files, keys));
        assert(before[a].members@[0] < before[b].members@[0]);
    }
    assert forall|k: int| 0 <= k < i + 1 implies #[trigger] is_member(after, k) by {
        if k < i {
            assert(is_member(before, k));
            let (h, a) = choose|h: int, a: int|
                0 <= h < before.len() && 0 <= a < before[h].members@.len()
                    && #[trigger] before[h].members@[a] == k;
            assert(after[h].members@[a] == k);
        } else {
            assert(after[g].members@[before[g].members@.len() as int] == k);
        }
    }
}

proof fn lemma_grouped_new(
    before: Seq<Group>,
    after: Seq<Group>,
    files: Seq<String>,
    keys: Seq<String>,
    i: int,
)
    requires
        are_grouped(before, files, keys, i),
        0 <= i < keys.len() <= usize::MAX,
        files.len() == keys.len(),
        forall|g: int|
            0 <= g < before.len() ==> keys[(#[trigger] before[g]).members@[0] as int]@ != keys[i]@,
        after.len() == before.len() + 1,
        forall|h: int| 0 <= h < before.len() ==> after[h] == before[h],
        after.last().file == files[i],
        after.last().members@ == seq![i as usize],
    ensures
        are_grouped(after, files, keys, i + 1),
{
    let n = before.len() as int;
    assert(is_group(after[n], files, keys));
    assert forall|h: int, a: int| 0 <= h < after.len() && 0 <= a
        < after[h].members@.len() implies #[trigger] after[h].members@[a] < i + 1 by {
        if h < n {
            assert(before[h].members@[a] < i);
        }
    }
    assert forall|a: int, b: int| 0 <= a < b < after.len() implies {
        &&& (#[trigger] after[a]).members@[0] < (#[trigger] after[b]).members@[0]
        &&& keys[after[a].members@[0] as int]@ != keys[after[b].members@[0] as int]@
    } by {
        assert(is_group(before[a], files, keys));
        if b == n {
            assert(before[a].members@[0] < i);
        } else {
            assert(before[a].members@[0] < before[b].members@[0]);
        }
    }
    assert forall|k: int| 0 <= k < i + 1 implies #[trigger] is_member(after, k) by {
        if k < i {
            assert(is_member(before, k));
            let (h, a) = choose|h: int, a: int|
                0 <= h < before.len() && 0 <= a < before[h].members@.len()
                    && #[trigger] before[h].members@[a] == k;
            assert(after[h].members@[a] == k);
        } else {
            assert(after[n].members@[0] == k);
        }
    }
}

/// A checked file's parse, before against after.
#[derive(Debug)]
pub struct Layer1 {
    pub label: String,
    pub ok: bool,
    pub status: String,
    pub errors_before: usize,
    pub errors_after: usize,
}

/// Whether the edited file was parsed, and what came of it. `extension` is the file's own.
#[derive(Debug)]
pub enum Checked {
    Off,
    NoGrammar { extension: Option<String> },
    Parsed(Layer1),
}

/// No parser names what broke, so this names the broken promise.
pub open spec fn annotation_of(layer1: Layer1) -> Seq<char> {
    if layer1.label@ == "structure"@ {
        "\u{2190} parse error"@
    } else {
        "\u{2190} invalid "@ + layer1.label@
    }
}

pub fn annotation(layer1: &Layer1) -> (r: String)
    ensures
        r@ == annotation_of(*layer1),
{
    if text::same(layer1.label.as_str(), "structure") {
        "\u{2190} parse error".to_owned()
    } else {
        "\u{2190} invalid ".to_owned().concat(layer1.label.as_str())
    }
}

pub fn layer_of(label: &str) -> (r: CheckLayer)
    ensures
        r == (if label@ == "structure"@ {
            CheckLayer::Structure
        } else {
            CheckLayer::Structured
        }),
{
    if text::same(label, "structure") {
        CheckLayer::Structure
    } else {
        CheckLayer::Structured
    }
}

/// Why a file is not parsed: nothing reads its extension, or it has none.
pub open spec fn no_grammar_text(path: Seq<char>, extension: Option<String>) -> Seq<char> {
    match extension {
        Some(ext) => "no grammar for ."@ + ext@,
        None => "no grammar for "@ + path,
    }
}

pub fn no_grammar_reason(path: &str, extension: &Option<String>) -> (r: String)
    ensures
        r@ == no_grammar_text(path@, *extension),
{
    match extension {
        Some(ext) => "no grammar for .".to_owned().concat(ext.as_str()),
        None => "no grammar for ".to_owned().concat(path),
    }
}

/// The frontmatter side is decided by where the edit starts, and `--all` starts at its first match.
pub fn edited_start(applied: &Applied) -> (r: usize)
    ensures
        r == (if applied.edits@.len() > 0 {
            applied.edits@[0].0.start
        } else {
            0
        }),
{
    if applied.edits.len() > 0 {
        applied.edits[0].0.start
    } else {
        0
    }
}

/// The edit broke the file: what it tried was not written.
pub open spec fn has_failed(checked: Checked) -> bool {
    checked matches Checked::Parsed(layer1) && !layer1.ok
}

/// What an edit tells of its check and its match.
pub open spec fn edit_notes(path: Seq<char>, applied: Applied, checked: Checked) -> Seq<Told> {
    let skipped = match checked {
        Checked::Off => seq![Told::Skipped { reason: "--no-check"@ }],
        Checked::NoGrammar { extension } => seq![
            Told::Skipped { reason: no_grammar_text(path, extension) },
        ],
        Checked::Parsed(_) => Seq::empty(),
    };
    let normalized = if applied.normalized {
        skipped.push(Told::Plain(Omission::Normalized))
    } else {
        skipped
    };
    if applied.crlf {
        normalized.push(Told::Plain(Omission::CrlfMatched))
    } else {
        normalized
    }
}

/// The numbers of the lines in the first `n` ranges.
pub open spec fn all_numbers(changed: Seq<(usize, usize)>, n: int) -> Seq<usize>
    decreases n,
{
    if n <= 0 {
        Seq::empty()
    } else {
        let (first, last) = changed[n - 1];
        all_numbers(changed, n - 1) + Seq::new(
            (last - first + 1) as nat,
            |i: int| (first + i) as usize,
        )
    }
}

fn numbers_in(changed: &Vec<(usize, usize)>) -> (r: Vec<usize>)
    requires
        forall|k: int|
            0 <= k < changed@.len() ==> 1 <= (#[trigger] changed@[k]).0 <= changed@[k].1
                < usize::MAX - 1,
    ensures
        r@ == all_numbers(changed@, changed@.len() as int),
{
    let mut out: Vec<usize> = Vec::new();
    let mut i: usize = 0;
    while i < changed.len()
        invariant
            i <= changed@.len(),
            forall|k: int|
                0 <= k < changed@.len() ==> 1 <= (#[trigger] changed@[k]).0 <= changed@[k].1
                    < usize::MAX - 1,
            out@ == all_numbers(changed@, i as int),
        decreases changed@.len() - i,
    {
        let (first, last) = changed[i];
        let ghost so_far = out@;
        let mut n: usize = first;
        assert(out@ =~= so_far + Seq::new(0, |i: int| (first + i) as usize));
        while n <= last
            invariant
                1 <= first <= n <= last + 1,
                last < usize::MAX - 1,
                out@ == so_far + Seq::new((n - first) as nat, |i: int| (first + i) as usize),
            decreases last + 1 - n,
        {
            out.push(n);
            n = n + 1;
            assert(out@ =~= so_far + Seq::new((n - first) as nat, |i: int| (first + i) as usize));
        }
        i = i + 1;
    }
    out
}

/// One tried edit as it is answered. An edit that failed its check says so in place of how it
/// matched, and leaves the file's hash as it was.
pub open spec fn is_tried(
    result: EditResult,
    path: Seq<char>,
    applied: Applied,
    checked: Checked,
    before_sha: Seq<char>,
    after_sha: Seq<char>,
) -> bool {
    let failed = has_failed(checked);
    &&& result.path@ == path
    &&& result.lines@ == all_numbers(applied.changed@, applied.changed@.len() as int)
    &&& result.match_kind@ == (if failed {
        ""@
    } else {
        applied.match_kind@
    })
    &&& match result.resolver {
        Some(resolver) => applied.span_guessed && resolver@ == GUESSED_SPAN@,
        None => !applied.span_guessed,
    }
    &&& match checked {
        Checked::Parsed(layer1) => result.check matches Some(check) && check.layer@ == (if failed {
            ""@
        } else {
            layer1.label@
        }) && check.status@ == (if failed {
            layer1.status@ + " \u{2192} reverted"@
        } else {
            layer1.status@
        }) && check.errors_before == layer1.errors_before && check.errors_after
            == layer1.errors_after,
        _ => result.check is None,
    }
    &&& result.sha.before.hex@ == before_sha
    &&& result.sha.after.hex@ == (if failed {
        before_sha
    } else {
        after_sha
    })
    &&& result.reverted == failed
    &&& result.kind == applied.kind
}

pub open spec fn note_of(checked: Checked) -> Option<Seq<char>> {
    match checked {
        Checked::Parsed(layer1) if !layer1.ok => Some(annotation_of(layer1)),
        _ => None,
    }
}

/// `region` is what the answer shows of the tried edit, and `noted` what that leaves out.
pub open spec fn shows_tried(
    region: Option<Region>,
    noted: Seq<Omission>,
    applied: Applied,
    checked: Checked,
) -> bool {
    exists|note: Option<&str>| #[trigger]
        is_region(
            region,
            noted,
            lines_of(lossy(applied.after@)),
            applied.changed@,
            applied.marker,
            note,
            has_failed(checked),
        ) && match note {
            Some(s) => note_of(checked) == Some(s@),
            None => note_of(checked) is None,
        }
}

/// The answer to one tried edit, and why the batch fails with it where it broke the file: layer 1
/// runs on bytes in memory, so "reverted" means that nothing was ever written.
pub fn one(
    path: &str,
    applied: Applied,
    checked: &Checked,
    before_sha: Sha12,
    after_sha: Sha12,
    omitted: &mut Vec<Omission>,
) -> (r: (EditResult, Option<Error>))
    requires
        forall|k: int|
            0 <= k < applied.changed@.len() ==> 1 <= (#[trigger] applied.changed@[k]).0
                <= applied.changed@[k].1 < usize::MAX - 1,
    ensures
        is_tried(r.0, path@, applied, *checked, before_sha.hex@, after_sha.hex@),
        ({
            let n = old(omitted)@.len() + edit_notes(path@, applied, *checked).len();
            &&& final(omitted)@.len() >= n
            &&& told_all(final(omitted)@.take(n as int)) == told_all(old(omitted)@) + edit_notes(
                path@,
                applied,
                *checked,
            )
            &&& shows_tried(
                r.0.region,
                final(omitted)@.skip(n as int),
                applied,
                *checked,
            )
        }),
        match r.1 {
            Some(Error::CheckFailed { path: p, layer, detail }) => has_failed(*checked) && p@
                == path@ && detail@ == checked->Parsed_0.status@ && layer == (if checked->Parsed_0.label@
                == "structure"@ {
                CheckLayer::Structure
            } else {
                CheckLayer::Structured
            }),
            Some(_) => false,
            None => !has_failed(*checked),
        },
{
    let ghost told = told_all(omitted@);
    let ghost whole = applied;
    match checked {
        Checked::Off => {
            tell(omitted, Omission::CheckSkipped { reason: "--no-check".to_owned() });
        },
        Checked::NoGrammar { extension } => {
            tell(omitted, Omission::CheckSkipped { reason: no_grammar_reason(path, extension) });
        },
        Checked::Parsed(_) => {},
    }
    if applied.normalized {
        tell(omitted, Omission::Normalized);
    }
    if applied.crlf {
        tell(omitted, Omission::CrlfMatched);
    }
    assert(told_all(omitted@) =~= told + edit_notes(path@, whole, *checked));
    let ghost noted = omitted@;
    let failed = match checked {
        Checked::Parsed(layer1) => !layer1.ok,
        _ => false,
    };
    let said = match checked {
        Checked::Parsed(layer1) => if layer1.ok {
            None
        } else {
            Some(annotation(layer1))
        },
        _ => None,
    };
    let note = match &said {
        Some(s) => Some(s.as_str()),
        None => None,
    };
    assert(match note {
        Some(s) => note_of(*checked) == Some(s@),
        None => note_of(*checked) is None,
    });
    let shown = region(
        applied.after.as_slice(),
        &applied.changed,
        applied.marker,
        note,
        failed,
        omitted,
    );
    assert(is_region(
        shown,
        omitted@.skip(noted.len() as int),
        lines_of(lossy(applied.after@)),
        applied.changed@,
        applied.marker,
        note,
        has_failed(*checked),
    ));
    assert(shows_tried(shown, omitted@.skip(noted.len() as int), whole, *checked));
    let check = match checked {
        Checked::Parsed(layer1) => Some(
            CheckResult {
                layer: if failed {
                    "".to_owned()
                } else {
                    layer1.label.clone()
                },
                status: if failed {
                    layer1.status.clone().concat(" \u{2192} reverted")
                } else {
                    layer1.status.clone()
                },
                errors_before: layer1.errors_before,
                errors_after: layer1.errors_after,
            },
        ),
        _ => None,
    };
    let after = if failed {
        Sha12 { hex: before_sha.hex.clone() }
    } else {
        after_sha
    };
    let result = EditResult {
        path: path.to_owned(),
        lines: numbers_in(&applied.changed),
        match_kind: if failed {
            "".to_owned()
        } else {
            applied.match_kind
        },
        resolver: if applied.span_guessed {
            Some(GUESSED_SPAN.to_owned())
        } else {
            None
        },
        region: shown,
        check,
        sha: ShaPair { before: before_sha, after },
        reverted: failed,
        kind: applied.kind,
    };
    let error = match checked {
        Checked::Parsed(layer1) => if layer1.ok {
            None
        } else {
            Some(
                Error::CheckFailed {
                    path: path.to_owned(),
                    layer: layer_of(layer1.label.as_str()),
                    detail: layer1.status.clone(),
                },
            )
        },
        _ => None,
    };
    (result, error)
}

/// What a file is to become: `after` in place of `before`, with the answers to its edits.
#[derive(Debug)]
pub struct Plan {
    pub path: String,
    pub before: Vec<u8>,
    pub after: Vec<u8>,
    pub detail: Vec<EditResult>,
}

/// Edit `k` started from the file that the one before it left.
pub open spec fn goes_on(detail: Seq<EditResult>, k: int) -> bool {
    detail[k].sha.before.hex@ == detail[k - 1].sha.after.hex@
}

impl Plan {
    /// Each edit started from the file that the one before it left.
    pub open spec fn is_chained(self) -> bool {
        &&& self.detail@.len() > 0
        &&& forall|k: int| 0 < k < self.detail@.len() ==> #[trigger] goes_on(self.detail@, k)
    }

    /// The bytes with that hash are those that the last edit left.
    pub open spec fn goes_on_from(self, bytes: Seq<u8>, sha: Seq<char>) -> bool {
        &&& self.is_chained()
        &&& bytes == self.after@
        &&& sha == self.detail@.last().sha.after.hex@
    }
}

/// One plan per file carries all of its edits: two plans for one path would write the second over
/// the first.
pub fn fold(folded: Option<Plan>, path: &str, before: Vec<u8>, after: Vec<u8>, detail: EditResult) -> (r: Plan)
    ensures
        match folded {
            Some(plan) => r.path == plan.path && r.before == plan.before && r.after == after
                && r.detail@ == plan.detail@.push(detail),
            None => r.path@ == path@ && r.before == before && r.after == after && r.detail@
                == seq![detail],
        },
{
    match folded {
        Some(plan) => {
            let mut all = plan.detail;
            all.push(detail);
            Plan { path: plan.path, before: plan.before, after, detail: all }
        },
        None => {
            let mut all: Vec<EditResult> = Vec::new();
            all.push(detail);
            assert(all@ =~= seq![detail]);
            Plan { path: path.to_owned(), before, after, detail: all }
        },
    }
}

/// A file that is not there and whose name another target is meant by is a mistyped target.
pub fn read_failure(raw: &str, error: Error, meant: Option<String>) -> (r: Error)
    ensures
        if (error matches Error::Io { missing, .. } && missing) && meant is Some {
            r matches Error::MistypedTarget { target, meant: m } && target@ == raw@ && m
                == meant->0
        } else {
            r == error
        },
{
    let missing = match &error {
        Error::Io { missing, .. } => *missing,
        _ => false,
    };
    match meant {
        Some(meant) if missing => Error::MistypedTarget { target: raw.to_owned(), meant },
        _ => error,
    }
}

/// A file with a zero byte near its start is binary.
pub open spec fn is_binary(before: Seq<u8>) -> bool {
    exists|i: int| 0 <= i < before.len() && i < BINARY_SNIFF_WINDOW && #[trigger] before[i] == 0
}

pub fn refuse_binary(path: &str, before: &[u8]) -> (r: Option<Error>)
    ensures
        match r {
            Some(e) => is_binary(before@) && (e matches Error::Unsupported {
                path: p,
                reason: UnsupportedReason::Binary,
            } && p@ == path@),
            None => !is_binary(before@),
        },
{
    let mut i: usize = 0;
    while i < before.len() && i < BINARY_SNIFF_WINDOW
        invariant
            i <= before@.len(),
            forall|j: int| 0 <= j < i ==> #[trigger] before@[j] != 0,
        decreases before@.len() - i,
    {
        if before[i] == 0 {
            assert(is_binary(before@));
            return Some(
                Error::Unsupported { path: path.to_owned(), reason: UnsupportedReason::Binary },
            );
        }
        i = i + 1;
    }
    None
}

/// Nothing can be found in an empty file, so the failure says that it is empty; not so where an
/// earlier edit of the batch emptied it.
pub fn edit_failure(error: Error, path: &str, carried: bool, before: &[u8]) -> (r: Error)
    ensures
        if error is NotFound && !carried && before@.len() == 0 {
            r matches Error::EmptyFile { path: p } && p@ == path@
        } else {
            r == error
        },
{
    let nothing = match &error {
        Error::NotFound { .. } => true,
        _ => false,
    };
    if nothing && !carried && before.len() == 0 {
        Error::EmptyFile { path: path.to_owned() }
    } else {
        error
    }
}

/// How many different files the first `n` results are of.
pub open spec fn files_upto(results: Seq<EditResult>, n: int) -> nat
    decreases n,
{
    if n <= 0 {
        0
    } else {
        files_upto(results, n - 1) + (if has_earlier(results, n - 1) {
            0nat
        } else {
            1nat
        })
    }
}

/// An earlier result is of the same file.
pub open spec fn has_earlier(results: Seq<EditResult>, n: int) -> bool {
    exists|j: int| 0 <= j < n && #[trigger] results[j].path@ == results[n].path@
}

fn count_files(results: &Vec<EditResult>) -> (r: usize)
    ensures
        r == files_upto(results@, results@.len() as int),
        r <= results@.len(),
{
    let mut count: usize = 0;
    let mut i: usize = 0;
    while i < results.len()
        invariant
            i <= results@.len(),
            count <= i,
            count == files_upto(results@, i as int),
        decreases results@.len() - i,
    {
        let mut seen = false;
        let mut j: usize = 0;
        while j < i
            invariant
                j <= i < results@.len(),
                seen == exists|k: int|
                    0 <= k < j && #[trigger] results@[k].path@ == results@[i as int].path@,
            decreases i - j,
        {
            if text::same(results[j].path.as_str(), results[i].path.as_str()) {
                assert(results@[j as int].path@ == results@[i as int].path@);
                seen = true;
            }
            j = j + 1;
        }
        if !seen {
            count = count + 1;
        }
        i = i + 1;
    }
    count
}

/// A check as the footer counts it.
pub open spec fn check_label(check: CheckResult) -> Seq<char> {
    check.layer@ + " "@ + check.status@
}

/// `label` counted once more among the others, which keep the order they were first seen in.
pub open spec fn counted(counts: Seq<(Seq<char>, nat)>, label: Seq<char>) -> Seq<(Seq<char>, nat)>
    decreases counts.len(),
{
    if counts.len() == 0 {
        seq![(label, 1nat)]
    } else if counts[0].0 == label {
        seq![(label, counts[0].1 + 1)] + counts.drop_first()
    } else {
        seq![counts[0]] + counted(counts.drop_first(), label)
    }
}

/// The checks of the first `n` results, counted.
pub open spec fn counts_upto(results: Seq<EditResult>, n: int) -> Seq<(Seq<char>, nat)>
    decreases n,
{
    if n <= 0 {
        Seq::empty()
    } else {
        match results[n - 1].check {
            Some(check) => counted(counts_upto(results, n - 1), check_label(check)),
            None => counts_upto(results, n - 1),
        }
    }
}

/// The first `n` counts, as the footer lists them.
pub open spec fn counts_text(counts: Seq<(Seq<char>, nat)>, n: int) -> Seq<char>
    decreases n,
{
    if n <= 0 {
        Seq::empty()
    } else {
        counts_text(counts, n - 1) + (if n == 1 {
            " \u{b7} checks: "@
        } else {
            " \u{b7} "@
        }) + counts[n - 1].0 + " \u{d7}"@ + decimal_of(counts[n - 1].1)
    }
}

/// The footer of a batch: its files, its edits, and its checks.
pub open spec fn summary_text(results: Seq<EditResult>, command: Option<CheckResult>) -> Seq<char> {
    let files = files_upto(results, results.len() as int);
    let counts = counts_upto(results, results.len() as int);
    let head = decimal_of(files) + " file"@ + plural(files) + " \u{b7} "@ + decimal_of(
        results.len(),
    ) + " edit"@ + plural(results.len()) + " \u{b7} all applied"@ + counts_text(
        counts,
        counts.len() as int,
    );
    match command {
        Some(check) => head + " \u{b7} check: "@ + check.layer@ + " "@ + check.status@,
        None => head,
    }
}

pub open spec fn counts_are(kept: Seq<(String, usize)>, counts: Seq<(Seq<char>, nat)>) -> bool {
    &&& kept.len() == counts.len()
    &&& forall|i: int|
        0 <= i < kept.len() ==> (#[trigger] kept[i]).0@ == counts[i].0 && kept[i].1 == counts[i].1
}

proof fn lemma_counted(counts: Seq<(Seq<char>, nat)>, label: Seq<char>, k: int)
    requires
        0 <= k <= counts.len(),
        forall|j: int| 0 <= j < k ==> (#[trigger] counts[j]).0 != label,
        k < counts.len() ==> counts[k].0 == label,
    ensures
        counted(counts, label) == (if k < counts.len() {
            counts.update(k, (label, counts[k].1 + 1))
        } else {
            counts.push((label, 1nat))
        }),
    decreases counts.len(),
{
    if counts.len() == 0 {
        assert(counted(counts, label) =~= counts.push((label, 1nat)));
    } else if k == 0 {
        assert(counted(counts, label) =~= counts.update(0, (label, counts[0].1 + 1)));
    } else {
        let rest = counts.drop_first();
        assert forall|j: int| 0 <= j < k - 1 implies (#[trigger] rest[j]).0 != label by {
            assert(rest[j] == counts[j + 1]);
        }
        assert(counts[0].0 != label);
        lemma_counted(rest, label, k - 1);
        if k < counts.len() {
            assert(counted(counts, label) =~= counts.update(k, (label, counts[k].1 + 1)));
        } else {
            assert(counted(counts, label) =~= counts.push((label, 1nat)));
        }
    }
}

fn count_label(
    kept: &mut Vec<(String, usize)>,
    label: String,
    Ghost(counts): Ghost<Seq<(Seq<char>, nat)>>,
)
    requires
        counts_are(old(kept)@, counts),
        forall|i: int| 0 <= i < old(kept)@.len() ==> (#[trigger] old(kept)@[i]).1 < usize::MAX,
    ensures
        counts_are(final(kept)@, counted(counts, label@)),
        forall|i: int|
            0 <= i < final(kept)@.len() ==> (#[trigger] final(kept)@[i]).1 <= (if i
                < old(kept)@.len() {
                old(kept)@[i].1 + 1
            } else {
                1
            }),
{
    let ghost before = kept@;
    let mut k: usize = 0;
    while k < kept.len()
        invariant
            k <= kept@.len(),
            kept@ == before,
            counts_are(before, counts),
            forall|j: int| 0 <= j < k ==> (#[trigger] counts[j]).0 != label@,
            forall|i: int| 0 <= i < before.len() ==> (#[trigger] before[i]).1 < usize::MAX,
            before == old(kept)@,
        decreases kept@.len() - k,
    {
        assert(before[k as int].0@ == counts[k as int].0);
        if text::same(kept[k].0.as_str(), label.as_str()) {
            let n = kept[k].1;
            kept.set(k, (label, n + 1));
            proof {
                lemma_counted(counts, label@, k as int);
                assert(counts_are(kept@, counted(counts, label@)));
            }
            return;
        }
        k = k + 1;
    }
    proof {
        lemma_counted(counts, label@, k as int);
    }
    kept.push((label, 1));
    assert(counts_are(kept@, counted(counts, label@)));
}

pub fn summary(results: &Vec<EditResult>, command: &Option<CheckResult>) -> (r: String)
    ensures
        r@ == summary_text(results@, *command),
{
    let files = count_files(results);
    let mut out = decimal(files).concat(" file").concat(plural_suffix(files)).concat(
        " \u{b7} ",
    ).concat(decimal(results.len()).as_str()).concat(" edit").concat(
        plural_suffix(results.len()),
    ).concat(" \u{b7} all applied");
    let mut counts: Vec<(String, usize)> = Vec::new();
    let total = results.len();
    let mut i: usize = 0;
    while i < results.len()
        invariant
            i <= results@.len() == total,
            counts_are(counts@, counts_upto(results@, i as int)),
            forall|k: int| 0 <= k < counts@.len() ==> (#[trigger] counts@[k]).1 <= i,
        decreases results@.len() - i,
    {
        if let Some(check) = &results[i].check {
            let label = check.layer.clone().concat(" ").concat(check.status.as_str());
            count_label(&mut counts, label, Ghost(counts_upto(results@, i as int)));
        }
        i = i + 1;
    }
    let ghost model = counts_upto(results@, results@.len() as int);
    let ghost head = out@;
    let mut i: usize = 0;
    assert(head + counts_text(model, 0) =~= head);
    while i < counts.len()
        invariant
            i <= counts@.len(),
            counts_are(counts@, model),
            out@ == head + counts_text(model, i as int),
        decreases counts@.len() - i,
    {
        assert(counts@[i as int].0@ == model[i as int].0);
        out.append(
            if i == 0 {
                " \u{b7} checks: "
            } else {
                " \u{b7} "
            },
        );
        out.append(counts[i].0.as_str());
        out.append(" \u{d7}");
        out.append(decimal(counts[i].1).as_str());
        assert(out@ =~= head + counts_text(model, i + 1));
        i = i + 1;
    }
    match command {
        Some(check) => out.concat(" \u{b7} check: ").concat(check.layer.as_str()).concat(
            " ",
        ).concat(check.status.as_str()),
        None => out,
    }
}

/// The answer to a batch that landed. A lone result's footer line is the response's, so the
/// project's own check replaces the parse there; a batch carries it in the summary.
pub open spec fn is_finished(
    o: Outcome,
    bounded: Seq<EditResult>,
    notes: Seq<Told>,
    headers: Seq<usize>,
    command: Option<CheckResult>,
    omitted: Seq<Omission>,
) -> bool {
    let lone = bounded.len() == 1;
    &&& o.error is None
    &&& o.response.verb@ == VERB@
    &&& told_all(o.response.omitted@) == told_all(omitted) + notes
    &&& o.response.summary@ == (if lone {
        ""@
    } else {
        summary_text(bounded, command)
    })
    &&& (o.response.stats.lines as nat, o.response.stats.bytes as nat) == stats_of(bounded, headers)
    &&& !o.response.no_header
    &&& o.response.top_files@.len() == 0
    &&& o.response.top_files_more == 0
    &&& o.response.body matches Body::Edit(shown) && shown@ == (if lone && command is Some {
        seq![EditResult { check: command, ..bounded[0] }]
    } else {
        bounded
    })
}

/// `headers` holds the length of each result's header.
pub fn finish(
    results: Vec<EditResult>,
    headers: &Vec<usize>,
    max_bytes: usize,
    command: Option<CheckResult>,
    omitted: Vec<Omission>,
) -> (o: Outcome)
    requires
        headers@.len() == results@.len(),
        2 * bytes_shown(results@, results@.len() as int) + sum(headers@, headers@.len() as int)
            <= usize::MAX,
    ensures
        exists|cut: Seq<EditResult>, bounded: Seq<EditResult>| #[trigger]
            are_bounded(results@, cut, bounded, max_bytes as int) && is_finished(
                o,
                bounded,
                bound_notes(results@, cut, max_bytes),
                headers@,
                command,
                omitted@,
            ),
{
    let ghost before = results@;
    let ghost told = told_all(omitted@);
    let ghost had = omitted@;
    let mut results = results;
    let mut omitted = omitted;
    bound_output(&mut results, max_bytes, &mut omitted);
    let ghost bounded = results@;
    let ghost cut = choose|cut: Seq<EditResult>| #[trigger]
        are_bounded(before, cut, bounded, max_bytes as int) && told_all(omitted@) == told
            + bound_notes(before, cut, max_bytes);
    let stats = count_stats(&results, headers);
    let mut response = Response::empty(VERB);
    response.stats = stats;
    response.omitted = omitted;
    if results.len() != 1 {
        response.summary = summary(&results, &command);
    } else if command.is_some() {
        let lone = results.pop();
        if let Some(lone) = lone {
            assert(lone == bounded[0]);
            results.push(
                EditResult {
                    path: lone.path,
                    lines: lone.lines,
                    match_kind: lone.match_kind,
                    resolver: lone.resolver,
                    region: lone.region,
                    check: command,
                    sha: lone.sha,
                    reverted: lone.reverted,
                    kind: lone.kind,
                },
            );
        }
        assert(results@ =~= seq![EditResult { check: command, ..bounded[0] }]);
    }
    response.body = Body::Edit(results);
    let o = Outcome::ok(response);
    assert(is_finished(o, bounded, bound_notes(before, cut, max_bytes), headers@, command, had));
    o
}

/// Edits of one file are in one group, edits of two files in two, and every edit is in one place of
/// one group.
pub proof fn law_edits_are_grouped_by_their_file(
    groups: Seq<Group>,
    files: Seq<String>,
    keys: Seq<String>,
    n: int,
)
    requires
        are_grouped(groups, files, keys, n),
        n <= keys.len(),
    ensures
        forall|g: int, a: int, h: int, b: int|
            0 <= g < groups.len() && 0 <= h < groups.len() && 0 <= a < groups[g].members@.len() && 0
                <= b < groups[h].members@.len() ==> {
                let (i, j) = (
                    #[trigger] groups[g].members@[a] as int,
                    #[trigger] groups[h].members@[b] as int,
                );
                &&& keys[i]@ == keys[j]@ <==> g == h
                &&& g == h && a < b ==> i < j
                &&& i == j ==> g == h && a == b
            },
        forall|i: int| 0 <= i < n ==> #[trigger] is_member(groups, i),
{
    assert forall|g: int, a: int, h: int, b: int|
        0 <= g < groups.len() && 0 <= h < groups.len() && 0 <= a < groups[g].members@.len() && 0 <= b
            < groups[h].members@.len() implies {
        let (i, j) = (
            #[trigger] groups[g].members@[a] as int,
            #[trigger] groups[h].members@[b] as int,
        );
        &&& keys[i]@ == keys[j]@ <==> g == h
        &&& g == h && a < b ==> i < j
        &&& i == j ==> g == h && a == b
    } by {
        assert(is_group(groups[g], files, keys) && is_group(groups[h], files, keys));
        if g == h {
            if b < a {
                assert(groups[g].members@[b] < groups[g].members@[a]);
            }
        }
        if g < h {
            assert(groups[g].members@[0] < groups[h].members@[0]);
        } else if h < g {
            assert(groups[h].members@[0] < groups[g].members@[0]);
        }
    }
}

proof fn lemma_path_seen(results: Seq<EditResult>, n: int)
    requires
        0 <= n < results.len(),
    ensures
        has_earlier(results, n) <==> results.take(n).map_values(
            |one: EditResult| one.path@,
        ).to_set().contains(results[n].path@),
{
    let paths = results.take(n).map_values(|one: EditResult| one.path@);
    if has_earlier(results, n) {
        let j = choose|j: int| 0 <= j < n && #[trigger] results[j].path@ == results[n].path@;
        assert(paths[j] == results[n].path@);
    }
    if paths.to_set().contains(results[n].path@) {
        let j = choose|j: int| 0 <= j < paths.len() && paths[j] == results[n].path@;
        assert(results[j].path@ == results[n].path@);
    }
}

/// The files of a batch are counted once each, however many edits each has.
pub proof fn law_each_file_is_counted_once(results: Seq<EditResult>, n: int)
    requires
        0 <= n <= results.len(),
    ensures
        files_upto(results, n) == results.take(n).map_values(
            |one: EditResult| one.path@,
        ).to_set().len(),
        results.take(n).map_values(|one: EditResult| one.path@).to_set().finite(),
    decreases n,
{
    let path = |one: EditResult| one.path@;
    let now = results.take(n).map_values(path);
    if n == 0 {
        assert(now.to_set() =~= Set::empty());
    } else {
        law_each_file_is_counted_once(results, n - 1);
        lemma_path_seen(results, n - 1);
        let had = results.take(n - 1).map_values(path);
        assert(now =~= had.push(results[n - 1].path@));
        assert(now.to_set() =~= had.to_set().insert(results[n - 1].path@)) by {
            assert forall|p: Seq<char>| now.to_set().contains(p) <==> had.to_set().insert(
                results[n - 1].path@,
            ).contains(p) by {
                if had.contains(p) {
                    let j = choose|j: int| 0 <= j < had.len() && had[j] == p;
                    assert(now[j] == p);
                }
                if now.contains(p) {
                    let j = choose|j: int| 0 <= j < now.len() && now[j] == p;
                    if j < had.len() {
                        assert(had[j] == p);
                    }
                }
                assert(now[n - 1] == results[n - 1].path@);
            }
        }
    }
}

/// How often a label is counted.
pub open spec fn times(counts: Seq<(Seq<char>, nat)>, label: Seq<char>) -> nat
    decreases counts.len(),
{
    if counts.len() == 0 {
        0
    } else {
        times(counts.drop_last(), label) + (if counts.last().0 == label {
            counts.last().1
        } else {
            0
        })
    }
}

proof fn lemma_times_first(counts: Seq<(Seq<char>, nat)>, label: Seq<char>)
    requires
        counts.len() > 0,
    ensures
        times(counts, label) == times(counts.drop_first(), label) + (if counts[0].0 == label {
            counts[0].1
        } else {
            0
        }),
    decreases counts.len(),
{
    reveal_with_fuel(times, 2);
    if counts.len() == 1 {
        assert(counts.drop_last() =~= counts.drop_first());
    } else {
        lemma_times_first(counts.drop_last(), label);
        assert(counts.drop_last().drop_first() =~= counts.drop_first().drop_last());
        assert(counts.drop_first().last() == counts.last());
    }
}

proof fn lemma_times_counted(counts: Seq<(Seq<char>, nat)>, label: Seq<char>, other: Seq<char>)
    ensures
        times(counted(counts, label), other) == times(counts, other) + (if other == label {
            1nat
        } else {
            0
        }),
    decreases counts.len(),
{
    let now = counted(counts, label);
    if counts.len() == 0 {
        reveal_with_fuel(times, 2);
        assert(now.drop_last() =~= Seq::empty());
    } else {
        lemma_times_first(counts, other);
        lemma_times_first(now, other);
        if counts[0].0 == label {
            assert(now.drop_first() =~= counts.drop_first());
        } else {
            assert(now.drop_first() =~= counted(counts.drop_first(), label));
            lemma_times_counted(counts.drop_first(), label, other);
        }
    }
}

/// Each check that a batch had is counted, under what it says, as often as it was had.
pub proof fn law_each_check_is_counted(results: Seq<EditResult>, n: int, label: Seq<char>)
    requires
        0 <= n <= results.len(),
    ensures
        times(counts_upto(results, n), label) == results.take(n).filter(
            |one: EditResult|
                one.check matches Some(check) && check.layer@ + " "@ + check.status@ == label,
        ).len(),
    decreases n,
{
    reveal(Seq::filter);
    if n > 0 {
        law_each_check_is_counted(results, n - 1, label);
        assert(results.take(n).drop_last() =~= results.take(n - 1));
        if let Some(check) = results[n - 1].check {
            lemma_times_counted(counts_upto(results, n - 1), check_label(check), label);
        }
    }
}

/// A line is answered as changed where it is in one of the changed ranges, and no other is.
pub proof fn law_the_lines_of_an_edit_are_those_it_changed(
    changed: Seq<(usize, usize)>,
    n: int,
    line: usize,
)
    requires
        0 <= n <= changed.len(),
        forall|k: int| 0 <= k < n ==> (#[trigger] changed[k]).0 <= changed[k].1,
    ensures
        all_numbers(changed, n).contains(line) <==> exists|k: int|
            0 <= k < n && (#[trigger] changed[k]).0 <= line <= changed[k].1,
    decreases n,
{
    if n > 0 {
        law_the_lines_of_an_edit_are_those_it_changed(changed, n - 1, line);
        let had = all_numbers(changed, n - 1);
        let all = all_numbers(changed, n);
        let (first, last) = changed[n - 1];
        if first <= line <= last {
            assert(all[had.len() + (line - first)] == line);
            assert(changed[n - 1].0 <= line <= changed[n - 1].1);
        }
        if had.contains(line) {
            let j = choose|j: int| 0 <= j < had.len() && had[j] == line;
            assert(all[j] == line);
        }
        if all.contains(line) {
            let j = choose|j: int| 0 <= j < all.len() && all[j] == line;
            if j < had.len() {
                assert(had[j] == line);
            } else {
                assert(all[j] == first + (j - had.len()));
            }
        }
    }
}

/// An edit that broke its file is answered as reverted, and the file as what it was; one that did not
/// is answered with what it left.
pub proof fn law_an_edit_that_broke_its_file_is_answered_as_reverted(
    result: EditResult,
    path: Seq<char>,
    applied: Applied,
    checked: Checked,
    before_sha: Seq<char>,
    after_sha: Seq<char>,
)
    requires
        is_tried(result, path, applied, checked, before_sha, after_sha),
    ensures
        result.path@ == path && result.kind == applied.kind && result.sha.before.hex@ == before_sha,
        result.reverted <==> (checked matches Checked::Parsed(layer1) && !layer1.ok),
        result.reverted ==> result.sha.after.hex@ == result.sha.before.hex@,
        !result.reverted ==> result.sha.after.hex@ == after_sha && result.match_kind@
            == applied.match_kind@,
        result.resolver is Some <==> applied.span_guessed,
        result.check is Some <==> checked is Parsed,
{
}

/// An edit tells of its check where there was none, of a match that was not exact, and of one that
/// was made in the file's own line ends, and of each of them only then.
pub proof fn law_an_edit_tells_what_was_not_checked(
    path: Seq<char>,
    applied: Applied,
    checked: Checked,
)
    ensures
        ({
            let notes = edit_notes(path, applied, checked);
            &&& notes.contains(Told::Plain(Omission::Normalized)) <==> applied.normalized
            &&& notes.contains(Told::Plain(Omission::CrlfMatched)) <==> applied.crlf
            &&& (exists|reason: Seq<char>| notes.contains(#[trigger] skipped_for(reason)))
                <==> checked !is Parsed
            &&& checked matches Checked::NoGrammar { extension: Some(ext) } ==> notes.contains(
                Told::Skipped { reason: "no grammar for ."@ + ext@ },
            )
            &&& notes.len() <= 3
        }),
{
    let notes = edit_notes(path, applied, checked);
    if checked !is Parsed {
        let reason = match checked {
            Checked::NoGrammar { extension } => no_grammar_text(path, extension),
            _ => "--no-check"@,
        };
        assert(notes[0] == skipped_for(reason));
    }
    if applied.normalized {
        let i = if checked is Parsed {
            0int
        } else {
            1
        };
        assert(notes[i] == Told::Plain(Omission::Normalized));
    }
    if applied.crlf {
        assert(notes[notes.len() - 1] == Told::Plain(Omission::CrlfMatched));
    }
}

pub open spec fn skipped_for(reason: Seq<char>) -> Told {
    Told::Skipped { reason }
}

/// An edit that broke its file says what it broke, next to the lines it changed; one that did not
/// says nothing of the kind.
pub proof fn law_a_broken_edit_says_what_it_broke(
    region: Option<Region>,
    noted: Seq<Omission>,
    applied: Applied,
    checked: Checked,
)
    requires
        shows_tried(region, noted, applied, checked),
    ensures
        has_failed(checked) <==> (checked matches Checked::Parsed(layer1) && !layer1.ok),
        exists|said: Option<&str>| #[trigger]
            is_region(
                region,
                noted,
                lines_of(lossy(applied.after@)),
                applied.changed@,
                applied.marker,
                said,
                has_failed(checked),
            ) && match said {
                Some(s) => checked matches Checked::Parsed(layer1) && !layer1.ok && s@ == (
                if layer1.label@ == "structure"@ {
                    "\u{2190} parse error"@
                } else {
                    "\u{2190} invalid "@ + layer1.label@
                }),
                None => !(checked matches Checked::Parsed(layer1) && !layer1.ok),
            },
{
}

} // verus!
