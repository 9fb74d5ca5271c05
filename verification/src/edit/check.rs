//! What a project's own checker says before and after a batch, and what follows from it.
use vstd::prelude::*;

use crate::output::{tell, told_all, CheckResult, Omission, Told};
use crate::text;

verus! {

/// A checker's word on the tree.
#[derive(Debug)]
pub enum CommandVerdict {
    Passed,
    Failed(String),
    Inconclusive(String),
    Skipped(String),
}

/// `command` is what the footer names. `place` is set only when a preset split the batch into
/// several manifest groups.
#[derive(Debug)]
pub struct Checker {
    pub command: String,
    pub place: Option<String>,
}

/// A verdict with the place it is of.
pub open spec fn status_of(checker: Checker, verdict: Seq<char>) -> Seq<char> {
    match checker.place {
        Some(place) => verdict + " in "@ + place@,
        None => verdict,
    }
}

/// A reason with the place it is of.
pub open spec fn placed_of(checker: Checker, reason: Seq<char>) -> Seq<char> {
    match checker.place {
        Some(place) => place@ + ": "@ + reason,
        None => reason,
    }
}

/// The checker as a message names it.
pub open spec fn label_of(checker: Checker) -> Seq<char> {
    match checker.place {
        Some(place) => "`"@ + checker.command@ + "` in "@ + place@,
        None => "`"@ + checker.command@ + "`"@,
    }
}

impl Checker {
    pub fn status(&self, verdict: &str) -> (r: String)
        ensures
            r@ == status_of(*self, verdict@),
    {
        match &self.place {
            Some(place) => verdict.to_owned().concat(" in ").concat(place.as_str()),
            None => verdict.to_owned(),
        }
    }

    pub fn placed(&self, reason: &str) -> (r: String)
        ensures
            r@ == placed_of(*self, reason@),
    {
        match &self.place {
            Some(place) => place.clone().concat(": ").concat(reason),
            None => reason.to_owned(),
        }
    }

    pub fn label(&self) -> (r: String)
        ensures
            r@ == label_of(*self),
    {
        match &self.place {
            Some(place) => "`".to_owned().concat(self.command.as_str()).concat("` in ").concat(
                place.as_str(),
            ),
            None => "`".to_owned().concat(self.command.as_str()).concat("`"),
        }
    }
}

/// A checker whose baseline says nothing is not run again: there is nothing to compare with.
pub fn runs_again(baseline: &CommandVerdict) -> (r: bool)
    ensures
        r == (baseline is Passed || baseline is Failed),
{
    match baseline {
        CommandVerdict::Skipped(_) => false,
        CommandVerdict::Inconclusive(_) => false,
        _ => true,
    }
}

/// The verdict on the batch: the baseline's own where that says nothing, else `after`, what the
/// run after the batch came to against it.
pub fn settle(baseline: CommandVerdict, after: CommandVerdict) -> (r: CommandVerdict)
    ensures
        r == (if baseline is Passed || baseline is Failed {
            after
        } else {
            baseline
        }),
{
    if runs_again(&baseline) {
        after
    } else {
        baseline
    }
}

/// The first checker that failed.
pub open spec fn first_failed(verdicts: Seq<CommandVerdict>, i: int) -> Option<int>
    decreases verdicts.len() - i,
{
    if i < 0 || i >= verdicts.len() {
        None
    } else if verdicts[i] is Failed {
        Some(i)
    } else {
        first_failed(verdicts, i + 1)
    }
}

/// The layer and the status that the first `n` checkers that passed are answered with: the first
/// one's command, and after its own status those of the others, named where they differ.
pub open spec fn passed_upto(
    checkers: Seq<Checker>,
    verdicts: Seq<CommandVerdict>,
    n: int,
) -> Option<(Seq<char>, Seq<char>)>
    decreases n,
{
    if n <= 0 {
        None
    } else {
        let so_far = passed_upto(checkers, verdicts, n - 1);
        let one = checkers[n - 1];
        if verdicts[n - 1] !is Passed {
            so_far
        } else {
            match so_far {
                None => Some((one.command@, status_of(one, "ok"@))),
                Some((layer, status)) => if layer == one.command@ {
                    Some((layer, status + ", "@ + status_of(one, "ok"@)))
                } else {
                    Some((layer, status + ", "@ + one.command@ + " "@ + status_of(one, "ok"@)))
                },
            }
        }
    }
}

/// What the first `n` checkers left unsaid, and why.
pub open spec fn unsaid_upto(
    checkers: Seq<Checker>,
    verdicts: Seq<CommandVerdict>,
    n: int,
) -> Seq<Told>
    decreases n,
{
    if n <= 0 {
        Seq::empty()
    } else {
        let so_far = unsaid_upto(checkers, verdicts, n - 1);
        let one = checkers[n - 1];
        match verdicts[n - 1] {
            CommandVerdict::Inconclusive(reason) => so_far.push(
                Told::Inconclusive { layer: one.command@, reason: placed_of(one, reason@) },
            ),
            CommandVerdict::Skipped(reason) => so_far.push(
                Told::Skipped { reason: placed_of(one, reason@) },
            ),
            _ => so_far,
        }
    }
}

/// The check the batch is answered with.
pub open spec fn is_passed(
    check: Option<CheckResult>,
    passed: Option<(Seq<char>, Seq<char>)>,
) -> bool {
    match passed {
        None => check is None,
        Some((layer, status)) => check matches Some(c) && c.layer@ == layer && c.status@ == status
            && c.errors_before == 0 && c.errors_after == 0,
    }
}

/// Every checker has its verdict, or the last that was run failed: none is run after that.
pub open spec fn are_verdicts(checkers: Seq<Checker>, verdicts: Seq<CommandVerdict>) -> bool {
    &&& verdicts.len() <= checkers.len()
    &&& verdicts.len() == checkers.len() || verdicts.len() > 0 && verdicts.last() is Failed
}

/// Validation-atomic: one group's new failure reverts every file, even ones that passed. It is
/// returned before any omission is recorded, since the caller reverts.
pub fn settle_all(
    checkers: &Vec<Checker>,
    verdicts: &Vec<CommandVerdict>,
    omitted: &mut Vec<Omission>,
) -> (r: Result<Option<CheckResult>, (String, String)>)
    requires
        are_verdicts(checkers@, verdicts@),
    ensures
        match first_failed(verdicts@, 0) {
            Some(k) => {
                &&& 0 <= k < verdicts@.len()
                &&& r matches Err((label, excerpt)) && label@ == label_of(checkers@[k])
                    && excerpt@ == verdicts@[k]->Failed_0@
                &&& final(omitted)@ == old(omitted)@
            },
            None => {
                &&& r matches Ok(check) && is_passed(
                    check,
                    passed_upto(checkers@, verdicts@, verdicts@.len() as int),
                )
                &&& told_all(final(omitted)@) == told_all(old(omitted)@) + unsaid_upto(
                    checkers@,
                    verdicts@,
                    verdicts@.len() as int,
                )
            },
        },
{
    let mut i: usize = 0;
    while i < verdicts.len()
        invariant
            i <= verdicts@.len() <= checkers@.len(),
            omitted@ == old(omitted)@,
            first_failed(verdicts@, 0) == first_failed(verdicts@, i as int),
        decreases verdicts@.len() - i,
    {
        if let CommandVerdict::Failed(excerpt) = &verdicts[i] {
            return Err((checkers[i].label(), excerpt.clone()));
        }
        i = i + 1;
    }
    let ghost before = told_all(omitted@);
    let mut check: Option<CheckResult> = None;
    let mut i: usize = 0;
    assert(before + unsaid_upto(checkers@, verdicts@, 0) =~= before);
    while i < verdicts.len()
        invariant
            i <= verdicts@.len() <= checkers@.len(),
            is_passed(check, passed_upto(checkers@, verdicts@, i as int)),
            told_all(omitted@) == before + unsaid_upto(checkers@, verdicts@, i as int),
        decreases verdicts@.len() - i,
    {
        let one = &checkers[i];
        match &verdicts[i] {
            CommandVerdict::Passed => {
                check = match check {
                    None => Some(
                        CheckResult {
                            layer: one.command.clone(),
                            status: one.status("ok"),
                            errors_before: 0,
                            errors_after: 0,
                        },
                    ),
                    Some(passed) => {
                        let same = text::same(passed.layer.as_str(), one.command.as_str());
                        let status = if same {
                            passed.status.concat(", ").concat(one.status("ok").as_str())
                        } else {
                            passed.status.concat(", ").concat(one.command.as_str()).concat(
                                " ",
                            ).concat(one.status("ok").as_str())
                        };
                        Some(
                            CheckResult {
                                layer: passed.layer,
                                status,
                                errors_before: passed.errors_before,
                                errors_after: passed.errors_after,
                            },
                        )
                    },
                };
            },
            CommandVerdict::Failed(_) => {},
            CommandVerdict::Inconclusive(reason) => {
                tell(
                    omitted,
                    Omission::CheckInconclusive {
                        layer: one.command.clone(),
                        reason: one.placed(reason.as_str()),
                    },
                );
            },
            CommandVerdict::Skipped(reason) => {
                tell(omitted, Omission::CheckSkipped { reason: one.placed(reason.as_str()) });
            },
        }
        assert(told_all(omitted@) =~= before + unsaid_upto(checkers@, verdicts@, i + 1));
        i = i + 1;
    }
    Ok(check)
}

/// What a preset makes of the files of a batch: a command for each manifest, with the place of its
/// directory, the files (as typed) that no manifest covers, and why.
#[derive(Debug)]
pub struct Preset {
    pub groups: Vec<(String, String)>,
    pub unmatched: Vec<String>,
    pub reason: String,
}

/// A value that starts with `@` names a preset; any other is a command to run as it is.
pub fn is_preset(value: &str) -> (r: bool)
    ensures
        r == "@"@.is_prefix_of(value@),
{
    text::starts_with(value, "@")
}

/// The one checker that a command is.
pub fn literal_checker(value: &str) -> (r: Vec<Checker>)
    ensures
        r@.len() == 1,
        r@[0].command@ == value@,
        r@[0].place is None,
{
    let mut out: Vec<Checker> = Vec::new();
    out.push(Checker { command: value.to_owned(), place: None });
    out
}

/// What a preset leaves unchecked: everything, where it covers no file, else each file that no
/// manifest covers.
pub open spec fn preset_notes(preset: Preset) -> Seq<Told> {
    if preset.groups@.len() == 0 {
        seq![Told::Skipped { reason: preset.reason@ }]
    } else {
        Seq::new(
            preset.unmatched@.len(),
            |i: int|
                Told::Skipped { reason: preset.unmatched@[i]@ + ": "@ + preset.reason@ },
        )
    }
}

/// The checkers of a preset, one for each manifest; with several each names its place.
pub fn preset_checkers(preset: &Preset, omitted: &mut Vec<Omission>) -> (r: Vec<Checker>)
    ensures
        told_all(final(omitted)@) == told_all(old(omitted)@) + preset_notes(*preset),
        r@.len() == preset.groups@.len(),
        forall|i: int|
            0 <= i < r@.len() ==> (#[trigger] r@[i]).command@ == preset.groups@[i].0@ && (
            if preset.groups@.len() > 1 {
                r@[i].place matches Some(place) && place@ == preset.groups@[i].1@
            } else {
                r@[i].place is None
            }),
{
    let ghost told = told_all(omitted@);
    let mut out: Vec<Checker> = Vec::new();
    if preset.groups.len() == 0 {
        tell(omitted, Omission::CheckSkipped { reason: preset.reason.clone() });
        assert(told_all(omitted@) =~= told + preset_notes(*preset));
        return out;
    }
    let mut i: usize = 0;
    assert(told_all(omitted@) =~= told + preset_notes(*preset).take(0));
    while i < preset.unmatched.len()
        invariant
            i <= preset.unmatched@.len(),
            preset.groups@.len() > 0,
            told_all(omitted@) == told + preset_notes(*preset).take(i as int),
        decreases preset.unmatched@.len() - i,
    {
        let reason = preset.unmatched[i].clone().concat(": ").concat(preset.reason.as_str());
        tell(omitted, Omission::CheckSkipped { reason });
        i = i + 1;
        assert(told_all(omitted@) =~= told + preset_notes(*preset).take(i as int));
    }
    assert(preset_notes(*preset).take(i as int) =~= preset_notes(*preset));
    let several = preset.groups.len() > 1;
    let mut i: usize = 0;
    while i < preset.groups.len()
        invariant
            i <= preset.groups@.len(),
            several == (preset.groups@.len() > 1),
            out@.len() == i,
            forall|k: int|
                0 <= k < i ==> (#[trigger] out@[k]).command@ == preset.groups@[k].0@ && (
                if preset.groups@.len() > 1 {
                    out@[k].place matches Some(place) && place@ == preset.groups@[k].1@
                } else {
                    out@[k].place is None
                }),
        decreases preset.groups@.len() - i,
    {
        out.push(
            Checker {
                command: preset.groups[i].0.clone(),
                place: if several {
                    Some(preset.groups[i].1.clone())
                } else {
                    None
                },
            },
        );
        i = i + 1;
    }
    out
}

/// How many names two paths begin with in common.
pub open spec fn common(a: Seq<String>, b: Seq<String>) -> nat
    decreases a.len(),
{
    if a.len() == 0 || b.len() == 0 || a[0]@ != b[0]@ {
        0
    } else {
        1 + common(a.drop_first(), b.drop_first())
    }
}

/// `n` steps up.
pub open spec fn ups(n: nat) -> Seq<char>
    decreases n,
{
    if n == 0 {
        Seq::empty()
    } else {
        ups((n - 1) as nat) + "../"@
    }
}

/// A name with a `/` after it; the root is one already.
pub open spec fn slashed(name: Seq<char>) -> Seq<char> {
    if name.len() > 0 && name.last() == '/' {
        name
    } else {
        name + "/"@
    }
}

/// Each name with a `/` after it.
pub open spec fn downs(names: Seq<String>) -> Seq<char>
    decreases names.len(),
{
    if names.len() == 0 {
        Seq::empty()
    } else {
        downs(names.drop_last()) + slashed(names.last()@)
    }
}

/// A directory as seen from another: up to what they have in common, and down from there.
pub open spec fn place_of(cwd: Seq<String>, dir: Seq<String>) -> Seq<char> {
    let shared = common(cwd, dir);
    if shared == cwd.len() && shared == dir.len() {
        "./"@
    } else {
        ups((cwd.len() - shared) as nat) + downs(dir.skip(shared as int))
    }
}

proof fn lemma_common(a: Seq<String>, b: Seq<String>)
    ensures
        common(a, b) <= a.len(),
        common(a, b) <= b.len(),
    decreases a.len(),
{
    if a.len() > 0 && b.len() > 0 {
        lemma_common(a.drop_first(), b.drop_first());
    }
}

/// A trailing `/` so `./` reads as a directory; stdout never carries an absolute path. The two
/// paths are given by the names they are made of.
pub fn place(cwd: &Vec<String>, dir: &Vec<String>) -> (r: String)
    ensures
        r@ == place_of(cwd@, dir@),
{
    let mut shared: usize = 0;
    proof {
        lemma_common(cwd@, dir@);
        assert(cwd@.skip(0) =~= cwd@ && dir@.skip(0) =~= dir@);
    }
    while shared < cwd.len() && shared < dir.len() && text::same(
        cwd[shared].as_str(),
        dir[shared].as_str(),
    )
        invariant
            shared <= cwd@.len(),
            shared <= dir@.len(),
            common(cwd@, dir@) == shared + common(cwd@.skip(shared as int), dir@.skip(shared as int)),
        decreases cwd@.len() - shared,
    {
        assert(cwd@.skip(shared as int).drop_first() =~= cwd@.skip(shared + 1));
        assert(dir@.skip(shared as int).drop_first() =~= dir@.skip(shared + 1));
        shared = shared + 1;
    }
    if shared == cwd.len() && shared == dir.len() {
        return "./".to_owned();
    }
    let mut out = String::new();
    let mut i: usize = 0;
    while i < cwd.len() - shared
        invariant
            shared <= cwd@.len(),
            i <= cwd@.len() - shared,
            out@ == ups(i as nat),
        decreases cwd@.len() - shared - i,
    {
        out.append("../");
        i = i + 1;
    }
    let ghost up = out@;
    let ghost rest = dir@.skip(shared as int);
    let mut j: usize = shared;
    assert(rest.take(0) =~= Seq::empty());
    assert(up + downs(rest.take(0)) =~= up);
    while j < dir.len()
        invariant
            shared <= j <= dir@.len(),
            rest == dir@.skip(shared as int),
            out@ == up + downs(rest.take(j - shared)),
        decreases dir@.len() - j,
    {
        let ghost so_far = rest.take(j - shared + 1);
        assert(so_far.drop_last() =~= rest.take(j - shared));
        let name = dir[j].as_str();
        let n = name.unicode_len();
        out.append(name);
        if n == 0 || name.get_char(n - 1) != '/' {
            out.append("/");
        }
        assert(out@ =~= up + downs(so_far));
        j = j + 1;
    }
    assert(rest.take(j - shared) =~= rest);
    out
}

/// One checker that failed is enough, and the first of them is the one that is answered.
pub proof fn law_one_failure_is_enough(verdicts: Seq<CommandVerdict>, i: int)
    requires
        0 <= i,
    ensures
        first_failed(verdicts, i) is None <==> forall|k: int|
            i <= k < verdicts.len() ==> !((#[trigger] verdicts[k]) is Failed),
        first_failed(verdicts, i) matches Some(at) ==> i <= at < verdicts.len()
            && verdicts[at] is Failed && forall|k: int|
            i <= k < at ==> !((#[trigger] verdicts[k]) is Failed),
    decreases verdicts.len() - i,
{
    if i < verdicts.len() && !(verdicts[i] is Failed) {
        law_one_failure_is_enough(verdicts, i + 1);
    }
}

/// A batch that no checker failed is answered as checked exactly where one passed it.
pub proof fn law_a_batch_is_checked_where_one_checker_passed_it(
    checkers: Seq<Checker>,
    verdicts: Seq<CommandVerdict>,
    n: int,
)
    requires
        0 <= n <= verdicts.len() <= checkers.len(),
    ensures
        passed_upto(checkers, verdicts, n) is Some <==> exists|k: int|
            0 <= k < n && (#[trigger] verdicts[k]) is Passed,
    decreases n,
{
    if n > 0 {
        law_a_batch_is_checked_where_one_checker_passed_it(checkers, verdicts, n - 1);
        if verdicts[n - 1] is Passed {
            assert(verdicts[n - 1] is Passed);
        }
    }
}

/// The note tells that the checker said nothing, and why.
pub open spec fn tells_silence(told: Told, checker: Checker, verdict: CommandVerdict) -> bool {
    match verdict {
        CommandVerdict::Inconclusive(reason) => told matches Told::Inconclusive { layer, reason: why }
            && layer == checker.command@ && reason@.is_suffix_of(why),
        CommandVerdict::Skipped(reason) => told matches Told::Skipped { reason: why }
            && reason@.is_suffix_of(why),
        _ => false,
    }
}

/// Each checker that came to no verdict is named with its reason, in their order, and no other is.
pub proof fn law_a_silent_checker_is_named(
    checkers: Seq<Checker>,
    verdicts: Seq<CommandVerdict>,
    n: int,
) -> (at: Seq<int>)
    requires
        0 <= n <= verdicts.len() <= checkers.len(),
    ensures
        ({
            let told = unsaid_upto(checkers, verdicts, n);
            &&& at.len() == told.len()
            &&& forall|i: int|
                0 <= i < at.len() ==> 0 <= #[trigger] at[i] < n && tells_silence(
                    told[i],
                    checkers[at[i]],
                    verdicts[at[i]],
                )
            &&& forall|i: int, j: int| 0 <= i < j < at.len() ==> #[trigger] at[i] < #[trigger] at[j]
            &&& forall|k: int|
                0 <= k < n && ((#[trigger] verdicts[k]) is Inconclusive || verdicts[k] is Skipped)
                    ==> at.contains(k)
        }),
    decreases n,
{
    if n == 0 {
        Seq::empty()
    } else {
        let had = law_a_silent_checker_is_named(checkers, verdicts, n - 1);
        let one = verdicts[n - 1];
        if one is Inconclusive || one is Skipped {
            let at = had.push(n - 1);
            let reason = match one {
                CommandVerdict::Inconclusive(reason) => reason@,
                CommandVerdict::Skipped(reason) => reason@,
                _ => Seq::empty(),
            };
            let why = placed_of(checkers[n - 1], reason);
            assert(why.subrange(why.len() - reason.len(), why.len() as int) =~= reason);
            assert forall|k: int| 0 <= k < n && ((#[trigger] verdicts[k]) is Inconclusive
                || verdicts[k] is Skipped) implies at.contains(k) by {
                if k < n - 1 {
                    let i = choose|i: int| 0 <= i < had.len() && had[i] == k;
                    assert(at[i] == k);
                } else {
                    assert(at[had.len() as int] == k);
                }
            }
            at
        } else {
            had
        }
    }
}

/// A preset that covers nothing says so once; else each file that it does not cover is named.
pub proof fn law_what_a_preset_does_not_cover_is_told(preset: Preset)
    ensures
        preset.groups@.len() == 0 ==> preset_notes(preset).len() == 1,
        preset.groups@.len() > 0 ==> preset_notes(preset).len() == preset.unmatched@.len()
            && forall|i: int|
            0 <= i < preset.unmatched@.len() ==> ((#[trigger] preset_notes(preset)[i]) matches
                Told::Skipped { reason } && preset.unmatched@[i]@.is_prefix_of(reason)
                && preset.reason@.is_suffix_of(reason)),
{
    if preset.groups@.len() > 0 {
        assert forall|i: int| 0 <= i < preset.unmatched@.len() implies ((
        #[trigger] preset_notes(preset)[i]) matches Told::Skipped { reason }
            && preset.unmatched@[i]@.is_prefix_of(reason) && preset.reason@.is_suffix_of(
            reason,
        )) by {
            let (name, why) = (preset.unmatched@[i]@, preset.reason@);
            let reason = name + ": "@ + why;
            assert(reason.subrange(0, name.len() as int) =~= name);
            assert(reason.subrange(reason.len() - why.len(), reason.len() as int) =~= why);
        }
    }
}

} // verus!
