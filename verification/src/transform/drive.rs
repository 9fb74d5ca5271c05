//! A call from start to end: what is done after what, and what is answered.
use vstd::prelude::*;

use crate::edit::apply::Group;
use crate::edit::check::CommandVerdict;
use crate::edit::drive::WriteFailure;
use crate::edit::report::Reverted;
use crate::error::Error;
use crate::output::{
    tell, told_all, CheckResult, Omission, Outcome, Told, TransformResult,
};
use crate::text::{decimal_of, plural, texts};
use crate::transform::report::{
    among, are_countable, are_ordered, changes_upto, finish, first_word, group, is_finished,
    is_partial, is_rejected, is_reverted, judge, rejected, reverted, stopped_writing,
};
use crate::transform::spec::VERB;

verus! {

/// A call that is being carried out.
#[derive(Debug)]
pub struct Batch {
    /// The checker that is asked for.
    pub check: Option<String>,
    pub no_check: bool,
    pub omitted: Vec<Omission>,
    /// How many files there are.
    pub files: usize,
    pub results: Vec<TransformResult>,
    pub landed: Vec<String>,
    /// What the checker said that failed.
    pub failure: Option<String>,
}

/// Why no file is written.
#[derive(Debug)]
pub struct Refusal {
    pub errors: Vec<Error>,
    pub failures: Vec<String>,
}

/// What has happened.
#[derive(Debug)]
pub enum Event {
    Started,
    /// Each file was held against the tree that may be written to; the file each target is of.
    Guarded(Result<Vec<String>, Error>),
    /// Each file was locked and its operations tried.
    Validated(Result<Vec<TransformResult>, Refusal>),
    /// The checker ran on the tree as it was.
    Baselined,
    Written(Result<Vec<String>, WriteFailure>),
    /// The checker ran again, and was held against what it said before.
    Settled(CommandVerdict),
    /// The files were put back.
    Restored(Reverted),
}

/// What is to be done.
#[derive(Debug)]
pub enum Action {
    Guard,
    Validate(Vec<Group>),
    Baseline,
    Write,
    Settle,
    Restore,
    Answer(Outcome),
}

/// The command that checks the tree, where checks are on.
pub open spec fn command_of(batch: Batch) -> Option<Seq<char>> {
    match batch.check {
        Some(check) => if batch.no_check {
            None
        } else {
            Some(check@)
        },
        None => None,
    }
}

fn command(batch: &Batch) -> (r: Option<String>)
    ensures
        match r {
            Some(command) => command_of(*batch) == Some(command@),
            None => command_of(*batch) is None,
        },
{
    match &batch.check {
        Some(check) => if batch.no_check {
            None
        } else {
            Some(check.clone())
        },
        None => None,
    }
}

/// What a checker that found nothing new is answered with, and noted by.
pub open spec fn is_judged(
    cmd: Seq<char>,
    verdict: CommandVerdict,
    check: Option<CheckResult>,
    before: Seq<Omission>,
    after: Seq<Omission>,
) -> bool {
    match verdict {
        CommandVerdict::Passed => {
            &&& check matches Some(check) && check.layer@ == first_word(cmd) && check.status@
                == "ok"@ && check.errors_before == 0 && check.errors_after == 0
            &&& told_all(after) == told_all(before)
        },
        CommandVerdict::Failed(_) => false,
        CommandVerdict::Inconclusive(reason) => check is None && told_all(after) == told_all(
            before,
        ).push(Told::Inconclusive { layer: first_word(cmd), reason: reason@ }),
        CommandVerdict::Skipped(reason) => check is None && told_all(after) == told_all(
            before,
        ).push(Told::Skipped { reason: reason@ }),
    }
}

/// The answer to a call whose checker found nothing new.
pub open spec fn is_settled(
    outcome: Outcome,
    batch: Batch,
    cmd: Seq<char>,
    verdict: CommandVerdict,
    check: Option<CheckResult>,
    omitted: Seq<Omission>,
) -> bool {
    &&& is_judged(cmd, verdict, check, batch.omitted@, omitted)
    &&& is_finished(outcome, batch.results@, check, omitted)
}

/// What the notes come to once every file was tried.
pub open spec fn are_noted(before: Batch, after: Seq<Omission>) -> bool {
    told_all(after) == if before.no_check {
        told_all(before.omitted@).push(Told::Skipped { reason: "--no-check"@ })
    } else {
        told_all(before.omitted@)
    }
}

/// What is to be done after an event.
pub open spec fn is_next(
    before: Batch,
    files: Seq<String>,
    event: Event,
    after: Batch,
    action: Action,
) -> bool {
    match event {
        Event::Started => action is Guard && after == before,
        Event::Guarded(Err(error)) => action matches Action::Answer(o) && o.is_failed(VERB@, error),
        Event::Guarded(Ok(canonical)) => action matches Action::Validate(groups) && are_ordered(
            groups@,
            files,
            canonical@,
        ) && after == (Batch { files: groups@.len() as usize, ..before }),
        Event::Validated(Err(refusal)) => action matches Action::Answer(o) && (
        o.error matches Some(failure) && Error::stands_for(Some(failure), refusal.errors@)
            && is_rejected(
            o,
            before.files as nat,
            failure,
            refusal.failures@,
            before.omitted@,
        )),
        Event::Validated(Ok(results)) => {
            &&& after == (Batch { results, omitted: after.omitted, ..before })
            &&& are_noted(before, after.omitted@)
            &&& if command_of(before) is Some {
                action is Baseline
            } else {
                action is Write
            }
        },
        Event::Baselined => after == before && action is Write,
        Event::Written(Ok(landed)) => if command_of(before) is Some {
            after == (Batch { landed, ..before }) && action is Settle
        } else {
            action matches Action::Answer(o) && is_finished(
                o,
                before.results@,
                None,
                before.omitted@,
            )
        },
        Event::Written(Err(WriteFailure::Other(error))) => action matches Action::Answer(o)
            && o.is_failed(VERB@, error),
        Event::Written(Err(WriteFailure::Partial { written, failed, detail })) =>
            action matches Action::Answer(o) && is_partial(
            o,
            decimal_of(written@.len()) + " of "@ + decimal_of(before.results@.len()) + " file"@
                + plural(before.results@.len()) + " written \u{b7} "@ + failed@ + " failed"@,
            among(before.results@, written@),
            texts(written@),
            failed@,
            detail@,
            before.omitted@,
        ),
        Event::Settled(verdict) => match verdict {
            CommandVerdict::Failed(excerpt) => {
                &&& action is Restore
                &&& after == (Batch {
                    failure: Some(excerpt),
                    omitted: after.omitted,
                    ..before
                })
                &&& after.omitted@ == before.omitted@
            },
            _ => action matches Action::Answer(o) && exists|
                check: Option<CheckResult>,
                omitted: Seq<Omission>,
            | #[trigger]
                is_settled(o, before, command_of(before)->0, verdict, check, omitted),
        },
        Event::Restored(back) => action matches Action::Answer(o) && is_reverted(
            o,
            before.results@,
            before.landed@,
            command_of(before)->0,
            before.failure->0@,
            back,
            before.omitted@,
        ),
    }
}

/// What an event has to come with.
pub open spec fn can_follow(batch: Batch, files: Seq<String>, event: Event) -> bool {
    match event {
        Event::Guarded(Ok(canonical)) => canonical@.len() == files.len(),
        Event::Validated(Err(refusal)) => refusal.errors@.len() > 0,
        Event::Written(_) => are_countable(batch.results@) && changes_upto(
            batch.results@,
            batch.results@.len() as int,
        ) <= usize::MAX,
        Event::Settled(_) => command_of(batch) is Some && are_countable(batch.results@)
            && changes_upto(batch.results@, batch.results@.len() as int) <= usize::MAX,
        Event::Restored(_) => command_of(batch) is Some && batch.failure is Some && are_countable(
            batch.results@,
        ),
        _ => true,
    }
}

fn take_omitted(batch: &mut Batch) -> (r: Vec<Omission>)
    ensures
        r == old(batch).omitted,
        *final(batch) == (Batch { omitted: final(batch).omitted, ..*old(batch) }),
{
    let mut omitted: Vec<Omission> = Vec::new();
    std::mem::swap(&mut omitted, &mut batch.omitted);
    omitted
}

fn take_results(batch: &mut Batch) -> (r: Vec<TransformResult>)
    ensures
        r == old(batch).results,
        *final(batch) == (Batch { results: final(batch).results, ..*old(batch) }),
{
    let mut results: Vec<TransformResult> = Vec::new();
    std::mem::swap(&mut results, &mut batch.results);
    results
}

/// What is to be done after an event. `files` are the files of the targets, as typed.
pub fn apply(batch: &mut Batch, files: &Vec<String>, event: Event) -> (r: Action)
    requires
        can_follow(*old(batch), files@, event),
    ensures
        is_next(*old(batch), files@, event, *final(batch), r),
{
    match event {
        Event::Started => Action::Guard,
        Event::Guarded(Err(error)) => Action::Answer(Outcome::failed(VERB, error)),
        Event::Guarded(Ok(canonical)) => {
            let groups = group(files, &canonical);
            batch.files = groups.len();
            Action::Validate(groups)
        },
        Event::Validated(Err(refusal)) => {
            let ghost errors = refusal.errors@;
            let omitted = take_omitted(batch);
            match Error::all(refusal.errors) {
                Some(failure) => Action::Answer(
                    rejected(batch.files, failure, &refusal.failures, omitted),
                ),
                None => {
                    assert(errors.len() == 0);
                    Action::Guard
                },
            }
        },
        Event::Validated(Ok(results)) => {
            batch.results = results;
            if batch.no_check {
                tell(
                    &mut batch.omitted,
                    Omission::CheckSkipped { reason: "--no-check".to_owned() },
                );
            }
            if batch.check.is_some() && !batch.no_check {
                Action::Baseline
            } else {
                Action::Write
            }
        },
        Event::Baselined => Action::Write,
        Event::Written(Ok(landed)) => {
            if batch.check.is_some() && !batch.no_check {
                batch.landed = landed;
                Action::Settle
            } else {
                let omitted = take_omitted(batch);
                let results = take_results(batch);
                Action::Answer(finish(results, None, omitted))
            }
        },
        Event::Written(Err(WriteFailure::Other(error))) => Action::Answer(
            Outcome::failed(VERB, error),
        ),
        Event::Written(Err(WriteFailure::Partial { written, failed, detail })) => {
            let omitted = take_omitted(batch);
            let results = take_results(batch);
            Action::Answer(stopped_writing(results, written, failed, detail, omitted))
        },
        Event::Settled(verdict) => {
            let ghost start = *batch;
            let ghost said = verdict;
            match command(batch) {
                Some(cmd) => match judge(cmd.as_str(), verdict, &mut batch.omitted) {
                    Err(excerpt) => {
                        batch.failure = Some(excerpt);
                        Action::Restore
                    },
                    Ok(check) => {
                        let omitted = take_omitted(batch);
                        let ghost noted = omitted@;
                        let results = take_results(batch);
                        let outcome = finish(results, check, omitted);
                        assert(is_judged(cmd@, said, check, start.omitted@, noted));
                        assert(is_finished(outcome, start.results@, check, noted));
                        assert(is_settled(
                            outcome,
                            start,
                            command_of(start)->0,
                            said,
                            check,
                            noted,
                        ));
                        Action::Answer(outcome)
                    },
                },
                None => Action::Guard,
            }
        },
        Event::Restored(back) => {
            let cmd = command(batch);
            let omitted = take_omitted(batch);
            let results = take_results(batch);
            match (&cmd, &batch.failure) {
                (Some(cmd), Some(excerpt)) => Action::Answer(
                    reverted(
                        results,
                        &batch.landed,
                        cmd.as_str(),
                        excerpt.as_str(),
                        &back,
                        omitted,
                    ),
                ),
                _ => Action::Guard,
            }
        },
    }
}

/// Nothing is written unless every file was validated.
pub proof fn law_nothing_is_written_unvalidated(
    before: Batch,
    files: Seq<String>,
    event: Event,
    after: Batch,
    action: Action,
)
    requires
        is_next(before, files, event, after, action),
        action is Write,
    ensures
        (event matches Event::Validated(Ok(_))) && command_of(before) is None || event is Baselined,
{
}

/// Only a checker that passed before and fails now is evidence that the call broke something: it
/// alone puts every file back.
pub proof fn law_only_a_new_failure_puts_files_back(
    before: Batch,
    files: Seq<String>,
    event: Event,
    after: Batch,
    action: Action,
)
    requires
        is_next(before, files, event, after, action),
    ensures
        action is Restore <==> event matches Event::Settled(CommandVerdict::Failed(_)),
{
}

/// A call is answered without a failure only once its files were written and its checker, where it
/// has one, found nothing new; a step that failed is answered by a failure.
pub proof fn law_only_a_call_that_landed_is_answered_as_done(
    before: Batch,
    files: Seq<String>,
    event: Event,
    after: Batch,
    action: Action,
)
    requires
        is_next(before, files, event, after, action),
    ensures
        (action matches Action::Answer(o) && o.error is None) <==> (((
        event matches Event::Written(Ok(_))) && (before.check is None || before.no_check)) || (
        event matches Event::Settled(verdict) && !(verdict is Failed))),
        event matches Event::Guarded(Err(error)) ==> (action matches Action::Answer(o) && o.error
            == Some(error)),
        (event matches Event::Validated(Err(_))) || (event matches Event::Written(Err(_)))
            || event is Restored ==> (action matches Action::Answer(o) && o.error is Some),
{
}

/// A checker is asked before the writing and after it, unless checks are off; then a note says so.
pub proof fn law_a_checker_is_asked_before_and_after(
    before: Batch,
    files: Seq<String>,
    event: Event,
    after: Batch,
    action: Action,
)
    requires
        is_next(before, files, event, after, action),
    ensures
        event matches Event::Validated(Ok(results)) ==> {
            &&& after.results == results
            &&& action is Baseline <==> before.check is Some && !before.no_check
            &&& action is Write <==> before.check is None || before.no_check
            &&& before.no_check ==> told_all(after.omitted@).len() == told_all(
                before.omitted@,
            ).len() + 1
            &&& !before.no_check ==> told_all(after.omitted@) == told_all(before.omitted@)
        },
        event is Baselined ==> action is Write,
        (event matches Event::Written(Ok(_))) && before.check is Some && !before.no_check
            ==> action is Settle && after.results == before.results,
        event is Started ==> action is Guard,
{
}

} // verus!
