//! A batch from start to end: what is done after what, and what is answered.
//!
//! Every file is validated before any is written. A checker runs before the writing and after the
//! whole of it, never between two files, and a new failure puts every file back.
use vstd::prelude::*;

use crate::edit::apply::{are_grouped, finish, group, is_finished, Group, Plan};
use crate::edit::bound::{are_bounded, bound_notes};
use crate::edit::check::{
    are_verdicts, first_failed, is_passed, label_of, law_one_failure_is_enough, passed_upto,
    settle_all, unsaid_upto, Checker, CommandVerdict,
};
use crate::edit::report::{
    bytes_shown, is_partial, is_rejected, is_reverted, rejected, reverted, stats_of,
    stopped_writing, sum,
    Reverted, VERB,
};
use crate::error::Error;
use crate::output::{told_all, CheckResult, EditResult, Omission, Outcome};
use crate::text::{decimal_of, plural, texts};

verus! {

/// A batch that is being carried out.
#[derive(Debug)]
pub struct Batch {
    /// How many edits it holds.
    pub total: usize,
    /// The checker that is asked for, where checks are on.
    pub check: Option<String>,
    pub max_bytes: usize,
    pub omitted: Vec<Omission>,
    pub plans: Vec<Plan>,
    pub checkers: Vec<Checker>,
    pub landed: Vec<String>,
    /// The checker that failed, and what it said.
    pub failure: Option<(String, String)>,
}

/// Why no file is written.
#[derive(Debug)]
pub struct Refusal {
    pub errors: Vec<Error>,
    pub failures: Vec<String>,
    /// The edit that a check refused, with the length of its header.
    pub stash: Option<EditResult>,
    pub header: usize,
}

/// Why the writing stopped.
#[derive(Debug)]
pub enum WriteFailure {
    Partial { written: Vec<String>, failed: String, detail: String },
    Other(Error),
}

/// What has happened.
#[derive(Debug)]
pub enum Event {
    Started,
    /// Each file was held against the tree that may be written to; the file each edit is of.
    Guarded(Result<Vec<String>, Error>),
    /// Each file was locked and its edits tried.
    Validated(Result<Vec<Plan>, Refusal>),
    /// The checker was looked up.
    Resolved(Result<Vec<Checker>, Error>),
    /// The checkers ran on the tree as it was.
    Baselined,
    Written(Result<Vec<String>, WriteFailure>),
    /// The checkers ran again, up to the first that failed; and how long each answer's header is.
    Settled { verdicts: Vec<CommandVerdict>, headers: Vec<usize> },
    /// The files were put back.
    Restored(Reverted),
}

/// What is to be done.
#[derive(Debug)]
pub enum Action {
    Guard,
    Validate(Vec<Group>),
    Resolve(String),
    Baseline,
    Write,
    Settle,
    Restore,
    Answer(Outcome),
}

/// The answers to all edits, file by file.
pub open spec fn details_upto(plans: Seq<Plan>, n: int) -> Seq<EditResult>
    decreases n,
{
    if n <= 0 {
        Seq::empty()
    } else {
        details_upto(plans, n - 1) + plans[n - 1].detail@
    }
}

pub open spec fn details(plans: Seq<Plan>) -> Seq<EditResult> {
    details_upto(plans, plans.len() as int)
}

/// A lone edit that a check refused is shown; of several, the files are named instead.
pub open spec fn shown_stash(total: usize, refusal: Refusal) -> Option<EditResult> {
    if total == 1 {
        refusal.stash
    } else {
        None
    }
}

/// The answer to a batch whose checkers found nothing new.
pub open spec fn is_settled(
    outcome: Outcome,
    batch: Batch,
    verdicts: Seq<CommandVerdict>,
    headers: Seq<usize>,
    check: Option<CheckResult>,
    omitted: Seq<Omission>,
    cut: Seq<EditResult>,
    bounded: Seq<EditResult>,
) -> bool {
    let results = details(batch.plans@);
    &&& is_passed(check, passed_upto(batch.checkers@, verdicts, verdicts.len() as int))
    &&& told_all(omitted) == told_all(batch.omitted@) + unsaid_upto(
        batch.checkers@,
        verdicts,
        verdicts.len() as int,
    )
    &&& are_bounded(results, cut, bounded, batch.max_bytes as int)
    &&& is_finished(
        outcome,
        bounded,
        bound_notes(results, cut, batch.max_bytes),
        headers,
        check,
        omitted,
    )
}

/// What is to be done after an event.
pub open spec fn is_next(
    before: Batch,
    files: Seq<String>,
    event: Event,
    after: Batch,
    action: Action,
) -> bool {
    match event {
        Event::Started => action is Guard && after == before,
        Event::Guarded(Err(error)) => action matches Action::Answer(o) && o.is_failed(VERB@, error),
        Event::Guarded(Ok(canonical)) => after == before && (action matches Action::Validate(groups)
            && are_grouped(groups@, files, canonical@, files.len() as int)),
        Event::Validated(Err(refusal)) => action matches Action::Answer(o) && (
        o.error matches Some(failure) && Error::stands_for(Some(failure), refusal.errors@)
            && is_rejected(
            o,
            before.total as nat,
            failure,
            refusal.failures@,
            shown_stash(before.total, refusal),
            refusal.header,
            before.omitted@,
        )),
        Event::Validated(Ok(plans)) => {
            &&& after == (Batch { plans, ..before })
            &&& match before.check {
                Some(check) => action matches Action::Resolve(value) && value@ == check@,
                None => action is Write,
            }
        },
        Event::Resolved(Err(error)) => action matches Action::Answer(o) && o.is_failed(
            VERB@,
            error,
        ),
        Event::Resolved(Ok(checkers)) => after == (Batch { checkers, ..before })
            && action is Baseline,
        Event::Baselined => after == before && action is Write,
        Event::Written(Ok(landed)) => after == (Batch { landed, ..before }) && action is Settle,
        Event::Written(Err(WriteFailure::Other(error))) => action matches Action::Answer(o)
            && o.is_failed(VERB@, error),
        Event::Written(Err(WriteFailure::Partial { written, failed, detail })) =>
            action matches Action::Answer(o) && is_partial(
            o,
            decimal_of(written@.len()) + " of "@ + decimal_of(before.plans@.len()) + " file"@
                + plural(before.plans@.len()) + " written \u{b7} "@ + failed@ + " failed"@,
            texts(written@),
            failed@,
            detail@,
            before.omitted@,
        ),
        Event::Settled { verdicts, headers } => match first_failed(verdicts@, 0) {
            Some(k) => {
                &&& action is Restore
                &&& after == (Batch { failure: after.failure, omitted: after.omitted, ..before })
                &&& after.omitted@ == before.omitted@
                &&& after.failure matches Some((label, excerpt)) && label@ == label_of(
                    before.checkers@[k],
                ) && excerpt@ == verdicts@[k]->Failed_0@
            },
            None => action matches Action::Answer(o) && exists|
                check: Option<CheckResult>,
                omitted: Seq<Omission>,
                cut: Seq<EditResult>,
                bounded: Seq<EditResult>,
            | #[trigger]
                is_settled(o, before, verdicts@, headers@, check, omitted, cut, bounded),
        },
        Event::Restored(back) => action matches Action::Answer(o) && (
        before.failure matches Some((label, excerpt)) && is_reverted(
            o,
            before.landed@,
            label@,
            excerpt@,
            back,
            before.omitted@,
        )),
    }
}

/// What an event has to come with.
pub open spec fn can_follow(batch: Batch, files: Seq<String>, event: Event) -> bool {
    match event {
        Event::Guarded(Ok(canonical)) => canonical@.len() == files.len(),
        Event::Validated(Err(refusal)) => {
            &&& refusal.errors@.len() > 0
            &&& refusal.stash matches Some(result) ==> stats_of(
                seq![result],
                seq![refusal.header],
            ).1 <= usize::MAX
        },
        Event::Settled { verdicts, headers } => {
            let results = details(batch.plans@);
            &&& are_verdicts(batch.checkers@, verdicts@)
            &&& headers@.len() == results.len()
            &&& 2 * bytes_shown(results, results.len() as int) + sum(
                headers@,
                headers@.len() as int,
            ) <= usize::MAX
        },
        Event::Restored(_) => batch.failure is Some,
        _ => true,
    }
}

/// The answers to all edits, taken out of the plans.
fn take_details(plans: Vec<Plan>) -> (r: Vec<EditResult>)
    ensures
        r@ == details(plans@),
{
    let ghost all = plans@;
    let mut rest = plans;
    let count = rest.len();
    let mut out: Vec<EditResult> = Vec::new();
    let mut i: usize = 0;
    assert(rest@ =~= all.skip(0));
    while i < count
        invariant
            i <= count == all.len(),
            rest@ == all.skip(i as int),
            out@ == details_upto(all, i as int),
        decreases count - i,
    {
        let plan = rest.remove(0);
        assert(plan == all[i as int]);
        let mut detail = plan.detail;
        out.append(&mut detail);
        i = i + 1;
        assert(rest@ =~= all.skip(i as int));
    }
    out
}

/// What is to be done after an event. `files` are the files of the edits, as typed.
pub fn apply(batch: &mut Batch, files: &Vec<String>, event: Event) -> (r: Action)
    requires
        can_follow(*old(batch), files@, event),
    ensures
        is_next(*old(batch), files@, event, *final(batch), r),
{
    match event {
        Event::Started => Action::Guard,
        Event::Guarded(Err(error)) => Action::Answer(Outcome::failed(VERB, error)),
        Event::Guarded(Ok(canonical)) => Action::Validate(group(files, &canonical)),
        Event::Validated(Err(refusal)) => {
            let ghost errors = refusal.errors@;
            let stash = if batch.total == 1 {
                refusal.stash
            } else {
                None
            };
            let omitted = take_omitted(batch);
            match Error::all(refusal.errors) {
                Some(failure) => Action::Answer(
                    rejected(
                        batch.total,
                        failure,
                        &refusal.failures,
                        stash,
                        refusal.header,
                        omitted,
                    ),
                ),
                None => {
                    assert(errors.len() == 0);
                    Action::Guard
                },
            }
        },
        Event::Validated(Ok(plans)) => {
            batch.plans = plans;
            match &batch.check {
                Some(check) => Action::Resolve(check.clone()),
                None => Action::Write,
            }
        },
        Event::Resolved(Err(error)) => Action::Answer(Outcome::failed(VERB, error)),
        Event::Resolved(Ok(checkers)) => {
            batch.checkers = checkers;
            Action::Baseline
        },
        Event::Baselined => Action::Write,
        Event::Written(Ok(landed)) => {
            batch.landed = landed;
            Action::Settle
        },
        Event::Written(Err(WriteFailure::Other(error))) => Action::Answer(
            Outcome::failed(VERB, error),
        ),
        Event::Written(Err(WriteFailure::Partial { written, failed, detail })) => {
            let total = batch.plans.len();
            let omitted = take_omitted(batch);
            Action::Answer(stopped_writing(total, written, failed, detail, omitted))
        },
        Event::Settled { verdicts, headers } => {
            let ghost start = *batch;
            match settle_all(&batch.checkers, &verdicts, &mut batch.omitted) {
                Err(failure) => {
                    batch.failure = Some(failure);
                    Action::Restore
                },
                Ok(check) => {
                    let omitted = take_omitted(batch);
                    let ghost noted = omitted@;
                    let mut plans: Vec<Plan> = Vec::new();
                    std::mem::swap(&mut plans, &mut batch.plans);
                    let results = take_details(plans);
                    let ghost all = results@;
                    let outcome = finish(results, &headers, batch.max_bytes, check, omitted);
                    proof {
                        let (cut, bounded) = choose|
                            cut: Seq<EditResult>,
                            bounded: Seq<EditResult>,
                        | #[trigger]
                            are_bounded(all, cut, bounded, start.max_bytes as int) && is_finished(
                                outcome,
                                bounded,
                                bound_notes(all, cut, start.max_bytes),
                                headers@,
                                check,
                                noted,
                            );
                        assert(is_settled(
                            outcome,
                            start,
                            verdicts@,
                            headers@,
                            check,
                            noted,
                            cut,
                            bounded,
                        ));
                    }
                    Action::Answer(outcome)
                },
            }
        },
        Event::Restored(back) => {
            let omitted = take_omitted(batch);
            match &batch.failure {
                Some((label, excerpt)) => Action::Answer(
                    reverted(&batch.landed, label.as_str(), excerpt.as_str(), &back, omitted),
                ),
                None => Action::Guard,
            }
        },
    }
}

fn take_omitted(batch: &mut Batch) -> (r: Vec<Omission>)
    ensures
        r == old(batch).omitted,
        *final(batch) == (Batch { omitted: final(batch).omitted, ..*old(batch) }),
{
    let mut omitted: Vec<Omission> = Vec::new();
    std::mem::swap(&mut omitted, &mut batch.omitted);
    omitted
}

/// Nothing is written unless every file was validated.
pub proof fn law_nothing_is_written_unvalidated(
    before: Batch,
    files: Seq<String>,
    event: Event,
    after: Batch,
    action: Action,
)
    requires
        is_next(before, files, event, after, action),
        action is Write,
    ensures
        event matches Event::Validated(Ok(plans)) && before.check is None || event is Baselined,
{
}

/// A checker never runs between two files: it runs before the writing, and after the whole of it.
pub proof fn law_checkers_run_around_the_writing(
    before: Batch,
    files: Seq<String>,
    event: Event,
    after: Batch,
    action: Action,
)
    requires
        is_next(before, files, event, after, action),
    ensures
        action is Baseline ==> event matches Event::Resolved(Ok(_)),
        action is Settle ==> event matches Event::Written(Ok(_)),
{
}

/// The files are put back only after a checker failed, and one that failed is always answered by
/// putting them back.
pub proof fn law_a_new_failure_puts_every_file_back(
    before: Batch,
    files: Seq<String>,
    event: Event,
    after: Batch,
    action: Action,
)
    requires
        is_next(before, files, event, after, action),
    ensures
        action is Restore <==> (event matches Event::Settled { verdicts, .. } && first_failed(
            verdicts@,
            0,
        ) is Some),
        action is Restore ==> after.landed == before.landed && after.plans == before.plans,
{
}

/// A batch is answered without a failure only once it was written and no checker that ran found
/// anything new; a step that failed is answered by a failure, and nothing is done after it.
pub proof fn law_only_a_batch_that_landed_is_answered_as_done(
    before: Batch,
    files: Seq<String>,
    event: Event,
    after: Batch,
    action: Action,
)
    requires
        is_next(before, files, event, after, action),
    ensures
        (action matches Action::Answer(o) && o.error is None) <==> (event matches Event::Settled {
            verdicts,
            ..
        } && forall|k: int| 0 <= k < verdicts@.len() ==> !((#[trigger] verdicts@[k]) is Failed)),
        event matches Event::Guarded(Err(error)) ==> (action matches Action::Answer(o) && o.error
            == Some(error)),
        event matches Event::Resolved(Err(error)) ==> (action matches Action::Answer(o) && o.error
            == Some(error)),
        (event matches Event::Validated(Err(_))) || (event matches Event::Written(Err(_)))
            || event is Restored ==> (action matches Action::Answer(o) && o.error is Some),
{
    if let Event::Settled { verdicts, headers } = event {
        law_one_failure_is_enough(verdicts@, 0);
    }
}

/// A batch with a checker takes its word before the writing and after it, one without writes at
/// once; what was written is what is put back.
pub proof fn law_a_checker_is_asked_before_and_after(
    before: Batch,
    files: Seq<String>,
    event: Event,
    after: Batch,
    action: Action,
)
    requires
        is_next(before, files, event, after, action),
    ensures
        event matches Event::Validated(Ok(plans)) ==> after.plans == plans && (
        before.check matches Some(check) ==> (action matches Action::Resolve(value) && value@
            == check@)) && (before.check is None ==> action is Write),
        event matches Event::Resolved(Ok(checkers)) ==> after.checkers == checkers
            && action is Baseline && after.plans == before.plans,
        event is Baselined ==> action is Write && after == before,
        event matches Event::Written(Ok(landed)) ==> after.landed == landed && action is Settle
            && after.plans == before.plans && after.checkers == before.checkers,
        event is Started ==> action is Guard,
{
}

/// Each edit of each file is answered once, in the order of the files and of the edits of each.
pub proof fn law_every_edit_is_answered(plans: Seq<Plan>, n: int, k: int, i: int) -> (at: int)
    requires
        0 <= k < n <= plans.len(),
        0 <= i < plans[k].detail@.len(),
    ensures
        0 <= at < details_upto(plans, n).len(),
        details_upto(plans, n)[at] == plans[k].detail@[i],
        at == details_upto(plans, k).len() + i,
    decreases n,
{
    if k == n - 1 {
        details_upto(plans, k).len() + i
    } else {
        law_every_edit_is_answered(plans, n - 1, k, i)
    }
}

} // verus!
