//! Replacing the running program with the latest release.
use vstd::prelude::*;

use crate::error::Error;
use crate::output::{Body, Format, Outcome, Response, UpdateCheck};

verus! {

/// What an update that was carried out says.
pub open spec fn text_of(format: Format) -> Seq<char> {
    match format {
        Format::Text => "replaced with the latest release\n"@,
        Format::Json | Format::Jsonl => "done"@,
    }
}

fn update_text(format: Format) -> (r: String)
    ensures
        r@ == text_of(format),
{
    match format {
        Format::Text => "replaced with the latest release\n".to_owned(),
        Format::Json | Format::Jsonl => "done".to_owned(),
    }
}

/// The running version beside the latest; `newer` says that the latest stands above it.
pub fn compare(current: String, latest: String, newer: bool) -> (r: UpdateCheck)
    ensures
        r == (UpdateCheck { update_available: newer, current, latest }),
{
    UpdateCheck { update_available: newer, current, latest }
}

/// The answer to a comparison. An update that could be had is a failure, so that a script sees it.
pub open spec fn is_reported(outcome: Outcome, check: UpdateCheck) -> bool {
    &&& outcome.response.body == Body::Update(check)
    &&& (Response { body: Body::Empty, ..outcome.response }).is_empty_for("update"@)
    &&& match outcome.error {
        Some(Error::UpdateAvailable { current, latest }) => check.update_available && current@
            == check.current@ && latest@ == check.latest@,
        Some(_) => false,
        None => !check.update_available,
    }
}

pub fn reported(check: UpdateCheck) -> (r: Outcome)
    ensures
        is_reported(r, check),
{
    let available = if check.update_available {
        Some(
            Error::UpdateAvailable { current: check.current.clone(), latest: check.latest.clone() },
        )
    } else {
        None
    };
    let mut response = Response::empty("update");
    response.body = Body::Update(check);
    match available {
        Some(error) => Outcome::partial(response, error),
        None => Outcome::ok(response),
    }
}

/// What is asked for.
#[derive(Debug, Clone, Copy, PartialEq, Eq, Structural)]
pub struct Asked {
    pub check_only: bool,
    pub force: bool,
    pub format: Format,
}

/// What has happened.
#[derive(Debug)]
pub enum Event {
    Started,
    /// The installer's address, the machine's kind and the directory to install to were looked
    /// for, all of which needs no network.
    Located(Result<(), Error>),
    Compared(Result<UpdateCheck, Error>),
    Installed(Result<(), Error>),
}

/// What is to be done.
#[derive(Debug)]
pub enum Action {
    Locate,
    Compare,
    Install,
    Answer(Outcome),
}

/// What is to be done after an event.
pub open spec fn is_next(asked: Asked, event: Event, action: Action) -> bool {
    match event {
        Event::Started => if asked.check_only {
            action is Compare
        } else {
            action is Locate
        },
        Event::Located(Err(error)) => action matches Action::Answer(outcome) && outcome.is_failed(
            "update"@,
            error,
        ),
        Event::Located(Ok(())) => if asked.force {
            action is Install
        } else {
            action is Compare
        },
        Event::Compared(Err(error)) => action matches Action::Answer(outcome) && outcome.is_failed(
            "update"@,
            error,
        ),
        Event::Compared(Ok(check)) => if asked.check_only || !check.update_available {
            action matches Action::Answer(outcome) && is_reported(outcome, check)
        } else {
            action is Install
        },
        Event::Installed(Err(error)) => action matches Action::Answer(outcome)
            && outcome.is_failed("update"@, error),
        Event::Installed(Ok(())) => action matches Action::Answer(outcome) && outcome.error is None
            && outcome.response.is_raw("update"@, "update"@, text_of(asked.format)),
    }
}

/// What is to be done after an event. What can be refused on the spot comes before the network, so
/// that a shadowed program is named without waiting.
pub fn next(asked: &Asked, event: Event) -> (r: Action)
    ensures
        is_next(*asked, event, r),
{
    match event {
        Event::Started => if asked.check_only {
            Action::Compare
        } else {
            Action::Locate
        },
        Event::Located(Err(error)) => Action::Answer(Outcome::failed("update", error)),
        Event::Located(Ok(())) => if asked.force {
            Action::Install
        } else {
            Action::Compare
        },
        Event::Compared(Err(error)) => Action::Answer(Outcome::failed("update", error)),
        Event::Compared(Ok(check)) => if asked.check_only || !check.update_available {
            Action::Answer(reported(check))
        } else {
            Action::Install
        },
        Event::Installed(Err(error)) => Action::Answer(Outcome::failed("update", error)),
        Event::Installed(Ok(())) => Action::Answer(
            Outcome::ok(Response::raw("update", "update", update_text(asked.format))),
        ),
    }
}

/// A build that is as new as the latest release, or newer, is never replaced unless that is forced,
/// and a mere check replaces nothing.
pub proof fn law_nothing_is_downgraded(asked: Asked, event: Event, action: Action)
    requires
        is_next(asked, event, action),
        action is Install,
    ensures
        asked.force && event is Located || !asked.check_only && (event matches Event::Compared(
            Ok(check),
        ) && check.update_available),
{
}

/// The network is not asked before what can be refused on the spot has been, unless nothing is to
/// be installed.
pub proof fn law_local_refusals_come_first(asked: Asked, action: Action)
    requires
        is_next(asked, Event::Started, action),
        !asked.check_only,
    ensures
        action is Locate,
{
}

} // verus!
