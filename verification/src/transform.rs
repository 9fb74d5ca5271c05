//! Setting, deleting and appending values in structured files.
use vstd::prelude::*;

use crate::edit::args::Stdin;
use crate::error::Error;
use crate::output::Outcome;
use crate::transform::spec::{
    aims, are_targets, batch_of, from_refusal, is_input, is_recorded, reads_batch, single_of,
    targets, tells, BadKeys, Target, TransformArgs, VERB,
};

pub mod carry;
pub mod drive;
pub mod hunk;
pub mod region;
pub mod report;
pub mod spec;

verus! {

/// The answer to a call that asks for nothing that can be done.
pub open spec fn is_refused(outcome: Outcome, error: Error) -> bool {
    outcome.is_failed(VERB@, error)
}

/// The files and operations that a call asks for, or its answer where it is refused before any
/// file is read. `input` is what standard input came to, where the call reads it, and `bad` holds
/// those of the keys that it names that are no paths.
pub fn run(args: &TransformArgs, input: &Stdin, bad: &mut BadKeys) -> (r: Result<
    Vec<Target>,
    Outcome,
>)
    requires
        args.from is None ==> is_recorded(*args),
    ensures
        exists|asked: Result<Vec<Target>, Error>| #[trigger]
            is_asked(asked, *args, *input, old(bad)@) && (match asked {
                Ok(list) => r == Ok::<Vec<Target>, Outcome>(list),
                Err(error) => r matches Err(outcome) && is_refused(outcome, error),
            }),
{
    let asked = targets(args, input, bad);
    assert(is_asked(asked, *args, *input, old(bad)@));
    match asked {
        Ok(list) => Ok(list),
        Err(error) => Err(Outcome::failed(VERB, error)),
    }
}

/// What a call asks for.
pub open spec fn is_asked(
    asked: Result<Vec<Target>, Error>,
    args: TransformArgs,
    input: Stdin,
    bad: Seq<(String, Error)>,
) -> bool {
    match from_refusal(args) {
        Some(refusal) => asked matches Err(error) && tells(error, refusal),
        None => if reads_batch(args) {
            exists|read: Result<String, Error>| #[trigger]
                is_input(read, input) && (match read {
                    Ok(text) => are_targets(asked, batch_of(text@, bad)),
                    Err(error) => asked == Err::<Vec<Target>, Error>(error),
                })
        } else {
            match single_of(args, bad) {
                Ok(aim) => asked matches Ok(list) && aims(list@) == seq![aim],
                Err(refusal) => asked matches Err(error) && tells(error, refusal),
            }
        },
    }
}

} // verus!
