//! Replacing and inserting text in files, a batch at a time.
use vstd::prelude::*;

pub mod apply;
pub mod args;
pub mod batch;
pub mod bound;
pub mod bytes;
pub mod check;
pub mod drive;
pub mod fence;
pub mod indent;
pub mod insert;
pub mod lines;
pub mod prepare;
pub mod range;
pub mod region;
pub mod replace;
pub mod report;
pub mod scope;
pub mod spec;
pub mod splice;
pub mod trial;

use crate::edit::args::{are_built, build_specs, EditArgs, Stdin};
use crate::edit::report::VERB;
use crate::edit::spec::EditSpec;
use crate::output::Outcome;

verus! {

/// The edits to carry out, or the answer where the command line asks for none. `keys` tells which
/// file each of several targets is of, and `stdin` what came of reading standard input, where the
/// command line reads it.
pub fn run(args: &EditArgs, keys: &Vec<String>, stdin: &Stdin) -> (r: Result<
    Vec<EditSpec>,
    Outcome,
>)
    requires
        args.more_targets@.len() > 0 ==> keys@.len() == args.more_targets@.len() + 1,
    ensures
        match r {
            Ok(specs) => are_built(Ok(specs), *args, keys@, *stdin),
            Err(o) => o.error matches Some(e) && o.is_failed(VERB@, e) && are_built(
                Err(e),
                *args,
                keys@,
                *stdin,
            ),
        },
{
    match build_specs(args, keys, stdin) {
        Ok(specs) => Ok(specs),
        Err(e) => Err(Outcome::failed(VERB, e)),
    }
}

} // verus!
