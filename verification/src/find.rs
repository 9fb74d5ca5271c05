//! Searching the tree: what is asked for, what is walked, and what is answered.
use vstd::prelude::*;

use crate::error::Error;
use crate::find::args::FindArgs;
use crate::find::walk::copy_texts;
use crate::output::{told_all, Omission, Outcome, Response, Told};

pub mod args;
pub mod cost;
pub mod expand;
pub mod lines;
pub mod name;
pub mod order;
pub mod path;
pub mod preview;
pub mod respond;
pub mod roots;
pub mod search;
pub mod shown;
pub mod symbol;
pub mod visit;
pub mod walk;

verus! {

/// `after` says of each pattern that found nothing how it was read a second time.
pub open spec fn is_tried(error: Error, read_as: Seq<char>, after: Error) -> bool
    decreases error,
{
    match error {
        Error::NoHits { pattern, .. } => after matches Error::NoHits { pattern: p, grep_style: Some(
            read,
        ) } && p == pattern && read@ == read_as,
        Error::Several { errors } => after matches Error::Several { errors: all } && all@.len()
            == errors@.len() && forall|i: int|
            0 <= i < errors@.len() ==> is_tried(#[trigger] errors@[i], read_as, all@[i]),
        other => after == other,
    }
}

pub fn tried_grep_style(error: Error, read_as: &str) -> (r: Error)
    ensures
        is_tried(error, read_as@, r),
    decreases error,
{
    match error {
        Error::NoHits { pattern, grep_style: _ } => Error::NoHits {
            pattern,
            grep_style: Some(read_as.to_owned()),
        },
        Error::Several { errors } => {
            let ghost all = errors@;
            let mut rest = errors;
            let mut out: Vec<Error> = Vec::new();
            let count = rest.len();
            let mut i: usize = 0;
            assert(rest@ =~= all.skip(0));
            while i < count
                invariant
                    i <= count == all.len(),
                    error matches Error::Several { errors: own } && own@ == all,
                    rest@ == all.skip(i as int),
                    out@.len() == i,
                    forall|k: int|
                        0 <= k < i ==> is_tried(#[trigger] all[k], read_as@, out@[k]),
                decreases count - i,
            {
                let one = rest.remove(0);
                assert(one == all[i as int]);
                assert(rest@ =~= all.skip(i + 1));
                out.push(tried_grep_style(one, read_as));
                i = i + 1;
            }
            Error::Several { errors: out }
        },
        other => other,
    }
}

/// The search again, for another pattern.
pub open spec fn is_reread(args: FindArgs, read_as: Seq<char>, after: FindArgs) -> bool {
    &&& after == (FindArgs {
        pattern: after.pattern,
        paths: after.paths,
        globs: after.globs,
        ..args
    })
    &&& after.pattern@ == read_as
    &&& after.paths@ == args.paths@
    &&& after.globs@ == args.globs@
}

pub fn reread(args: &FindArgs, read_as: &str) -> (r: FindArgs)
    ensures
        is_reread(*args, read_as@, r),
{
    FindArgs {
        pattern: read_as.to_owned(),
        paths: copy_texts(&args.paths),
        fixed_string: args.fixed_string,
        ignore_case: args.ignore_case,
        word: args.word,
        files: args.files,
        count: args.count,
        hidden: args.hidden,
        no_expand: args.no_expand,
        globs: copy_texts(&args.globs),
        before: args.before,
        after: args.after,
        context: args.context,
        cap: args.cap,
    }
}

/// Whether a pattern that found so many hits is read a second time: `hits` is `None` where the
/// search was not made.
pub fn rereads(args: &FindArgs, hits: Option<usize>) -> (r: bool)
    ensures
        r == (hits == Some(0usize) && !args.fixed_string),
{
    match hits {
        Some(hits) => hits == 0 && !args.fixed_string,
        None => false,
    }
}

/// A pattern as grep reads it, and what a search for that came to.
#[derive(Debug)]
pub struct Reading {
    pub read_as: String,
    pub outcome: Outcome,
    pub hits: Option<usize>,
}

/// `after` is `outcome` with a note before all others.
pub open spec fn is_noted(outcome: Outcome, note: Told, after: Outcome) -> bool {
    &&& told_all(after.response.omitted@) == seq![note] + told_all(outcome.response.omitted@)
    &&& after.response == (Response { omitted: after.response.omitted, ..outcome.response })
    &&& after.error == outcome.error
}

/// A grep habit like `a\|b` is a literal bar here, so a pattern with no hits is retried as grep
/// reads it, and the footer names that reading. `second` is the retry, where there is one to make.
pub fn run(args: &FindArgs, literal: Outcome, hits: Option<usize>, second: Option<Reading>) -> (r:
    Outcome)
    ensures
        match second {
            Some(reading) if hits == Some(0usize) && !args.fixed_string => if reading.hits is Some
                && reading.hits->0 > 0 {
                is_noted(
                    reading.outcome,
                    Told::GrepStyle { pattern: args.pattern@, read_as: reading.read_as@ },
                    r,
                )
            } else {
                &&& r.response == literal.response
                &&& match literal.error {
                    Some(error) => r.error matches Some(after) && is_tried(
                        error,
                        reading.read_as@,
                        after,
                    ),
                    None => r.error is None,
                }
            },
            _ => r == literal,
        },
{
    if !rereads(args, hits) {
        return literal;
    }
    let reading = match second {
        Some(reading) => reading,
        None => return literal,
    };
    let found = match reading.hits {
        Some(hits) => hits > 0,
        None => false,
    };
    if found {
        let mut response = reading.outcome.response;
        let ghost before = response.omitted@;
        let note = Omission::GrepStyle { pattern: args.pattern.clone(), read_as: reading.read_as };
        response.omitted.insert(0, note);
        assert(told_all(response.omitted@) =~= seq![note.told()] + told_all(before));
        return Outcome { response, error: reading.outcome.error };
    }
    Outcome {
        response: literal.response,
        error: match literal.error {
            Some(error) => Some(tried_grep_style(error, reading.read_as.as_str())),
            None => None,
        },
    }
}

} // verus!
