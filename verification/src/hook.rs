//! The answer to a hook.
use vstd::prelude::*;

use crate::output::{Outcome, Response};

verus! {

/// The answer to `lets hook classify`: what the verdict renders to. A verdict that renders to
/// nothing is no answer at all, which lets the call through.
pub fn run(rendered: String) -> (r: Outcome)
    ensures
        r.error is None,
        rendered@.len() > 0 ==> r.response.is_raw("hook"@, "hook"@, rendered@),
        rendered@.len() == 0 ==> r.response.is_empty_for("hook"@),
{
    if rendered.as_str().unicode_len() == 0 {
        Outcome::ok(Response::empty("hook"))
    } else {
        Outcome::ok(Response::raw("hook", "hook", rendered))
    }
}

} // verus!
