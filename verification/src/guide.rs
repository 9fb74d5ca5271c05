//! The guide, as it is printed.
use vstd::prelude::*;

use crate::output::{Outcome, Response};

verus! {

/// The answer to `lets guide`: the guide itself.
pub fn run(guide: String) -> (r: Outcome)
    ensures
        r.error is None,
        r.response.is_raw("guide"@, "guide"@, guide@),
{
    Outcome::ok(Response::raw("guide", "guide", guide))
}

} // verus!
