//! Searching, showing and editing the files of a working tree, for callers that pay for every line
//! they read: each verb decides here what is shown, what is changed and what is said of the rest.
//!
//! Nothing here reads or writes: a verb is handed what was read, and hands back what is to be done
//! or answered.
use vstd::prelude::*;

pub mod edit;
pub mod error;
pub mod find;
pub mod guide;
pub mod hook;
pub mod hooks;
pub mod json;
pub mod output;
pub mod pattern;
pub mod shell;
pub mod show;
pub mod stats;
pub mod text;
pub mod transform;
pub mod update;
pub mod window;
pub mod write;

verus! {

} // verus!
