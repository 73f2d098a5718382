//! Decision logic of a small desktop backend: shallow directory listings for a
//! file browser, and one-shot shell commands run on behalf of terminal sessions.
//!
//! Nothing in this crate touches the file system or starts a process. Callers
//! observe the outside world, hand the observations over as plain values, and
//! get back either the finished answer or the description of what to run.

pub mod command;
pub mod listing;
pub mod session;
pub mod text;

use vstd::prelude::*;
use vstd::string::StringExecFns;

verus! {

/// The greeting for a name.
pub open spec fn greeting(name: Seq<char>) -> Seq<char> {
    "Hello, "@ + name + "! You've been greeted from Rust!"@
}

/// Greets the caller by name. It depends on nothing and changes nothing, so
/// an answer shows that requests get through.
pub fn greet(name: &str) -> (text: String)
    ensures
        text@ == greeting(name@),
{
    let mut text = String::from_str("Hello, ");
    text.append(name);
    text.append("! You've been greeted from Rust!");
    text
}

} // verus!
