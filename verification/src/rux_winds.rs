//! What is decided about a request and its answer.

use crate::rux_debug::{wrong, MessageErr};
use vstd::prelude::*;
use vstd::string::StringExecFns;

verus! {

/// Whether a status code tells of success: it is one of the codes from 200
/// to 299.
pub open spec fn is_success(code: u16) -> bool {
    200 <= code < 300
}

/// The name by which requests say who sends them, given the version of the
/// sender.
pub fn user_agent(version: &str) -> (agent: String)
    ensures
        agent@ == "Rubx (Lua Wizard)/"@ + version@,
{
    let mut agent = String::from_str("Rubx (Lua Wizard)/");
    agent.append(version);
    agent
}

/// Judges an answer by its status, given the code of the status and the
/// status as it is shown: a status that does not tell of success is an
/// error that shows the status.
pub fn treat_response(code: u16, status: &str) -> (treated: Result<(), Box<MessageErr>>)
    ensures
        treated is Ok <==> is_success(code),
        treated matches Err(err) ==> err@ == "Response Error: "@ + status@,
{
    if code < 200 || code >= 300 {
        let mut message = String::from_str("Response Error: ");
        message.append(status);
        return Err(wrong(message));
    }
    Ok(())
}

} // verus!
