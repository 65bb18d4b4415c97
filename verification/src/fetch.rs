use vstd::prelude::*;
use rand::Rng;
use crate::page::{EbayItem, RetryOrFail};
use crate::text::{contains_str, has_substring, owned};

verus! {

/// How many times a listing page is tried.
pub const MAX_RETRIES: u32 = 3;

/// A pause drawn at random, in milliseconds.
///
/// Trusted: calls `rand::thread_rng` and `rand::Rng::gen_range` on
/// `500..1500`, which the crate documents as returning a value in that
/// half-open range (the range is not empty, so it does not panic). Nothing
/// else is claimed of the value.
#[verifier::external_body]
fn random_jitter_ms() -> (ms: u64)
    ensures
        500 <= ms < 1500,
{
    rand::thread_rng().gen_range(500..1500)
}

/// The pause to take before try `attempt` (counted from 0): a random pause of
/// 500 to 1499 ms while tries are left, `None` once `MAX_RETRIES` tries have
/// been made.
pub fn attempt_pause(attempt: u32) -> (r: Option<u64>)
    ensures
        r is Some <==> attempt < MAX_RETRIES,
        r matches Some(ms) ==> 500 <= ms < 1500,
{
    if attempt < MAX_RETRIES {
        Some(random_jitter_ms())
    } else {
        None
    }
}

/// Whether an error message says that the browser's connection is gone.
pub open spec fn spec_connection_closed(msg: Seq<char>) -> bool {
    has_substring(msg, "connection is closed"@)
}

/// What to do after one try at a listing page.
pub enum AttemptDecision {
    /// Stop with this result.
    Done(Result<EbayItem, String>),
    /// Pause one second and try again (if tries are left).
    TryAgain(String),
}

/// The decision after a try whose outcome is `outcome`: an item is returned;
/// a failure is returned as its message; a message asking for a retry is
/// returned as well when it says the connection is closed, and otherwise
/// leads to another try.
pub fn decide_attempt(outcome: Result<EbayItem, RetryOrFail>) -> (r: AttemptDecision)
    requires
        !(outcome matches Err(RetryOrFail::InvalidSelector(_))),
    ensures
        outcome matches Ok(item) ==> r == AttemptDecision::Done(Ok(item)),
        outcome matches Err(RetryOrFail::Fail(msg)) ==> r == AttemptDecision::Done(Err(msg)),
        outcome matches Err(RetryOrFail::Retry(msg)) ==> (if spec_connection_closed(msg@) {
            r == AttemptDecision::Done(Err(msg))
        } else {
            r == AttemptDecision::TryAgain(msg)
        }),
{
    match outcome {
        Ok(item) => AttemptDecision::Done(Ok(item)),
        Err(RetryOrFail::Retry(msg)) => {
            if contains_str(msg.as_str(), "connection is closed") {
                AttemptDecision::Done(Err(msg))
            } else {
                AttemptDecision::TryAgain(msg)
            }
        },
        Err(RetryOrFail::Fail(msg)) => AttemptDecision::Done(Err(msg)),
        Err(RetryOrFail::InvalidSelector(msg)) => AttemptDecision::Done(Err(msg)),
    }
}

/// The error once every try asked for a retry.
pub fn retries_exhausted() -> (r: String)
    ensures
        r@ == "Max retries reached"@,
{
    owned("Max retries reached")
}

} // verus!
