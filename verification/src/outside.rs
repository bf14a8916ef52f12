//! The calls into other crates that the cluster logic makes: the wall clock
//! and the user id generator. Nothing is promised of what they give back.
use vstd::prelude::*;

verus! {

/// `chrono::Local::now().timestamp_millis()`: the milliseconds since the
/// Unix epoch, read from the wall clock. Nothing is stated of the value.
#[verifier::external_body]
pub(crate) fn timestamp_millis_now() -> i64 {
    chrono::Local::now().timestamp_millis()
}

/// `idgenerator::IdInstance::next_id()`: the next id of the process-wide
/// snowflake generator, which depends on the clock and on the ids handed out
/// before. Nothing is stated of the value.
#[verifier::external_body]
pub(crate) fn next_generated_id() -> i64 {
    idgenerator::IdInstance::next_id()
}

} // verus!
