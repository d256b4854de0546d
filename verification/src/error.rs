//! The failures that end a run.
use vstd::prelude::*;
use vstd::string::StringExecFns;

verus! {

/// `semver::Error`, what the `semver` crate returns for a text that it
/// cannot parse.
#[verifier::external_type_specification]
#[verifier::external_body]
pub struct ExSemverError(semver::Error);

/// The message of a `semver` error.
pub uninterp spec fn semver_message(error: semver::Error) -> Seq<char>;

/// Trusted: the `Display` form of `semver::Error`, as a `String`.
#[verifier::external_body]
fn semver_message_of(error: &semver::Error) -> (r: String)
    ensures
        r@ == semver_message(*error),
{
    error.to_string()
}

/// A failure that ends the run. The first three carry the message of the
/// failure that the surrounding program met; the last carries the error of
/// the `semver` crate for a filter expression that it rejects.
#[derive(Debug)]
pub enum MoleError {
    IoError(String),
    SendError(String),
    ThreadPoolBuildError(String),
    SemverError(semver::Error),
}

/// The text that describes an error: its kind, a colon, and its message.
pub open spec fn description(error: MoleError) -> Seq<char> {
    match error {
        MoleError::IoError(m) => "IoError: "@ + m@,
        MoleError::SendError(m) => "SendError: "@ + m@,
        MoleError::ThreadPoolBuildError(m) => "ThreadPoolBuildError: "@ + m@,
        MoleError::SemverError(e) => "SemverError: "@ + semver_message(e),
    }
}

impl MoleError {
    /// The text that describes the error.
    pub fn message(&self) -> (text: String)
        ensures
            text@ == description(*self),
    {
        match self {
            MoleError::IoError(m) => "IoError: ".to_owned().concat(m.as_str()),
            MoleError::SendError(m) => "SendError: ".to_owned().concat(m.as_str()),
            MoleError::ThreadPoolBuildError(m) => "ThreadPoolBuildError: ".to_owned().concat(m.as_str()),
            MoleError::SemverError(e) => "SemverError: ".to_owned().concat(semver_message_of(e).as_str()),
        }
    }
}

} // verus!
