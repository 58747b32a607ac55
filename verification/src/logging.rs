//! Turning messages into errors.
use vstd::prelude::*;

verus! {

#[verifier::external_type_specification]
#[verifier::external_body]
pub struct ExAnyhowError(anyhow::Error);

/// `anyhow::Error::msg`: an error carrying `message` (and, where the
/// environment asks for one, a backtrace). Nothing is stated of the error's
/// contents: the value is opaque here.
#[verifier::external_body]
fn error_with_message(message: String) -> (e: anyhow::Error) {
    anyhow::Error::msg(message)
}

/// Values that can be turned into a failed result carrying them as message.
pub trait Logging: Sized {
    /// A failed result whose error carries `self` as message.
    fn to_error<T>(self) -> (r: Result<T, anyhow::Error>)
        ensures
            r is Err,
    ;
}

impl<'a> Logging for &'a str {
    fn to_error<T>(self) -> (r: Result<T, anyhow::Error>) {
        Err(error_with_message(String::from_str(self)))
    }
}

impl Logging for String {
    fn to_error<T>(self) -> (r: Result<T, anyhow::Error>) {
        Err(error_with_message(self))
    }
}

} // verus!
