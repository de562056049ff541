use vstd::prelude::*;
use vstd::string::*;

verus! {

/// Error categories shared across the data, model and serving layers.
#[derive(Debug)]
pub enum AionError {
    InvalidRequest(String),
    Validation(String),
    ModelUnavailable(String),
    Unsupported(String),
    Backend(String),
    Timeout(String),
}

/// Result type used by the AionFM layers.
pub type AionResult<T> = Result<T, AionError>;

/// A check that either passes (`None`) or fails with a validation message.
pub open spec fn validation_outcome(r: AionResult<()>, failure: Option<Seq<char>>) -> bool {
    match r {
        Ok(_) => failure is None,
        Err(AionError::Validation(message)) => failure == Some(message@),
        Err(_) => false,
    }
}

/// Copies a text into a new `String`.
pub fn owned(s: &str) -> (r: String)
    ensures
        r@ == s@,
{
    String::from_str(s)
}

/// Concatenates two texts.
pub fn concat2(a: &str, b: &str) -> (r: String)
    ensures
        r@ == a@ + b@,
{
    let mut r = String::from_str(a);
    r.append(b);
    r
}

/// Concatenates three texts.
pub fn concat3(a: &str, b: &str, c: &str) -> (r: String)
    ensures
        r@ == a@ + b@ + c@,
{
    let mut r = String::from_str(a);
    r.append(b);
    r.append(c);
    r
}

/// Concatenates four texts.
pub fn concat4(a: &str, b: &str, c: &str, d: &str) -> (r: String)
    ensures
        r@ == a@ + b@ + c@ + d@,
{
    let mut r = String::from_str(a);
    r.append(b);
    r.append(c);
    r.append(d);
    r
}

/// A validation failure carrying `message`.
pub fn validation_failure(message: String) -> (r: AionResult<()>)
    ensures
        validation_outcome(r, Some(message@)),
{
    Err(AionError::Validation(message))
}

} // verus!
