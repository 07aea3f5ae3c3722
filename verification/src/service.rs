//! What the service answers before it looks at any raid: the greeting, and
//! whether a caller has shown the key.

use vstd::prelude::*;
use vstd::string::StringExecFns;

verus! {

/// Why a caller is turned away.
#[derive(Clone, Copy, Debug, PartialEq, Eq, Structural)]
pub enum ApiKeyError {
    /// The request shows no key.
    Missing,
    /// The request shows a key that is not the service's.
    Invalid,
}

/// The greeting of the service.
pub fn index() -> (greeting: String)
    ensures
        greeting@ == "Welcome to codera1d"@,
{
    String::from_str("Welcome to codera1d")
}

/// Admits a caller who shows the service's key, and no other, and hands
/// the key back that was shown.
pub fn check_api_key<'a>(presented: Option<&'a str>, expected: &str) -> (r: Result<
    &'a str,
    ApiKeyError,
>)
    ensures
        match r {
            Ok(key) => presented == Some(key) && key@ == expected@,
            Err(ApiKeyError::Missing) => presented is None,
            Err(ApiKeyError::Invalid) => presented matches Some(key) && key@ != expected@,
        },
{
    match presented {
        None => Err(ApiKeyError::Missing),
        Some(key) => {
            if key.to_owned() == expected.to_owned() {
                Ok(key)
            } else {
                Err(ApiKeyError::Invalid)
            }
        },
    }
}

} // verus!
