//! What the registry's two endpoints answer, and how an answer is judged.
use vstd::prelude::*;

verus! {

/// Why a registry request failed.
pub enum RegistryError {
    /// The request could not be sent or the transport failed.
    Network(String),
    /// The registry answered with a status other than success; the status and
    /// the body are kept for diagnosis.
    HttpStatus(u16, String),
    /// The body is not JSON of the expected shape.
    Decode(String),
}

/// A pull-scoped token as the token service issues it.
pub struct AuthResponse {
    pub token: String,
    pub access_token: String,
    pub expires_in: u32,
    pub issued_at: String,
}

/// The tags of a repository as the registry lists them, in no particular
/// order and possibly with repeats.
pub struct TagResponse {
    pub name: String,
    pub tags: Vec<String>,
}

/// Whether an HTTP status reports success.
pub open spec fn is_success(status: u16) -> bool {
    200 <= status < 300
}

/// Whether an HTTP status reports success.
pub fn is_success_status(status: u16) -> (r: bool)
    ensures
        r == is_success(status),
{
    200 <= status && status < 300
}

/// Accepts the body of a response with a success status; any other status
/// is an `HttpStatus` error that carries the status and the body.
pub fn check_status(status: u16, body: String) -> (r: Result<String, RegistryError>)
    ensures
        is_success(status) ==> r == Ok::<String, RegistryError>(body),
        !is_success(status) ==> r == Err::<String, RegistryError>(RegistryError::HttpStatus(status, body)),
{
    if is_success_status(status) {
        Ok(body)
    } else {
        Err(RegistryError::HttpStatus(status, body))
    }
}

} // verus!
