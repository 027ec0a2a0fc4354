//! How failures of the core reach a client, and the body of a login response.
use vstd::prelude::*;
use crate::todo::StoreError;
use crate::token::AuthError;

verus! {

/// A rejection as the client sees it: which sub-reason of an authentication failure occurred is
/// not revealed.
#[derive(Debug, Clone, Copy, PartialEq, Eq, Structural)]
pub enum HttpError {
    Auth,
    Internal,
}

/// The body of a successful login: the token that was issued.
#[derive(Debug, Clone)]
pub struct LoginResponse {
    pub token: String,
}

impl HttpError {
    /// Every authentication failure, expired or invalid, is the same rejection.
    pub fn from_auth(_e: AuthError) -> (r: HttpError)
        ensures
            r == HttpError::Auth,
    {
        HttpError::Auth
    }

    pub fn from_store(_e: StoreError) -> (r: HttpError)
        ensures
            r == HttpError::Internal,
    {
        HttpError::Internal
    }

    /// The HTTP status: 401 for `Auth`, 500 for `Internal`.
    pub fn status_code(&self) -> (r: u16)
        ensures
            *self == HttpError::Auth ==> r == 401,
            *self == HttpError::Internal ==> r == 500,
    {
        match self {
            HttpError::Auth => 401,
            HttpError::Internal => 500,
        }
    }

    /// The body text sent with the status.
    pub fn message(&self) -> (r: &'static str)
        ensures
            *self == HttpError::Auth ==> r@ == "UNAUTHORIZED"@,
            *self == HttpError::Internal ==> r@ == "INTERNAL_SERVER_ERROR"@,
    {
        match self {
            HttpError::Auth => "UNAUTHORIZED",
            HttpError::Internal => "INTERNAL_SERVER_ERROR",
        }
    }
}

} // verus!
