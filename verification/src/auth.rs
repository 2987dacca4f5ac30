//! Authentication of the paid tier: a manager that is authenticated once it
//! holds a token.

use vstd::prelude::*;
use vstd::string::*;

verus! {

/// Why an authenticated action was refused.
#[derive(Debug, Clone, Copy, PartialEq, Eq, Structural)]
pub enum AuthError {
    NotAuthenticated,
    InvalidToken,
}

/// Display text of an authentication error.
pub open spec fn auth_error_text(e: AuthError) -> Seq<char> {
    match e {
        AuthError::NotAuthenticated => "Authentication required"@,
        AuthError::InvalidToken => "Invalid token"@,
    }
}

impl AuthError {
    /// Display text, such as `Invalid token`.
    pub fn to_string(&self) -> (r: String)
        ensures
            r@ == auth_error_text(*self),
    {
        match self {
            AuthError::NotAuthenticated => String::from_str("Authentication required"),
            AuthError::InvalidToken => String::from_str("Invalid token"),
        }
    }
}

/// Holds the token of an authenticated session, if there is one.
pub struct AuthManager {
    token: Option<String>,
}

impl AuthManager {
    /// Whether a token is held.
    pub closed spec fn has_token(self) -> bool {
        self.token is Some
    }

    /// A manager without a token.
    pub fn new() -> (r: Self)
        ensures
            !r.has_token(),
    {
        AuthManager { token: None }
    }

    /// Whether the session is authenticated, that is, holds a token.
    pub fn is_authenticated(&self) -> (r: bool)
        ensures
            r == self.has_token(),
    {
        self.token.is_some()
    }
}

} // verus!
