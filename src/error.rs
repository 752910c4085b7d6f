use vstd::prelude::*;

verus! {

/// The failures that the core reports to its caller; none is retried here.
#[derive(Debug, Clone, Copy, PartialEq, Eq, Structural)]
pub enum AdminError {
    /// No user with that identifier, or the credential did not match.
    CredentialMismatch,
    /// The user's roles grant no callable route.
    NoAssignedPermissions,
    /// The request carried no bearer token.
    MissingToken,
    /// The token's signature does not match, or the token cannot be read.
    InvalidToken,
    /// The token's lifetime has passed.
    TokenExpired,
    /// A token could not be issued (its expiry time is out of range).
    SigningFailed,
    /// The data store could not be reached.
    RepositoryUnavailable,
    /// A store query failed while permissions were being resolved.
    ResolutionFailed,
    /// A change would break the menu hierarchy (a node that still has children).
    IntegrityViolation,
}

impl AdminError {
    /// A short user-facing message for this error.
    pub fn message(&self) -> (r: String)
        ensures
            r@.len() > 0,
    {
        let s = match self {
            AdminError::CredentialMismatch => "credential mismatch",
            AdminError::NoAssignedPermissions => "no role or menu assigned to this user",
            AdminError::MissingToken => "missing token",
            AdminError::InvalidToken => "invalid token",
            AdminError::TokenExpired => "token expired",
            AdminError::SigningFailed => "token could not be signed",
            AdminError::RepositoryUnavailable => "repository unavailable",
            AdminError::ResolutionFailed => "permission resolution failed",
            AdminError::IntegrityViolation => "menu has children and cannot be deleted",
        };
        proof {
            reveal_strlit("credential mismatch");
            reveal_strlit("no role or menu assigned to this user");
            reveal_strlit("missing token");
            reveal_strlit("invalid token");
            reveal_strlit("token expired");
            reveal_strlit("token could not be signed");
            reveal_strlit("repository unavailable");
            reveal_strlit("permission resolution failed");
            reveal_strlit("menu has children and cannot be deleted");
        }
        s.to_string()
    }
}

} // verus!
