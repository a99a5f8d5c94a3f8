use vstd::prelude::*;

verus! {

/// Every failure the engine reports.
#[derive(Clone, Debug, PartialEq, Eq)]
pub enum AppError {
    AuthError(String),
    AuthzError(String),
    AuthorizationError(String),
    ValidationError(String),
    DatabaseError(String),
    ConfigError(String),
    NotFoundError(String),
    InternalError(String),
    /// A buy costs more than the cash balance.
    InsufficientBalance,
    /// A sell asks for more than the open position holds.
    InsufficientQuantity,
    /// A sell names a symbol with no open position.
    NoPosition,
    /// A quantity of zero, or a result too large for the ledger's integers.
    OutOfRange,
}

impl AppError {
    /// The HTTP status that the error maps to.
    pub fn status_code(&self) -> (r: u16)
        ensures
            r == match self {
                AppError::AuthError(_) => 401u16,
                AppError::AuthzError(_) | AppError::AuthorizationError(_) => 403u16,
                AppError::ValidationError(_) | AppError::InsufficientBalance
                | AppError::InsufficientQuantity | AppError::NoPosition
                | AppError::OutOfRange => 400u16,
                AppError::NotFoundError(_) => 404u16,
                AppError::DatabaseError(_) | AppError::ConfigError(_)
                | AppError::InternalError(_) => 500u16,
            },
    {
        match self {
            AppError::AuthError(_) => 401,
            AppError::AuthzError(_) | AppError::AuthorizationError(_) => 403,
            AppError::ValidationError(_) | AppError::InsufficientBalance
            | AppError::InsufficientQuantity | AppError::NoPosition | AppError::OutOfRange => 400,
            AppError::NotFoundError(_) => 404,
            AppError::DatabaseError(_) | AppError::ConfigError(_) | AppError::InternalError(_) => 500,
        }
    }
}

} // verus!
