use vstd::prelude::*;

verus! {

/// Failures of the application core, mapped to client-facing outcomes.
#[derive(Debug, PartialEq, Eq)]
pub enum AppError {
    DatabaseError(String),
    NotFound(String),
    InternalError,
    ValidationError(String),
    WrongCredentials,
    MissingCredentials,
    InvalidToken,
    TokenCreation,
    UserNotFound,
    Unauthorised(String),
    InvalidQuestShare,
}

/// Failures while turning storage rows into the aggregate.
#[derive(Debug, PartialEq, Eq)]
pub enum InfrastructureError {
    DatabaseRowToDomainConversionError(String),
}

/// The HTTP status that each kind of failure is reported with.
pub open spec fn status_of(e: AppError) -> u16 {
    match e {
        AppError::ValidationError(_) => 400,
        AppError::DatabaseError(_) => 500,
        AppError::NotFound(_) => 404,
        AppError::InternalError => 500,
        AppError::WrongCredentials => 401,
        AppError::MissingCredentials => 400,
        AppError::InvalidToken => 401,
        AppError::TokenCreation => 500,
        AppError::UserNotFound => 404,
        AppError::Unauthorised(_) => 401,
        AppError::InvalidQuestShare => 400,
    }
}

impl AppError {
    /// The HTTP status code of this failure.
    pub fn status_code(&self) -> (r: u16)
        ensures
            r == status_of(*self),
    {
        match self {
            AppError::ValidationError(_) => 400,
            AppError::DatabaseError(_) => 500,
            AppError::NotFound(_) => 404,
            AppError::InternalError => 500,
            AppError::WrongCredentials => 401,
            AppError::MissingCredentials => 400,
            AppError::InvalidToken => 401,
            AppError::TokenCreation => 500,
            AppError::UserNotFound => 404,
            AppError::Unauthorised(_) => 401,
            AppError::InvalidQuestShare => 400,
        }
    }
}

} // verus!
