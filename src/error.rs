//! Errors of the store.
use vstd::prelude::*;

verus! {

/// What can go wrong in the store.
#[derive(Debug)]
pub enum DatabaseError {
    /// The log could not be written as the protocol asks.
    TransactionLogError,
    /// A filesystem operation failed.
    IOError { message: String },
    /// A value could not be encoded or decoded.
    JSONError { message: String },
    /// A number in the stored data could not be read.
    NumberFormatError { message: String },
    /// A log record failed its integrity check or was cut short.
    InvalidLogError { message: String },
    /// `create` on a key that the transaction already sees.
    KeyDuplicationError,
    /// `read`, `update` or `delete` on a key that the transaction does not see.
    KeyNotFoundError,
}

impl DatabaseError {
    /// A short description of the error.
    pub fn describe(&self) -> (r: String)
        ensures
            self is TransactionLogError ==> r@ == "Transaction log error"@,
            self is KeyDuplicationError ==> r@ == "Key Duplication"@,
            self is KeyNotFoundError ==> r@ == "Key Not Found"@,
            self matches DatabaseError::IOError { message } ==> r@ == message@,
            self matches DatabaseError::JSONError { message } ==> r@ == message@,
            self matches DatabaseError::NumberFormatError { message } ==> r@ == message@,
            self matches DatabaseError::InvalidLogError { message } ==> r@ == message@,
    {
        match self {
            DatabaseError::TransactionLogError => "Transaction log error".to_string(),
            DatabaseError::IOError { message } => message.clone(),
            DatabaseError::JSONError { message } => message.clone(),
            DatabaseError::NumberFormatError { message } => message.clone(),
            DatabaseError::InvalidLogError { message } => message.clone(),
            DatabaseError::KeyDuplicationError => "Key Duplication".to_string(),
            DatabaseError::KeyNotFoundError => "Key Not Found".to_string(),
        }
    }
}

} // verus!
