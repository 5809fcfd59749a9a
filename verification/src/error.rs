//! What can go wrong.

use vstd::prelude::*;

verus! {

/// A request that cannot be answered.
#[derive(Debug)]
pub enum LimboError {
    /// The request breaks a rule; the text says which.
    Constraint(String),
    /// A record is not laid out as records are.
    Corrupt,
    /// A record would be longer than its own header can say.
    TooBig,
}

/// An error, with its text as a sequence.
pub enum ErrorModel {
    Constraint(Seq<char>),
    Corrupt,
    TooBig,
}

impl View for LimboError {
    type V = ErrorModel;

    open spec fn view(&self) -> ErrorModel {
        match self {
            LimboError::Constraint(text) => ErrorModel::Constraint(text@),
            LimboError::Corrupt => ErrorModel::Corrupt,
            LimboError::TooBig => ErrorModel::TooBig,
        }
    }
}

/// The text that is shown for an error.
pub open spec fn error_message(e: ErrorModel) -> Seq<char> {
    match e {
        ErrorModel::Constraint(text) => text,
        ErrorModel::Corrupt => "malformed record"@,
        ErrorModel::TooBig => "record too big"@,
    }
}

impl LimboError {
    /// The text that is shown for the error.
    pub fn message(&self) -> (r: String)
        ensures
            r@ == error_message(self@),
    {
        match self {
            LimboError::Constraint(text) => text.clone(),
            LimboError::Corrupt => "malformed record".to_owned(),
            LimboError::TooBig => "record too big".to_owned(),
        }
    }
}

} // verus!
