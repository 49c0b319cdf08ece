use vstd::prelude::*;

verus! {

/// The errors of the client, each with its message.
#[derive(Debug, PartialEq, Eq)]
pub enum Error {
    /// the server refused the statement or the written lines
    SyntaxError(String),
    /// invalid credentials
    InvalidCredentials(String),
    /// the database does not exist
    DataBaseDoesNotExist(String),
    /// the retention policy does not exist
    RetentionPolicyDoesNotExist(String),
    /// building the request or reaching the server failed
    Communication(String),
    /// any other answer of the server
    Unknow(String),
}

impl Error {
    /// The message that the error carries.
    pub open spec fn message(&self) -> Seq<char> {
        match self {
            Error::SyntaxError(t) => t@,
            Error::InvalidCredentials(t) => t@,
            Error::DataBaseDoesNotExist(t) => t@,
            Error::RetentionPolicyDoesNotExist(t) => t@,
            Error::Communication(t) => t@,
            Error::Unknow(t) => t@,
        }
    }

    /// The message that the error carries.
    pub fn description(&self) -> (r: &str)
        ensures
            r@ == self.message(),
    {
        match self {
            Error::SyntaxError(t) => t.as_str(),
            Error::InvalidCredentials(t) => t.as_str(),
            Error::DataBaseDoesNotExist(t) => t.as_str(),
            Error::RetentionPolicyDoesNotExist(t) => t.as_str(),
            Error::Communication(t) => t.as_str(),
            Error::Unknow(t) => t.as_str(),
        }
    }
}

} // verus!
