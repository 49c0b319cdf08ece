//! Client core for a time-series database: the point model, the line-protocol
//! serializer with its escaping rules, the quoting of the query language, and
//! the decisions that the HTTP client takes on requests and answers.

/// Reading decimals back from their text.
pub mod decimal;
/// The errors of the client.
pub mod error;
/// Points, values and time precisions.
pub mod keys;
/// Parameters of requests and what their answers come to.
pub mod requests;
/// The line protocol and the quoting rules.
pub mod serialization;
/// Administrative statements of the query language.
pub mod statements;
/// Decimal text of numbers.
pub mod text;

pub use error::Error;
pub use keys::{Decimal, Point, Points, Precision, Value};
