//! A small recursive-descent JSON reader with machine-checked contracts.
//!
//! [`JsonParser`] turns a text into a [`JsonObject`] tree or a [`JsonError`].
//! What every routine of it returns, and where its cursor stops, is stated
//! against [`grammar`], which defines reading as a function on bytes.
//! [`document`] and [`writing`] prove that this function reads documents and
//! written trees back as the values they stand for.

pub mod document;
pub mod error;
pub mod grammar;
pub mod parser;
pub mod text;
pub mod value;
pub mod writing;

pub use error::{ErrorKind, JsonError};
pub use parser::JsonParser;
pub use value::{JsonNumber, JsonObject};
