//! A word dictionary: left terms, each with the history of its right terms,
//! kept in a plain text file with one entry per line.

pub mod text;
pub mod lemmas;
pub mod model;
pub mod format;
pub mod error;
pub mod dictionary;
pub mod laws;
pub mod round_trip;

pub use dictionary::{Dictionary, SingleItem};
pub use error::{BrokenReason, ReadError, WriteError};
