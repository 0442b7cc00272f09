//! A line-oriented text transformation engine.
//!
//! One line of text and one [`Operation`] go in; a single string or an
//! ordered list of strings comes out. Every position is a byte offset into
//! the UTF-8 encoding of the line, and every contract is stated over that
//! encoding.

pub mod cut;
pub mod error;
pub mod operation;
pub mod output;
pub mod replace;
pub mod search;
pub mod space;
pub mod span;
pub mod split;
pub mod text;
pub mod trim;

pub use error::SpanError;
pub use operation::Args;
pub use operation::Operation;
pub use output::Output;
pub use output::Segments;
