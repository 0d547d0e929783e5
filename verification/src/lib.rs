//! Line-oriented substring search: the lines of a text in which a pattern
//! occurs are copied, in order, to a byte sink.
//!
//! - [`text`] is the model: what the lines of a text are, when a pattern
//!   occurs in one, and what a search reports.
//! - [`encoding`] shows that the model gives the same answer for a text seen
//!   as characters and for its UTF-8 bytes.
//! - [`sink`] is where the output goes.
//! - [`matcher`] is the search, [`find_matches`].
//! - [`front_end`] is what a command-line program decides around it.

pub mod encoding;
pub mod front_end;
pub mod matcher;
pub mod sink;
pub mod text;

pub use crate::front_end::{search, Verdict};
pub use crate::matcher::find_matches;
pub use crate::sink::{Sink, WriteError};
