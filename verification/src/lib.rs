//! Font fallback itemization: assigns each grapheme cluster of a text to the
//! best-matching font family of a priority-ordered fallback chain, and compacts
//! the assignment into maximal contiguous runs.

pub mod chain;
pub mod cluster;
pub mod error;
pub mod family;
pub mod font_name;
pub mod fonts_xml;
pub mod index;
pub mod itemize;
pub mod select;

pub use chain::FallbackChain;
pub use cluster::{graphemes, Cluster};
pub use error::Error;
pub use family::Family;
pub use itemize::{Gap, Run};
