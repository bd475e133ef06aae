//! Dedentation and escape decoding for the raw text of template literals.
pub mod cook;
pub mod dedent_raw;
mod text;

pub use cook::{cook, EscapeError};
pub use dedent_raw::dedent_raw;
