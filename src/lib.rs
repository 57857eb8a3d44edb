//! Overlaying blocks of text: a foreground block is drawn over a background
//! block, and whitespace in the foreground lets the background show through.
//! A styled variant keeps track of which layer each piece of a line came from,
//! so that it can be painted with that layer's colours.

pub mod align;
pub mod text;
pub mod plain;
pub mod runs;
pub mod styled;
pub mod paint;
pub mod laws;

pub use paint::{overlap_colored, StyledText};
pub use plain::overlap;
