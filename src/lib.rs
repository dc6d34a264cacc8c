//! Building blocks of a command-line video editor that drives an external
//! media engine: colour decoding, duration arithmetic in microseconds, the
//! filter expressions and argument lists of each operation, and the parsers
//! for what the media-inspection tool prints.

pub mod color;
pub mod error;
pub mod ops;
pub mod probe;
pub mod text;
