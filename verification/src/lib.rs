//! Grapheme-aware text operations: lengths in bytes, scalars and grapheme
//! clusters, reversal and substrings on cluster boundaries, case conversion,
//! canonical normalization and UTF-8 decoding.
//!
//! Every operation is a pure function of its input text. Contracts are stated
//! over `Seq<char>`, the sequence of Unicode scalar values of a text.

pub mod canonical;
pub mod case;
pub mod convert;
pub mod decode;
pub mod metrics;
pub mod normalize;
pub mod report;
pub mod segment;

pub use case::{to_lower, to_upper};
pub use convert::{scalars, text_of};
pub use decode::{decode, EncodingError, Malformation};
pub use metrics::{
    byte_length, grapheme_length, reverse_by_grapheme, reverse_by_scalar, scalar_length,
    substring_by_grapheme, RangeError,
};
pub use normalize::{equals_under_normalization, normalize, Form};
pub use report::{
    demo, demo_of_emoticons, demo_of_ligature, demo_of_umlaut, demo_of_virguilla, Report,
};
pub use segment::graphemes;
