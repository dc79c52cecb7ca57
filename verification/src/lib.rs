//! A byte-oriented LZ77 codec in the LZO1X format, verified with Verus.
//!
//! [`compress`] turns a buffer into an instruction stream of literal runs and
//! back-references, and [`decompress`] turns such a stream back into the
//! buffer, testing every read and write against the bounds before it is
//! made. The stream carries no length: whoever decompresses declares how
//! long the output is.
//!
//! The modules `format` and `emit` say what a stream means and which stream
//! an input gets; `laws` holds what is proved of the two together.

pub mod bound;
pub mod decode;
pub mod emit;
pub mod encode;
pub mod error;
pub mod format;
pub mod inverse;
pub mod laws;
pub mod plan;

pub use crate::decode::decompress;
pub use crate::encode::compress;
pub use crate::error::Error;
