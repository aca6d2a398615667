//! A bounded circular buffer for UTF-8 text.
//!
//! A [`StringRing`] takes a stream of string chunks and keeps the most recent
//! text, up to a set number of bytes. When a chunk does not fit, the oldest
//! text goes: as few characters as possible, or as few whole lines as
//! possible, as the [`Granularity`] says. What the buffer holds is valid UTF-8
//! at all times, and it does not depend on how the stream was cut into chunks.
//!
//! The modules:
//! - [`boundary`]: character boundaries, and the scanner that rounds a byte
//!   offset up to the next of them;
//! - [`lines`]: line terminators;
//! - [`model`]: the buffer as a mathematical value, and the rule that says
//!   what an append keeps;
//! - [`ring`]: the buffer itself, proved to follow the model;
//! - [`laws`]: what is proved of every buffer and every stream;
//! - [`trusted`]: the contracts of outside functions, which are believed and
//!   not proved.

pub mod boundary;
pub mod laws;
pub mod lines;
pub mod model;
pub mod ring;
mod seqs;
mod steps;
pub mod trusted;

pub use boundary::ceil_char_boundary_offset;
pub use model::Granularity;
pub use ring::StringRing;
