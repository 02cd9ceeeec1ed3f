//! Splitting long radio recordings into tracks: whatever can be decided without touching a
//! file, a window or a floating-point number.
//!
//! Times are whole nanoseconds. Doubles that are only compared are given by their bits, and what
//! doubles make of the seconds of a time is found with whole numbers.

pub mod audio;
pub mod big;
pub mod bytes;
pub mod cache;
pub mod canvas;
pub mod cli;
pub mod decimals;
pub mod detect;
pub mod doubles;
pub mod editor;
pub mod envelope;
pub mod order;
pub mod paths;
pub mod pickle;
pub mod pipeline;
pub mod saved;
pub mod session;
pub mod text;
pub mod times;
pub mod title;
pub mod torch_legacy;
pub mod unpickle;
pub mod vggish;
