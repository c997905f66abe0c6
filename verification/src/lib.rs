//! Plays back a time-synchronized ASCII-art "score": a sequence of positioned
//! text fragments keyed to musical beats. This crate holds the verified core
//! of that pipeline: parsing the score notation, resolving it into positioned
//! display items, selecting the items active at a musical position, and
//! compositing them into a single text frame with space-as-transparency.

pub mod assets;
pub mod compose;
pub mod index;
pub mod playback;
pub mod score;
pub mod text;
