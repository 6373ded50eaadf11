//! A streaming token counter: text arrives whole or in bounded chunks, a
//! configurable pattern picks the tokens out, and a session accumulates the
//! running total and the number of distinct case-folded spellings without ever
//! holding the full token list.

pub mod batch;
pub mod counter;
pub mod decode;
pub mod errors;
pub mod matching;
pub mod preview;
pub mod splitter;
