//! Buffered reading over a fixed-capacity circular byte buffer.

pub mod deque;
pub mod io;
pub mod lemmas;
