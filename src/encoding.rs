//! Integer encodings used by the frame payload.
pub mod bitops;
pub mod simple8b;
