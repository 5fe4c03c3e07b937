//! Decoder for XML character-reference escapes (`&...;`) in raw byte buffers.

pub mod escape;
