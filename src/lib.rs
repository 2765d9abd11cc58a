//! Compressed in-memory columns that decode back to exactly what they were
//! built from: integers bit-packed at the width of their largest value, and
//! byte strings compressed against a table of common byte sequences. Both
//! filter into new compressed columns without decoding.

pub mod bit_width;
pub mod selection;
pub mod bit_pack;
pub mod primitive;
pub mod typed;
pub mod fsst;
pub mod string;
pub mod liquid;
