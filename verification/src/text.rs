//! Text handled as sequences of characters: the vocabulary the other modules are specified in.

pub mod chars;
pub mod json;
pub mod number;
pub mod path;
pub mod piece_laws;
pub mod pieces;
pub mod quote;
pub mod space_laws;
pub mod spaces;
pub mod table;
