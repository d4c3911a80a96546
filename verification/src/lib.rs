//! Reading annotated SQL files: from the tokens of the grammar to checked queries.

pub mod error;
pub mod laws;
pub mod number;
pub mod pair;
pub mod parsed;
pub mod parser;
pub mod replace;
pub mod search;
pub mod text;
pub mod validate;
