pub mod tree;
pub mod digits;
pub mod layout;
pub mod place;
pub mod draw;
pub mod text;
pub mod rng;
pub mod eval;
pub mod msg;
pub mod parse;
pub mod builder;
pub mod tokens;
pub mod api;
pub mod laws;
pub mod determinism;
pub mod shape;
pub mod meaning;

pub use api::{parse_to_string, parse_to_string_from_u64_seed, parse_to_terminal_text};
