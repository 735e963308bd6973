pub mod common;
pub mod errors;
pub mod objects;
pub mod reflog;
pub mod text;
pub mod tree;
