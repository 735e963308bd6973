pub mod base;
pub mod blob;
pub mod commit;
pub mod io;
pub mod tree;
