pub mod datetime;
pub mod user;
