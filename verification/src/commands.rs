pub mod token;
pub mod user;
