pub mod bank;
pub mod input;
