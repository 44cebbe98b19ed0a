pub mod account;
pub mod transaction;
