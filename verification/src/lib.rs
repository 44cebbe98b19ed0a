pub mod models;
pub mod options;
pub mod processor;
pub mod stream;
