pub mod chain;
pub mod numeral;
pub mod peertable;
pub mod operations;
pub mod snapshot;
