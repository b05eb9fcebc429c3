
pub mod laws;
pub mod rdb;
