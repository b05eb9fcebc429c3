pub mod buffer;
pub mod com;
pub mod compress;
pub mod num;
pub mod protocol;
