pub mod bytes;
pub mod diff;
pub mod files;
pub mod lcs;
pub mod parser;
pub mod storage;
pub mod strutil;
