pub mod text;
pub mod symbol;
pub mod chars;
pub mod digits;
pub mod fzf;
pub mod cache;
pub mod worker;
pub mod codec;
pub mod ts;
pub mod config;
pub mod parser;
