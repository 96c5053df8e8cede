pub mod browser;
pub mod config;
pub mod search;
pub mod tree;
