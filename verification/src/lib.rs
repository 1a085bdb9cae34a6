pub mod cli;
pub mod config;
pub mod discover;
pub mod fence;
pub mod init;
pub mod laws;
pub mod lint;
pub mod number;
pub mod order;
pub mod parse;
pub mod program;
pub mod report;
pub mod run;
pub mod text;
pub mod tokens;
pub mod utils;
pub mod web;
pub mod wire;
pub mod wizard;
pub mod yaml;
