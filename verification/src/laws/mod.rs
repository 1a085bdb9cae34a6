//! What the library is for, told in terms of what goes in and what comes out.

pub mod command_line;
pub mod counts;
pub mod discover;
pub mod documents;
pub mod fences;
pub mod mentions;
pub mod numbers;
pub mod paths;
pub mod references;
pub mod report;
pub mod rules;
pub mod run;
pub mod score;
pub mod settings;
pub mod targets;
pub mod web;
pub mod wizard;
