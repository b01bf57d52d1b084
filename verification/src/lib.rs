pub mod canonical;
pub mod cli;
pub mod config;
pub mod error;
pub mod locate;
pub mod paths;
pub mod quiz;
pub mod random;
pub mod rules;
pub mod screen;
pub mod search;
pub mod session;
pub mod text;
pub mod toml;
pub mod validate;
