pub mod strings;
pub mod text;
pub mod cli;
pub mod config;
pub mod index;
pub mod db;
pub mod search;
pub mod stats;
pub mod backend;
pub mod endpoint;
