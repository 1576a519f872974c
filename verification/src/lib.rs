pub mod config;
pub mod datasource;
pub mod error;
pub mod list;
pub mod range;
pub mod secret;
pub mod strings;
