pub mod cli;
pub mod commands;
pub mod config;
pub mod doctor;
pub mod encoding;
pub mod json;
pub mod markdown;
pub mod notetime;
pub mod pathguard;
pub mod text;
pub mod webdav;
pub mod writes;
