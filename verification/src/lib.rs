//! A small password manager: command-line argument tables, the encrypted
//! password records and the key checks, with their contracts.

pub mod args;
pub mod args_beta;
pub mod codec;
pub mod commands;
pub mod password;
pub mod prompt;
pub mod store;
pub mod text;
