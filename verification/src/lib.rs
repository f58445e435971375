pub mod commands;
pub mod connection;
pub mod engine;
pub mod error;
pub mod hash_table;
pub mod parser;
pub mod redis_object;
pub mod zip_list;
