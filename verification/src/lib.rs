//! Storage and state engine of a Matrix homeserver.
//!
//! Every relation the server keeps lives in an ordered byte-keyed [`tree::Tree`];
//! the modules above it encode their keys with a `0xff` field separator and
//! big-endian integers, and state what each operation does to the trees.

pub mod account;
pub mod account_data;
pub mod config;
pub mod database;
pub mod error;
pub mod events;
pub mod globals;
pub mod ids;
pub mod json;
pub mod maintenance;
pub mod media;
pub mod membership;
pub mod migrations;
pub mod order;
pub mod push;
pub mod rooms;
pub mod ruma_wrapper;
pub mod state_diff;
pub mod state_laws;
pub mod state_rebuild;
pub mod state_set;
pub mod tree;
pub mod uiaa;
pub mod users;
pub mod utils;
