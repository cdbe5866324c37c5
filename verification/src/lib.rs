//! Verified core logic of the ManRead manga server and client.
pub mod error;
pub mod text;
pub mod query;
pub mod number;
pub mod range;
pub mod restore;
pub mod row_order;
pub mod export;
pub mod keys;
pub mod refs;
pub mod validate;
pub mod ui;
pub mod config;
pub mod http;
pub mod time;
pub mod cover;
pub mod manga;
pub mod upload;
pub mod search;
pub mod checks;
