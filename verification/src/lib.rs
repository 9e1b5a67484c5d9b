pub mod api;
pub mod checksum;
pub mod codec;
pub mod database;
pub mod error;
pub mod models;
pub mod query;
pub mod storage;
