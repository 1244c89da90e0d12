pub mod text;
pub mod geohash;
pub mod refs;
pub mod models;
pub mod index;
pub mod events;
pub mod kv;
pub mod api;
