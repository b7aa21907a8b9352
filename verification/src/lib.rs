//! Querystring serialisation and deserialisation with nested keys.
pub mod config;
pub mod de;
pub mod debug;
pub mod decode;
pub mod encode;
pub mod error;
pub mod helpers;
pub mod text;
pub mod utils;
pub mod value;
pub mod web;
pub mod parse;
pub mod ser;
pub mod roundtrip;
pub mod limits;
pub mod order;
pub mod primitive;
pub mod tree;
pub mod reorder;

pub use config::{ArrayFormat, Config};
