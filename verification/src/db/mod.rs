pub mod b_tree;
pub mod codec;
pub mod cursor;
pub mod image;
pub mod key_seq;
pub mod name_map;
pub mod parser;
pub mod query;
pub mod schema;
pub mod shape;
pub mod sql_enums;
pub mod storage_engine;
pub mod text;
pub mod wire;
