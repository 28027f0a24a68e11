//! A B-tree database: records (key, data id) live in fixed-size node pages of
//! a node store, and the data of each record lives in a fixed-size slot of a
//! data store.
pub mod consts;
pub mod record;
pub mod data;
pub mod node;
pub mod nodes_file;
pub mod data_file;
pub mod btree;
pub mod command;
pub mod session;
pub mod text;
pub mod contents;
