pub mod archive;
pub mod deck;
pub mod document;
pub mod file;
pub mod list_map;
pub mod order;
pub mod schedule;
pub mod serialize;
pub mod session;
pub mod text;
pub mod workspace;
