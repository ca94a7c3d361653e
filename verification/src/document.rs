pub mod grammar;
pub mod parser;

pub use crate::deck::document::{Content, Document, Group, Rem, Segment, Text};
