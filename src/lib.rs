//! Document-tree construction and layout for a small browser engine.

pub mod dom;
pub mod parser;
pub mod layout;
pub mod url;
