//! Talon core: the verified text, search and contract logic of a vault
//! search engine.

pub mod constants;
pub mod error;
pub mod search;
pub mod sync;
pub mod text;
pub mod tool;
pub mod vec_ext;
