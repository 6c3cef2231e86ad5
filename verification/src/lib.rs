//! Structural scanning of large JSON documents.
//!
//! The scanner finds, without parsing the document, the byte ranges of the
//! objects inside the array that follows a named key, and of the objects of a
//! second array nested inside each of them.

pub mod anchor;
pub mod error;
pub mod isolation;
pub mod json;
pub mod machine;
pub mod scan;
pub mod spans;
pub mod wellformed;
