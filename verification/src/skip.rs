//! A multi-level, fixed-period skip index over a sequence of `(DocId, T)`
//! entries: a builder that writes it and a reader that iterates and seeks.

pub mod layout;
pub mod builder;
pub mod reader;
pub mod layer_laws;
pub mod laws;
pub mod size_laws;
