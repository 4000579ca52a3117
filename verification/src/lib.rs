//! A small note-taking library built around a semantic note index: a vector
//! store of note embeddings, a nearest-neighbour index over them, a textual
//! persistence format, and the search service that ties them together.
//!
//! Embeddings are held as fixed-point integer vectors; an external embedding
//! provider turns note text into such vectors before they enter the library.

pub mod ann;
pub mod argparse;
pub mod codec;
pub mod notes;
pub mod semantic_search;
pub mod store;
pub mod viewer;
pub mod vecmath;
