//! Ancestor traversal over a commit graph, and the comment item of a
//! configuration file.

pub mod comment;
pub mod id;
pub mod state;
pub mod ancestors;
pub mod model;
