//! Flag enumeration for finite reflection groups and the vertex and edge
//! skeleton of the Wythoffian polytopes built on them.
//!
//! The library holds the combinatorial side of the construction: the
//! depth-first traversal that enumerates fundamental domains, the counting
//! rule by which two domains are told the same or adjacent, the assignment of
//! polytope vertices and edges, and the text format in which an enumeration is
//! kept between runs. Coordinates never enter it: callers compute reflections
//! and distances and report what they found.

pub mod search;
pub mod text;
pub mod cache;
pub mod name;
pub mod matching;
pub mod skeleton;

pub use cache::{regroup, render, split_tokens};
pub use matching::{is_adjacent, is_same_domain, shared_vertices};
pub use name::coxmat_to_name;
pub use search::{Frame, Outcome, Search};
pub use skeleton::{extract_edges, insert_edge, VertexTable};
