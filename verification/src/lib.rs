//! The combinatorial core of an N-dimensional polytope wireframe renderer:
//! reading polytopes in the OFF format, walking their element hierarchy down
//! to vertices and edges, expanding facets, and reading the setup and
//! animation files.  Floating-point work (coordinates, colours, projection)
//! and drawing are left to the program around the library.
pub mod animation;
pub mod bookkeeping;
pub mod element;
pub mod invariance;
pub mod laws;
pub mod loader;
pub mod scene;
pub mod text;
