//! A pretty-printer for source code.
//!
//! The syntax tree of a file (`tree`) is turned into a document
//! (`format_node`) by the transform engine (`transform`), which reads the
//! layout rule table (`rules`); the render engine (`render`) turns the
//! document into text that keeps to a maximum width where it can; `print`
//! does both. `laws`, `placement` and `block_layout` state what holds of
//! every tree and every document. `editorconfig` reads style configuration
//! files, `debug` outlines trees and documents, and `text` holds what they
//! all need of lines and white space.

pub mod block_layout;
pub mod debug;
pub mod editorconfig;
pub mod format_node;
pub mod laws;
pub mod placement;
pub mod print;
pub mod render;
pub mod rules;
pub mod text;
pub mod transform;
pub mod tree;
