//! The node-and-mounting layer of a reactive UI library.
//!
//! The library models the host document as a [`backend::Backend`]: a tree of
//! handles with ordered child lists. Renderable content is a [`node::Node`]
//! (element, text, component boundary, or fragment). Producer values are
//! turned into nodes through the `IntoNode` conversion protocol, and nodes
//! are attached to and detached from the live tree by the mounting protocol.

pub mod backend;
pub mod convert;
pub mod laws;
pub mod mount;
pub mod node;
