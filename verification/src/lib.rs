//! Reconciliation core of a declarative document renderer.
//!
//! The crate keeps three things consistent from frame to frame: the document
//! tree, the patch between two snapshots of it, and the identity-keyed layout
//! tree that mirrors it.
pub mod text;
pub mod attributes;
pub mod styles;
pub mod number;
pub mod parser;
pub mod vdom;
pub mod identity;
pub mod document;
pub mod markup;
pub mod scripting;
pub mod patch;
pub mod diff;
pub mod laws;
pub mod engine;
pub mod layout;
pub mod forest;
pub mod sync;
pub mod frame;
