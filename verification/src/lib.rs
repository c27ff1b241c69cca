//! Core of an operational-transformation engine for plain-text collaborative
//! editing: an edit is an ordered sequence of retain/delete/insert primitives
//! kept in a canonical form by a normalizing builder, together with the
//! algebraic operators over edits (apply, invert, compose, transform) and a
//! JSON wire codec.

pub mod op;
pub mod edit;
pub mod apply;
pub mod compose;
pub mod transform;
pub mod laws;
pub mod wire;
