//! A scope-sensitive move/ownership checker for a type-checked,
//! tree-shaped intermediate representation.
//!
//! The checker walks a program tree once, in statement order, tracking per
//! lexical scope which bindings are alive and which have been consumed
//! ("moved"). Every use of a binding after its move is collected as a
//! diagnostic; the pass never stops at the first violation. On success the
//! input tree is returned unchanged.

pub mod hir;
pub mod sem;
pub mod checker;
pub mod laws;
