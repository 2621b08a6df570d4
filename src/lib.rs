//! A fine-grained reactive runtime: signals, effects and memos tracked in an
//! arena, async resources and actions as explicit state machines, a keyed list
//! reconciler, and the small pieces of input handling built on top of them.

pub mod action;
pub mod boundary;
pub mod counters;
pub mod graph;
pub mod keyed;
pub mod login;
pub mod numeric;
pub mod propagation;
pub mod resource;
pub mod runtime;
pub mod text;
pub mod todo_id;
pub mod todos;
