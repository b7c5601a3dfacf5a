//! A verified core for the classic to-do list application.
//!
//! - [`todos`] owns the data model: an ordered list of entries with unique
//!   ids, the active filter, and every CRUD operation, each specified
//!   against a mathematical view of the store.
//! - [`codec`] is the persistence format: the JSON document a store is
//!   saved as, a parser for it, and a proof that re-loading a saved store
//!   reconstructs it exactly.
//! - [`router`] maps the three filters onto their URL fragments and back.
//! - [`session`] and [`dispatch`] are the two shapes of UI glue: a
//!   fine-grained session with in-place editing, and a message-dispatch
//!   component. Storage access and rendering stay with the hosting layer.

pub mod codec;
pub mod dispatch;
pub mod router;
pub mod session;
pub mod todos;
