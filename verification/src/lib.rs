//! Transform resolution for an entity-property document.
//!
//! An entity's `transform` property is an expression tree. This crate turns
//! such a tree into a 4x4 matrix, remembers the result per entity, and forgets
//! it again when the host reports that the property changed.
//!
//! The document itself, the generic expression machinery and the matrix
//! arithmetic belong to the host. The subsystem therefore never calls the host:
//! every operation returns a [`protocol::Request`] that names the one thing the
//! host has to do next, and the host hands the answer back as a
//! [`protocol::Event`] through [`subsystem::TransformSubSystem::resume`].
//!
//! - [`expression`], [`matrix`] and [`protocol`] hold the values that pass
//!   between the subsystem and its host.
//! - [`subsystem`] is the executable subsystem; [`model`] says, over
//!   mathematical values, what each of its operations does.
//! - [`wellformed`] shows that the operations keep the subsystem's invariant.
//! - [`semantics`] says what resolution means as plain recursion over a
//!   document, and [`refinement`] shows that the subsystem, served by a host,
//!   computes exactly that.
//! - [`laws`] states what follows: composition, memoization, invalidation,
//!   write-back and the handling of errors.

pub mod expression;
pub mod laws;
pub mod matrix;
pub mod model;
pub mod protocol;
pub mod refinement;
pub mod semantics;
pub mod subsystem;
pub mod wellformed;

pub use subsystem::TransformSubSystem;
