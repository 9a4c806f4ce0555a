//! Reconciliation of two ordered sequences of virtual tree nodes.
//!
//! A freshly computed list of children is matched against the list that was
//! rendered before it, by position or by identity key, and the outcome is an
//! ordered script of mutations (create, patch, move, detach) for a rendering
//! target to carry out from right to left.
//!
//! - [`vnode`] and [`vlist`] hold the nodes and lists that are reconciled.
//! - [`keys`] finds the common prefix and suffix of two lists of keys.
//! - [`script`] defines the scripts, [`reconcile`] computes them.
//! - [`dom`] is a small rendering target on which scripts can be run.
//! - [`laws`], [`sound`], [`phases`] and [`order`] prove what holds of every
//!   script and of its run.

pub mod dom;
pub mod keys;
pub mod laws;
pub mod order;
pub mod phases;
pub mod reconcile;
pub mod script;
pub mod sound;
pub mod vlist;
pub mod vnode;
