//! An N-way file-tree synchroniser in the spirit of Unison.
//!
//! Synchronisation runs in three phases that the caller drives one after
//! another: update detection (`detect`), reconciliation (`reconcile`) and
//! propagation (`propagate`). Between runs, the state that all replicas last
//! agreed on is kept in an archive (`archive`), one file per directory.
//!
//! This crate holds the decisions of each phase as verified functions over
//! plain values; reading directories, stat calls and running external tools
//! are left to the caller, who hands the observed values in.
pub mod archive;
pub mod codec;
pub mod config;
pub mod detect;
pub mod error;
pub mod paths;
pub mod progress;
pub mod propagate;
pub mod reconcile;
pub mod state;
