//! Redundant document storage and edit propagation.
//!
//! The [`store`] keeps documents together with an erasure code over their
//! content: every document is encoded into `n` blocks, any `k` of which
//! suffice to rebuild it, and a document can be rebuilt from a fragment of
//! its content together with the blocks that are left. The link graph of
//! [`links`] carries an edit of one document on to the documents linked to
//! it.
//!
//! The contracts are stated over the models in [`model`] and
//! [`propagation`]; [`laws`] and [`link_laws`] hold what follows from them
//! for every store and every graph. The code itself is a Reed-Solomon code
//! over the field of 257 elements: [`field`], [`poly`] and [`lagrange`] carry
//! its arithmetic, [`layout`], [`fragment`] and [`recover`] its use on
//! documents.

pub mod config;
pub mod document;
pub mod error;
pub mod field;
pub mod fragment;
pub mod ident;
pub mod lagrange;
pub mod laws;
pub mod layout;
pub mod link_laws;
pub mod links;
pub mod model;
pub mod poly;
pub mod propagation;
pub mod recover;
pub mod store;

pub use crate::config::Config;
pub use crate::document::Document;
pub use crate::error::Error;
pub use crate::links::{EditReport, LinkEdge, LinkPropagationGraph, PropagationMode};
pub use crate::store::RedundantFragmentStore;
