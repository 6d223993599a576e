//! Datasets of JSON samples and their links to finetune jobs, kept consistent
//! by construction: every operation is one atomic step on the store, and the
//! derived sample count of a dataset always equals the number of its rows.

pub mod error;
pub mod samples;
pub mod dataset;
pub mod registry;
pub mod links;
pub mod store;
pub mod laws;
pub mod auth;
