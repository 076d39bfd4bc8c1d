//! A library that organises a backlog of remotely stored documents.
//!
//! The crate models a batch-processing pipeline: a synchroniser reconciles a
//! remote listing into a record store, a scanner turns pending records into
//! jobs, a per-job pipeline fetches, extracts, classifies and re-files each
//! document, and a collector applies exactly one status transition per job
//! result.  The record store, the decision logic and the in-memory
//! collaborators are verified; live network collaborators plug in through the
//! `clients` traits.

pub mod clients;
pub mod extract;
pub mod indexing;
pub mod models;
pub mod pipeline;
pub mod pool;
pub mod storage;
pub mod sync;
pub mod text;
