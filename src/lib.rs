//! Bookkeeping structures of a DAG-based mempool: a certificate DAG with
//! commit-driven garbage collection, and a tracker of which peers hold which
//! pending items.

pub mod certificate;
pub mod dag;
pub mod pending;
