//! A general stable vector.
//!
//! A stable vector is a container that hands back a durable index (handle) for
//! every inserted element. The handle keeps referring to the same element
//! until that element is explicitly removed; freed slots are reused through a
//! free list so that memory growth stays bounded under churn.

pub mod error;
pub mod implementation;
pub mod interface;
pub mod laws;
