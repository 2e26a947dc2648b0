//! The state of propagation: what is assigned, and in which order.
pub mod assignment;
pub mod trail;
