//! Orchestration core for bringing up interdependent machines: a dependency
//! resolver that turns a declarative server list into a safe activation
//! order, load-time validation of every health check, and the decision logic
//! of the concurrent health-check engine.
pub mod engine;
pub mod ip;
pub mod model;
pub mod pattern;
pub mod resolve;
pub mod validate;
