//! Triangular arbitrage engine: exchange pair metadata, the token graph and its
//! triangles, the order arithmetic that turns a triangle and its order books into
//! a plan, and the decisions of the market-data, engine and executor services.

pub mod decimal;
pub mod exchange;
pub mod messages;
pub mod collections;
pub mod graph;
pub mod math;
pub mod observability;
pub mod cache;
pub mod executor;
pub mod market;
pub mod config;
