//! Demand-driven computation: a registry of providers keyed by type, in which
//! demand switches providers on and off and production runs only for what is
//! demanded.

pub mod accounting;
pub mod activation;
pub mod context;
pub mod demand;
pub mod error;
pub mod graph;
pub mod inner;
pub mod keyed;
pub mod laws;
pub mod provider;
pub mod pullgraph;
pub mod type_key;

pub use context::Context;
pub use demand::Demand;
pub use error::PullGraphError;
pub use provider::{DepHandle, Provider, ProviderHandle};
pub use pullgraph::PullGraph;
