//! A dependency-injection resolution runtime: a registry of named providers
//! (factories), an override-layer stack for scoped shadowing, and a resolution
//! engine with singleton caching and cycle detection.
//!
//! Values and factories are opaque to the engine: a [`value::Value`] is an
//! inert handle, and a factory is anything implementing [`factory::Factory`],
//! invoked with the resolved dependencies in declared order.

pub mod value;
pub mod errors;
pub mod factory;
pub mod store;
pub mod container;
pub mod laws;

pub use container::Container;
pub use errors::DiError;
pub use factory::{BasicFactory, Factory};
pub use value::Value;
