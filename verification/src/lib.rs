//! A small in-process reactive state engine.
//!
//! A [`StoreGraph`] owns a set of stores. A source store is written by the
//! caller; a derived store recomputes its value from the stores it reads
//! whenever one of them changes. One call of [`StoreGraph::update`] runs one
//! pulse: every store downstream of the written one is recomputed at most
//! once, after all the stores it reads have settled, and the subscribers of
//! every store whose value was finalized are called once.
//!
//! The crate also holds the rules of the server configuration: the defaults
//! of the routing options and the grammar of the listen address.

pub mod config;
pub mod error;
pub mod laws;
pub mod stores;
pub mod text;
pub mod upstream;
pub mod value;
pub mod wiring;

pub use config::{Config, ExtensionBehavior, RoutingOptions};
pub use error::StoreError;
pub use stores::{Binding, Outcome, PulseReport, Store, StoreFunctionality, StoreGraph};
pub use upstream::Upstream;
pub use value::Value;
