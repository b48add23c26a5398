//! An embeddable application runtime for composing independent services
//! that communicate through two decoupled channels: a keyed request/response
//! call layer and a keyed publish/subscribe event layer.
//!
//! The crate provides four cooperating components:
//! - [`service::Context`], a service container with deterministic
//!   start/stop ordering;
//! - [`rpc::Rpc`], a call dispatcher with a synchronous-to-asynchronous
//!   execution bridge built on capacity-one rendezvous channels;
//! - [`events::EventEmitter`], an event bus that fans emissions out to
//!   keyed listeners (deferred) and unkeyed observers (synchronous);
//! - [`tasks::TaskManager`], a registry of cancellable long-running tasks.

pub mod service;
pub mod settings;
pub mod tasks;
pub mod cli;
pub mod cmd_manager;
pub mod events;
pub mod rpc;
pub mod table;
pub mod text;
