//! A dependency-injection runtime with verified resolution.
//!
//! Components are registered in a [`registry::Registry`], each with its
//! dependencies: shared singletons, fresh instances, deferred singletons that
//! may close a cycle, configuration-derived values and the configuration
//! itself. A [`container::Container`] builds each component at most once per
//! shared request, registers it in its singleton cache before it fills the
//! component's deferred slots, and reads properties from a layered
//! [`config::ConfigStore`].

pub mod config;
pub mod container;
pub mod deferred;
pub mod profile;
pub mod profiles;
pub mod property;
pub mod registry;
