//! A package manager core: dependency resolution with cycle detection,
//! reference-counted package lifecycle with cascading garbage collection,
//! and append-only configuration chains.

pub mod configuration;
pub mod dependency;
pub mod errors;
pub mod package_manager;
pub mod payload;
pub mod provider;
pub mod run_profile;
pub mod scheduler;
pub mod software;
pub mod software_manager;
pub mod version;
