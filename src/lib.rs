//! Service catalog core: a dependency graph over named services, with cycle
//! detection, dependency ordering, impact analysis, version compatibility and
//! the validation policy that combines them.

pub mod error;
pub mod graph;
pub mod order;
pub mod impact;
pub mod version;
pub mod schema;
pub mod service;
pub mod validation;
pub mod registry;

pub use error::AureaCoreError;
pub use graph::{CycleInfo, DependencyGraph, EdgeMetadata};
pub use impact::ImpactInfo;
pub use order::DependencyResolver;
pub use registry::{ServiceRegistry, ValidationSummary};
pub use schema::{Dependency, Endpoint, GlobalConfig, RootConfig, ServiceRef, ServiceType};
pub use service::{Service, ServiceConfig, ServiceProfile, ServiceState, ServiceStatus};
pub use validation::DependencyIssue;
pub use version::{check_version_compatibility, VersionCompatibility};
