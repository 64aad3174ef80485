use vstd::prelude::*;

verus! {

/// Kinds of services.
#[derive(Debug, Clone, PartialEq, Eq)]
pub enum ServiceType {
    Rest,
    Grpc,
    GraphQL,
    EventDriven,
    /// Another kind, by its own name.
    Other(String),
}

/// An endpoint of a service.
#[derive(Debug, Clone)]
pub struct Endpoint {
    pub name: String,
    pub path: String,
    /// The method or protocol, if declared.
    pub method: Option<String>,
    pub description: Option<String>,
}

/// A dependency that a service declares on another service.
#[derive(Debug, Clone)]
pub struct Dependency {
    /// The service depended on.
    pub service: String,
    /// The version expected of it, if any.
    pub version_constraint: Option<String>,
    /// Whether the dependent cannot work without it.
    pub required: bool,
}

/// Root configuration of a catalog.
#[derive(Debug, Clone)]
pub struct RootConfig {
    pub version: String,
    pub global: GlobalConfig,
    pub services: Vec<ServiceRef>,
}

/// Settings for every service of a catalog.
#[derive(Debug, Clone)]
pub struct GlobalConfig {
    pub config_dir: String,
    pub default_namespace: String,
}

/// Where the configuration of one service lies.
#[derive(Debug, Clone)]
pub struct ServiceRef {
    pub name: String,
    pub config_path: String,
    pub namespace: Option<String>,
}

} // verus!
