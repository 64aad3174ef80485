use vstd::prelude::*;

use crate::schema::{Dependency, ServiceType};

verus! {

/// Where a service stands after its last validation.
#[derive(Debug, Clone, Copy, PartialEq, Eq, Structural)]
pub enum ServiceState {
    Active,
    Inactive,
    Validating,
    Error,
}

impl ServiceState {
    pub open spec fn text(self) -> Seq<char> {
        match self {
            ServiceState::Active => "Active"@,
            ServiceState::Inactive => "Inactive"@,
            ServiceState::Validating => "Validating"@,
            ServiceState::Error => "Error"@,
        }
    }

    /// The state's name.
    pub fn as_text(&self) -> (r: &'static str)
        ensures
            r@ == self.text(),
    {
        match self {
            ServiceState::Active => "Active",
            ServiceState::Inactive => "Inactive",
            ServiceState::Validating => "Validating",
            ServiceState::Error => "Error",
        }
    }
}

/// The state of a service with what its last validation found.
#[derive(Debug, Clone)]
pub struct ServiceStatus {
    pub state: ServiceState,
    /// When the service was last checked, in seconds since the Unix epoch.
    pub last_checked: i64,
    pub error_message: Option<String>,
    pub warnings: Vec<String>,
}

impl ServiceStatus {
    pub fn new(state: ServiceState, last_checked: i64) -> (r: Self)
        ensures
            r.state == state,
            r.last_checked == last_checked,
            r.error_message is None,
            r.warnings@.len() == 0,
    {
        ServiceStatus { state, last_checked, error_message: None, warnings: Vec::new() }
    }

    /// The status in error, with its message.
    pub fn with_error(self, message: String) -> (r: Self)
        ensures
            r.state == ServiceState::Error,
            r.error_message == Some(message),
            r.last_checked == self.last_checked,
            r.warnings == self.warnings,
    {
        ServiceStatus { state: ServiceState::Error, error_message: Some(message), ..self }
    }

    /// The status with these warnings.
    pub fn with_warnings(self, warnings: Vec<String>) -> (r: Self)
        ensures
            r.state == self.state,
            r.error_message == self.error_message,
            r.last_checked == self.last_checked,
            r.warnings == warnings,
    {
        ServiceStatus { warnings, ..self }
    }

    /// The status in another state, without an error message.
    pub fn with_state(self, state: ServiceState) -> (r: Self)
        ensures
            r.state == state,
            r.error_message is None,
            r.last_checked == self.last_checked,
            r.warnings == self.warnings,
    {
        ServiceStatus { state, error_message: None, ..self }
    }
}

/// How a service is configured in the catalog.
#[derive(Debug, Clone)]
pub struct ServiceConfig {
    pub namespace: Option<String>,
    pub config_path: String,
    /// The schema version the configuration was written for.
    pub schema_version: String,
    pub dependencies: Option<Vec<Dependency>>,
}

/// What validation reads of a service's configuration document.
#[derive(Debug, Clone)]
pub struct ServiceProfile {
    /// The service's declared version, if the document gives one.
    pub version: Option<String>,
    pub service_type: Option<ServiceType>,
    /// For each endpoint, whether it declares a method.
    pub endpoint_methods: Vec<bool>,
    /// The keys of the document's metadata.
    pub metadata_keys: Vec<String>,
    /// Whether the document carries a description.
    pub has_description: bool,
    /// What the structural schema check reported; empty where it passed.
    pub schema_errors: Vec<String>,
}

/// A service of the catalog.
#[derive(Debug, Clone)]
pub struct Service {
    pub name: String,
    pub config: ServiceConfig,
    pub profile: ServiceProfile,
    pub status: ServiceStatus,
}

/// The dependencies a service declares.
pub open spec fn deps_of(s: Service) -> Seq<Dependency> {
    match s.config.dependencies {
        Some(v) => v@,
        None => Seq::empty(),
    }
}

impl Service {
    /// A service that has not been validated yet.
    pub fn new(name: String, config: ServiceConfig, profile: ServiceProfile, now: i64) -> (r: Self)
        ensures
            r.name == name,
            r.config == config,
            r.profile == profile,
            r.status.state == ServiceState::Inactive,
            r.status.last_checked == now,
            r.status.error_message is None,
            r.status.warnings@.len() == 0,
    {
        Service { name, config, profile, status: ServiceStatus::new(ServiceState::Inactive, now) }
    }

    /// Replaces the configuration; the service waits for validation again.
    pub fn update_config(&mut self, config: ServiceConfig, profile: ServiceProfile, now: i64)
        ensures
            final(self).name == old(self).name,
            final(self).config == config,
            final(self).profile == profile,
            final(self).status.state == ServiceState::Validating,
            final(self).status.error_message is None,
            final(self).status.last_checked == now,
    {
        self.config = config;
        self.profile = profile;
        self.status = ServiceStatus::new(ServiceState::Validating, now);
    }

    /// Puts the service in error with `message`.
    pub fn set_error(&mut self, message: String, now: i64)
        ensures
            final(self).name == old(self).name,
            final(self).config == old(self).config,
            final(self).profile == old(self).profile,
            final(self).status.state == ServiceState::Error,
            final(self).status.error_message == Some(message),
            final(self).status.warnings@.len() == 0,
    {
        self.status = ServiceStatus::new(ServiceState::Error, now).with_error(message);
    }

    pub fn status(&self) -> (r: &ServiceStatus)
        ensures
            *r == self.status,
    {
        &self.status
    }
}

} // verus!
