use aureacore::registry::ValidationSummary;
use aureacore::validation::{check_service_type, check_structure, classify_dependency, evaluate_service, validate_dependencies};
use aureacore::version::compare_versions;
use aureacore::{
    check_version_compatibility, Dependency, DependencyIssue, Service, ServiceConfig, ServiceProfile,
    ServiceRegistry, ServiceState, ServiceType, VersionCompatibility,
};

fn dep(service: &str, constraint: Option<&str>, required: bool) -> Dependency {
    Dependency {
        service: service.to_string(),
        version_constraint: constraint.map(|c| c.to_string()),
        required,
    }
}

fn profile(version: &str, endpoint_methods: Vec<bool>) -> ServiceProfile {
    ServiceProfile {
        version: Some(version.to_string()),
        service_type: Some(ServiceType::Rest),
        endpoint_methods,
        metadata_keys: vec![],
        has_description: false,
        schema_errors: vec![],
    }
}

fn service_with(name: &str, version: &str, deps: Option<Vec<Dependency>>, endpoint_methods: Vec<bool>) -> Service {
    Service::new(
        name.to_string(),
        ServiceConfig {
            namespace: Some("test".to_string()),
            config_path: format!("/tmp/{}.json", name),
            schema_version: "1.0.0".to_string(),
            dependencies: deps,
        },
        profile(version, endpoint_methods),
        0,
    )
}

fn service(name: &str, version: &str, deps: Option<Vec<Dependency>>) -> Service {
    service_with(name, version, deps, vec![])
}

#[test]
fn validation_test_version_compatibility() {
    assert_eq!(check_version_compatibility("1.0.0", "1.0.1"), VersionCompatibility::Compatible);
    assert_eq!(check_version_compatibility("1.0.0", "1.1.0"), VersionCompatibility::MinorIncompatible);
    assert_eq!(check_version_compatibility("1.0.0", "2.0.0"), VersionCompatibility::MajorIncompatible);
    assert_eq!(check_version_compatibility("invalid", "1.0.0"), VersionCompatibility::MajorIncompatible);
}

#[test]
fn classify_scenarios() {
    assert_eq!(check_version_compatibility("3.4.5", "3.4.5"), VersionCompatibility::Compatible);
    assert_eq!(check_version_compatibility("2.0.0", "1.0.0"), VersionCompatibility::MajorIncompatible);
    assert_eq!(check_version_compatibility("1.1.0", "1.0.0"), VersionCompatibility::MinorIncompatible);
    assert_eq!(check_version_compatibility("1.0.1", "1.0.0"), VersionCompatibility::Compatible);
    assert_eq!(check_version_compatibility("1.0.0", "not-a-version"), VersionCompatibility::MajorIncompatible);
    assert_eq!(check_version_compatibility("1.0", "1.0.0"), VersionCompatibility::MajorIncompatible);
}

#[test]
fn compare_parsed_versions() {
    assert_eq!(compare_versions(Some((2, 0, 0)), Some((1, 0, 0))), VersionCompatibility::MajorIncompatible);
    assert_eq!(compare_versions(Some((1, 1, 0)), Some((1, 0, 0))), VersionCompatibility::MinorIncompatible);
    assert_eq!(compare_versions(Some((1, 0, 1)), Some((1, 0, 0))), VersionCompatibility::Compatible);
    assert_eq!(compare_versions(None, Some((1, 0, 0))), VersionCompatibility::MajorIncompatible);
    assert_eq!(compare_versions(Some((1, 0, 0)), None), VersionCompatibility::MajorIncompatible);
}

#[test]
fn dependency_policy_table() {
    assert_eq!(classify_dependency(false, None, true), Some(DependencyIssue::MissingRequired));
    assert_eq!(classify_dependency(false, None, false), Some(DependencyIssue::MissingOptional));
    assert_eq!(classify_dependency(true, None, true), None);
    assert_eq!(classify_dependency(true, Some(VersionCompatibility::Compatible), true), None);
    assert_eq!(classify_dependency(true, Some(VersionCompatibility::MinorIncompatible), true), Some(DependencyIssue::MinorVersionMismatch));
    assert_eq!(
        classify_dependency(true, Some(VersionCompatibility::MajorIncompatible), true),
        Some(DependencyIssue::MajorVersionMismatchRequired)
    );
    assert_eq!(
        classify_dependency(true, Some(VersionCompatibility::MajorIncompatible), false),
        Some(DependencyIssue::MajorVersionMismatchOptional)
    );
    assert!(DependencyIssue::MissingRequired.is_error());
    assert!(DependencyIssue::MajorVersionMismatchRequired.is_error());
    assert!(!DependencyIssue::MinorVersionMismatch.is_error());
    assert!(!DependencyIssue::MissingOptional.is_error());
}

#[test]
fn missing_required_dependency_is_a_hard_error() {
    let x = service("x", "1.0.0", Some(vec![dep("missing-service", Some("1.0.0"), true)]));
    let catalog = vec![x.clone()];
    let (errors, warnings) = validate_dependencies(&x, &catalog);
    assert_eq!(errors, vec!["Required dependency 'missing-service' not found".to_string()]);
    assert!(warnings.is_empty());

    let mut registry = ServiceRegistry::new();
    registry.register_service(x);
    let summary = registry.validate_all_services(7);
    assert_eq!(registry.get_service("x").unwrap().status.state, ServiceState::Error);
    assert_eq!(summary.failed, vec![("x".to_string(), "Required dependency 'missing-service' not found".to_string())]);
    assert_eq!(summary.timestamp, 7);
}

#[test]
fn optional_major_mismatch_is_a_warning() {
    let a = service("a", "1.0.0", Some(vec![dep("b", Some("1.0.0"), false)]));
    let b = service("b", "2.0.0", None);
    let catalog = vec![a.clone(), b.clone()];
    let (errors, warnings) = validate_dependencies(&a, &catalog);
    assert!(errors.is_empty());
    assert_eq!(
        warnings,
        vec![
            "Optional dependency 'b' has incompatible version: Major version incompatibility for dependency 'b': expected 1.0.0 but found 2.0.0"
                .to_string()
        ]
    );
    let mut registry = ServiceRegistry::new();
    registry.register_service(a);
    registry.register_service(b);
    let summary = registry.validate_all_services(0);
    assert!(summary.is_successful());
    assert_eq!(registry.get_service("a").unwrap().status.state, ServiceState::Active);
}

#[test]
fn minor_mismatch_and_missing_optional_are_warnings() {
    let a = service(
        "a",
        "1.0.0",
        Some(vec![dep("b", Some("1.0.0"), true), dep("gone", None, false), dep("b", None, true)]),
    );
    let b = service("b", "1.3.0", None);
    let catalog = vec![a.clone(), b];
    let (errors, warnings) = validate_dependencies(&a, &catalog);
    assert!(errors.is_empty());
    assert_eq!(
        warnings,
        vec![
            "Minor version incompatibility for dependency 'b': expected 1.0.0 but found 1.3.0".to_string(),
            "Optional dependency 'gone' not found".to_string(),
        ]
    );
}

#[test]
fn required_major_mismatch_is_an_error() {
    let a = service("a", "1.0.0", Some(vec![dep("b", Some("1.0.0"), true)]));
    let b = service("b", "2.0.0", None);
    let catalog = vec![a.clone(), b];
    let (errors, warnings) = validate_dependencies(&a, &catalog);
    assert_eq!(
        errors,
        vec!["Major version incompatibility for dependency 'b': expected 1.0.0 but found 2.0.0".to_string()]
    );
    assert!(warnings.is_empty());
}

#[test]
fn test_validation_summary() {
    let mut summary = ValidationSummary::new(0);
    summary.successful.push("service1".to_string());
    summary.successful.push("service2".to_string());
    summary.failed.push(("service3".to_string(), "error".to_string()));
    assert_eq!(summary.total_count(), 3);
    assert_eq!(summary.successful_count(), 2);
    assert_eq!(summary.failed_count(), 1);
}

#[test]
fn test_enhanced_validation_summary() {
    let mut summary = ValidationSummary::new(0);
    summary.successful.push("service1".to_string());
    summary.successful.push("service2".to_string());
    summary.failed.push(("service3".to_string(), "error".to_string()));
    summary.add_warning("service1".to_string(), "warning1".to_string());
    summary.add_warning("service1".to_string(), "warning2".to_string());
    summary.add_warning("service2".to_string(), "warning3".to_string());
    assert_eq!(summary.warning_count(), 3);
    assert!(summary.has_warnings());
    assert_eq!(summary.warnings_for("service1").unwrap().len(), 2);
    assert_eq!(summary.warnings_for("service2").unwrap().len(), 1);
    assert!(summary.warnings_for("service3").is_none());
}

#[test]
fn test_registry_dependency_validation() {
    let mut registry = ServiceRegistry::new();
    registry.register_service(service(
        "service-a",
        "1.0.0",
        Some(vec![dep("service-b", Some("1.0.0"), true), dep("service-c", Some("1.0.0"), false)]),
    ));
    registry.register_service(service("service-b", "1.0.0", None));
    registry.register_service(service("service-c", "2.0.0", None));

    let result = registry.validate_all_services(0);
    assert!(result.is_successful(), "Validation should succeed with warnings");
    assert!(result.has_warnings(), "Validation should have warnings");
    let warnings = result.warnings_for("service-a").expect("service-a should have warnings");
    assert!(
        warnings.iter().any(|w| w.contains("service-c") && w.contains("version")),
        "Warning should mention service-c version mismatch"
    );
    assert!(result.warnings_for("service-b").is_none(), "service-b should have no warnings");
    for n in ["service-a", "service-b", "service-c"] {
        assert_eq!(registry.get_service(n).unwrap().status.state, ServiceState::Active);
    }
}

#[test]
fn test_registry_missing_required_dependency() {
    let mut registry = ServiceRegistry::new();
    registry.register_service(service(
        "service-x",
        "1.0.0",
        Some(vec![dep("missing-service", Some("1.0.0"), true)]),
    ));
    let result = registry.validate_all_services(0);
    assert!(!result.is_successful(), "Validation should fail");
    assert_eq!(result.failed_count(), 1);
    assert!(result.failed.iter().any(|(name, _)| name == "service-x"), "service-x should be in the failed list");
    let x = registry.get_service("service-x").unwrap();
    assert_eq!(x.status.state, ServiceState::Error);
    assert!(
        x.status.error_message.as_ref().unwrap().contains("missing-service"),
        "Error should mention the missing dependency"
    );
}

#[test]
fn test_registry_circular_dependencies() {
    let mut registry = ServiceRegistry::new();
    registry.register_service(service("service-x", "1.0.0", Some(vec![dep("service-y", Some("1.0.0"), true)])));
    registry.register_service(service("service-y", "1.0.0", Some(vec![dep("service-z", Some("1.0.0"), true)])));
    registry.register_service(service("service-z", "1.0.0", Some(vec![dep("service-x", Some("1.0.0"), true)])));
    let result = registry.validate_all_services(0);
    assert!(result.is_successful(), "Validation should succeed with circular dependency warnings");
    assert!(result.has_warnings(), "Validation should have warnings");
    let system = result.warnings_for("system").expect("Should have system-level warnings");
    assert!(system.iter().any(|w| w.contains("Circular dependency")), "Warning should mention circular dependency");
}

#[test]
fn mod_test_version_compatibility() {
    let mut registry = ServiceRegistry::new();
    registry.register_service(service_with("dependency-service", "2.0.0", None, vec![false]));
    registry.register_service(service_with(
        "dependent-service",
        "1.0.0",
        Some(vec![dep("dependency-service", Some("1.0.0"), true)]),
        vec![false],
    ));
    registry.register_service(service_with(
        "optional-dependent",
        "1.0.0",
        Some(vec![dep("dependency-service", Some("1.0.0"), false)]),
        vec![false],
    ));
    let result = registry.validate_all_services(0);
    assert!(!result.is_successful(), "Validation should fail for incompatible required dependency");
    assert!(
        result.failed.iter().any(|(name, msg)| name == "dependent-service" && msg.contains("version")),
        "dependent-service should fail due to version incompatibility"
    );
    assert!(result.has_warnings(), "Validation should have warnings");
    let warnings = result.warnings_for("optional-dependent").expect("Should have warnings for optional-dependent");
    assert!(
        warnings.iter().any(|w| w.contains("version") && w.contains("dependency-service")),
        "Warnings should mention version incompatibility"
    );
    assert_eq!(registry.get_service("dependent-service").unwrap().status.state, ServiceState::Error);
    let optional = registry.get_service("optional-dependent").unwrap();
    assert_eq!(optional.status.state, ServiceState::Active);
    assert!(!optional.status.warnings.is_empty());
}

#[test]
fn test_required_dependency_missing() {
    let mut registry = ServiceRegistry::new();
    registry.register_service(service_with(
        "dependent-service",
        "1.0.0",
        Some(vec![dep("nonexistent-service", Some(">=1.0.0"), true)]),
        vec![false],
    ));
    let result = registry.validate_all_services(0);
    assert!(!result.is_successful());
    assert_eq!(result.failed_count(), 1);
    assert!(result.failed.iter().any(|(name, _)| name == "dependent-service"));
    let s = registry.get_service("dependent-service").unwrap();
    assert_eq!(s.status.state, ServiceState::Error);
    assert!(s.status.error_message.as_ref().unwrap().contains("nonexistent-service"));
}

#[test]
fn test_service_type_validation() {
    let rest = service_with("test-rest-service", "1.0.0", None, vec![false]);
    let warnings = check_service_type(&rest);
    assert!(!warnings.is_empty(), "Expected warnings for REST service without methods");
    assert!(warnings.iter().any(|w| w.contains("HTTP method")), "Expected warning about missing HTTP method");
    assert_eq!(
        warnings,
        vec!["Service 'test-rest-service' is a REST service but endpoint #1 doesn't specify an HTTP method".to_string()]
    );

    let mut graphql = service_with("test-graphql-service", "1.0.0", None, vec![]);
    graphql.profile.service_type = Some(ServiceType::GraphQL);
    let warnings = check_service_type(&graphql);
    assert!(!warnings.is_empty(), "Expected warnings for GraphQL service without schema");
    assert!(warnings.iter().any(|w| w.contains("graphql_schema")));
    graphql.profile.metadata_keys = vec!["graphql_schema".to_string()];
    assert!(check_service_type(&graphql).is_empty());

    let mut custom = service_with("test-custom-service", "1.0.0", None, vec![]);
    custom.profile.service_type = Some(ServiceType::Other("custom-protocol".to_string()));
    let warnings = check_service_type(&custom);
    assert!(!warnings.is_empty(), "Expected warnings for custom service without description");
    assert!(warnings.iter().any(|w| w.contains("description")));
    custom.profile.has_description = true;
    assert!(check_service_type(&custom).is_empty());
}

#[test]
fn rest_endpoints_are_numbered_from_one() {
    let rest = service_with("r", "1.0.0", None, vec![true, false, true, true, true, true, true, true, true, true, true, false]);
    assert_eq!(
        check_service_type(&rest),
        vec![
            "Service 'r' is a REST service but endpoint #2 doesn't specify an HTTP method".to_string(),
            "Service 'r' is a REST service but endpoint #12 doesn't specify an HTTP method".to_string(),
        ]
    );
}

#[test]
fn test_version_compatibility_warnings() {
    let mut s = service_with("test-version-service", "1.0.0", None, vec![true]);
    s.config.schema_version = "1.1.0".to_string();
    let (errors, warnings) = check_structure(&s);
    assert!(errors.is_empty(), "Version compatibility validation failed");
    assert!(!warnings.is_empty(), "Expected warnings for minor version incompatibility");
    assert!(warnings.iter().any(|w| w.contains("minor differences")));
}

#[test]
fn structural_errors_fail_the_service() {
    let mut s = service_with("s", "1.0.0", None, vec![]);
    s.config.schema_version = "2.0.0".to_string();
    s.profile.schema_errors = vec!["missing name".to_string(), "bad type".to_string()];
    let (errors, warnings) = check_structure(&s);
    assert_eq!(errors, vec!["Schema version 2.0.0 is incompatible with current version 1.0.0".to_string()]);
    assert!(warnings.is_empty());
    let catalog = vec![s.clone()];
    let (errors, _) = evaluate_service(&s, &catalog);
    assert_eq!(errors.len(), 1);
    let mut fixed = s.clone();
    fixed.config.schema_version = "1.0.0".to_string();
    let (errors, _) = check_structure(&fixed);
    assert_eq!(errors, vec!["Schema validation failed: missing name, bad type".to_string()]);
    let mut registry = ServiceRegistry::new();
    registry.register_service(s);
    let summary = registry.validate_all_services(0);
    assert_eq!(summary.failed_count(), 1);
    assert_eq!(summary.failed[0].1, "Schema version 2.0.0 is incompatible with current version 1.0.0");
}

#[test]
fn delete_is_gated_by_required_dependents() {
    let mut registry = ServiceRegistry::new();
    registry.register_service(service("A", "1.0.0", Some(vec![dep("B", None, true)])));
    registry.register_service(service("B", "1.0.0", Some(vec![dep("D", None, true)])));
    registry.register_service(service("C", "1.0.0", Some(vec![dep("D", None, false)])));
    registry.register_service(service("D", "1.0.0", None));

    let mut critical = registry.get_critical_impacts("D").unwrap();
    critical.sort();
    assert_eq!(critical, vec!["A".to_string(), "B".to_string()]);

    let refused = registry.delete_service("D", false);
    match refused {
        Err(e) => {
            let m = e.message();
            assert!(
                m == "Validation error: Cannot delete service 'D' because it is required by: A, B"
                    || m == "Validation error: Cannot delete service 'D' because it is required by: B, A"
            );
        }
        Ok(_) => panic!("deletion should be refused"),
    }
    assert_eq!(registry.list_services().len(), 4);

    // C depends on D only optionally: deleting C needs no force.
    assert_eq!(registry.delete_service("C", false).unwrap(), Vec::<String>::new());

    let mut impacted = registry.delete_service("D", true).unwrap();
    impacted.sort();
    assert_eq!(impacted, vec!["A".to_string(), "B".to_string()]);
    assert_eq!(registry.list_services(), vec!["A".to_string(), "B".to_string()]);
    assert!(matches!(registry.delete_service("D", true), Err(aureacore::AureaCoreError::ServiceNotFound(_))));
}

#[test]
fn transitive_criticality_stops_at_optional_edge() {
    let mut registry = ServiceRegistry::new();
    registry.register_service(service("A", "1.0.0", Some(vec![dep("B", None, false)])));
    registry.register_service(service("B", "1.0.0", Some(vec![dep("D", None, true)])));
    registry.register_service(service("D", "1.0.0", None));
    assert_eq!(registry.get_critical_impacts("D").unwrap(), vec!["B".to_string()]);
    let mut all = registry.get_impacted_services("D").unwrap();
    all.sort();
    assert_eq!(all, vec!["A".to_string(), "B".to_string()]);
    assert!(matches!(registry.get_critical_impacts("nope"), Err(aureacore::AureaCoreError::ServiceNotFound(_))));
}

#[test]
fn register_replaces_a_service_of_the_same_name() {
    let mut registry = ServiceRegistry::new();
    registry.register_service(service("A", "1.0.0", None));
    registry.register_service(service("A", "2.0.0", None));
    assert_eq!(registry.list_services(), vec!["A".to_string()]);
    assert_eq!(registry.get_service("A").unwrap().profile.version, Some("2.0.0".to_string()));
}

fn test_config(config_path: &str) -> ServiceConfig {
    ServiceConfig {
        namespace: None,
        config_path: config_path.to_string(),
        schema_version: "1.0.0".to_string(),
        dependencies: None,
    }
}

#[test]
fn service_test_service_creation() {
    let s = Service::new("test-service".to_string(), test_config("test.json"), profile("1.0.0", vec![]), 0);
    assert_eq!(s.name, "test-service");
    assert_eq!(s.status.state, ServiceState::Inactive);
}

#[test]
fn test_service_update_config() {
    let mut s = Service::new("test-service".to_string(), test_config("test.json"), profile("1.0.0", vec![]), 0);
    s.update_config(test_config("updated.json"), profile("1.0.0", vec![]), 5);
    assert_eq!(s.config.config_path, "updated.json");
    assert_eq!(s.status.state, ServiceState::Validating);
    assert_eq!(s.status.last_checked, 5);
    assert!(s.status.error_message.is_none());
    s.set_error("broken".to_string(), 6);
    assert_eq!(s.status().state, ServiceState::Error);
    assert_eq!(s.status().error_message, Some("broken".to_string()));
}

#[test]
fn service_validate_sets_status() {
    let mut lone = service_with("lone", "1.0.0", Some(vec![dep("ghost", None, true)]), vec![true]);
    let catalog: Vec<Service> = vec![];
    let r = lone.validate(&catalog, 3);
    match r {
        Err(e) => assert_eq!(e.message(), "Validation error: Required dependency 'ghost' not found"),
        Ok(()) => panic!("validation should fail"),
    }
    assert_eq!(lone.status.state, ServiceState::Error);
    assert_eq!(lone.status.last_checked, 3);
    assert_eq!(lone.status.state.as_text(), "Error");

    let mut fine = service_with("fine", "1.0.0", Some(vec![dep("lone", Some("1.2.0"), true)]), vec![true]);
    let catalog = vec![lone.clone()];
    assert!(fine.validate(&catalog, 4).is_ok());
    assert_eq!(fine.status.state, ServiceState::Active);
    assert_eq!(
        fine.status.warnings,
        vec!["Minor version incompatibility for dependency 'lone': expected 1.2.0 but found 1.0.0".to_string()]
    );
    assert_eq!(fine.status.state.as_text(), "Active");
}

#[test]
fn test_validate_service_with_context() {
    let with_deps = service_with(
        "test-service",
        "1.0.0",
        Some(vec![
            dep("existing-service", Some("1.0.0"), true),
            dep("missing-service", Some("1.0.0"), true),
        ]),
        vec![false],
    );
    let existing = service("existing-service", "1.0.0", None);
    let catalog = vec![existing];
    let (errors, warnings) = evaluate_service(&with_deps, &catalog);
    // A required dependency that is absent fails the service.
    assert_eq!(errors, vec!["Required dependency 'missing-service' not found".to_string()]);
    assert!(warnings.is_empty());

    let mut incompatible = service_with("test-service", "1.0.0", None, vec![false]);
    incompatible.config.schema_version = "2.0.0".to_string();
    let (errors, warnings) = evaluate_service(&incompatible, &catalog);
    assert!(!errors.is_empty());
    assert_eq!(warnings.len(), 0);

    let mut minor = service_with("test-service", "1.0.0", None, vec![false]);
    minor.config.schema_version = "1.1.0".to_string();
    let (errors, warnings) = evaluate_service(&minor, &catalog);
    assert!(errors.is_empty());
    assert_eq!(warnings.len(), 3);
    assert!(warnings.iter().any(|w| w.contains("minor differences")), "Expected warning about minor version differences");
    assert!(warnings.iter().any(|w| w.contains("HTTP method")), "Expected warning about missing HTTP method");
    assert!(warnings.contains(&"Minor schema version incompatibility: config version 1.1.0 vs current 1.0.0".to_string()));
}

#[test]
fn missing_version_skips_the_version_check() {
    let a = service("a", "1.0.0", Some(vec![dep("b", Some("1.0.0"), true)]));
    let mut b = service("b", "1.0.0", None);
    b.profile.version = None;
    let catalog = vec![a.clone(), b];
    let (errors, warnings) = validate_dependencies(&a, &catalog);
    assert!(errors.is_empty());
    assert!(warnings.is_empty());
}

#[test]
fn impact_of_unknown_service_is_an_error() {
    let mut registry = ServiceRegistry::new();
    registry.register_service(service("A", "1.0.0", None));
    match registry.get_impacted_services("nope") {
        Err(aureacore::AureaCoreError::ServiceNotFound(n)) => assert_eq!(n, "nope"),
        _ => panic!("expected ServiceNotFound"),
    }
    assert!(registry.get_impacted_services("A").unwrap().is_empty());
}
