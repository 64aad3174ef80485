use aureacore::{
    AureaCoreError, Dependency, DependencyGraph, DependencyResolver, EdgeMetadata, Service,
    ServiceConfig, ServiceProfile, ServiceRegistry, ServiceType,
};

fn dep(service: &str, required: bool) -> Dependency {
    Dependency {
        service: service.to_string(),
        version_constraint: Some("1.0.0".to_string()),
        required,
    }
}

fn service(name: &str, deps: Vec<Dependency>) -> Service {
    Service::new(
        name.to_string(),
        ServiceConfig {
            namespace: None,
            config_path: format!("{}.json", name),
            schema_version: "1.0.0".to_string(),
            dependencies: Some(deps),
        },
        ServiceProfile {
            version: Some("1.0.0".to_string()),
            service_type: Some(ServiceType::Rest),
            endpoint_methods: vec![],
            metadata_keys: vec![],
            has_description: false,
            schema_errors: vec![],
        },
        0,
    )
}

// A depends on B (required) and C (optional); B depends on D.
fn create_test_registry() -> ServiceRegistry {
    let mut registry = ServiceRegistry::new();
    registry.register_service(service(
        "service-a",
        vec![dep("service-b", true), dep("service-c", false)],
    ));
    registry.register_service(service("service-b", vec![dep("service-d", true)]));
    registry.register_service(service("service-c", vec![]));
    registry.register_service(service("service-d", vec![]));
    registry
}

//            A
//          / | \
//         B  C  E
//        /   |   \
//       D    F    G
//           /      \
//          H        I
fn create_complex_registry() -> ServiceRegistry {
    let mut registry = ServiceRegistry::new();
    registry.register_service(service(
        "service-a",
        vec![dep("service-b", true), dep("service-c", true), dep("service-e", true)],
    ));
    registry.register_service(service("service-b", vec![dep("service-d", true)]));
    registry.register_service(service("service-c", vec![dep("service-f", true)]));
    registry.register_service(service("service-d", vec![]));
    registry.register_service(service("service-e", vec![dep("service-g", true)]));
    registry.register_service(service("service-f", vec![dep("service-h", true)]));
    registry.register_service(service("service-g", vec![dep("service-i", true)]));
    registry.register_service(service("service-h", vec![]));
    registry.register_service(service("service-i", vec![]));
    registry
}

fn names(v: &[&str]) -> Vec<String> {
    v.iter().map(|s| s.to_string()).collect()
}

fn pos(v: &[String], name: &str) -> usize {
    v.iter().position(|x| x == name).unwrap()
}

#[test]
fn test_dependency_graph_creation() {
    let registry = create_test_registry();
    let graph = registry.build_dependency_graph();

    assert_eq!(graph.node_count(), 4);

    let a_neighbors = graph.neighbors("service-a");
    assert_eq!(a_neighbors.len(), 2);
    assert!(a_neighbors.contains(&"service-b".to_string()));
    assert!(a_neighbors.contains(&"service-c".to_string()));

    let b_neighbors = graph.neighbors("service-b");
    assert_eq!(b_neighbors.len(), 1);
    assert!(b_neighbors.contains(&"service-d".to_string()));

    assert_eq!(graph.neighbors("service-c").len(), 0);
    assert_eq!(graph.neighbors("service-d").len(), 0);
}

#[test]
fn test_dependency_resolution() {
    let registry = create_test_registry();
    let resolved = registry.get_ordered_services(&names(&["service-a"])).unwrap();

    assert_eq!(resolved.len(), 4);
    assert!(resolved.contains(&"service-a".to_string()));
    assert!(resolved.contains(&"service-b".to_string()));
    assert!(resolved.contains(&"service-c".to_string()));
    assert!(resolved.contains(&"service-d".to_string()));

    let d_pos = pos(&resolved, "service-d");
    let b_pos = pos(&resolved, "service-b");
    let a_pos = pos(&resolved, "service-a");
    assert!(d_pos < b_pos, "D should come before B");
    assert!(b_pos < a_pos, "B should come before A");
}

#[test]
fn test_complex_dependency_resolution() {
    let registry = create_complex_registry();

    let resolved_a = registry.get_ordered_services(&names(&["service-a"])).unwrap();
    assert_eq!(resolved_a.len(), 9, "Should resolve all 9 services in the hierarchy");
    let a_pos = pos(&resolved_a, "service-a");
    assert!(pos(&resolved_a, "service-b") < a_pos, "B should come before A");
    assert!(pos(&resolved_a, "service-c") < a_pos, "C should come before A");
    assert!(pos(&resolved_a, "service-e") < a_pos, "E should come before A");

    let resolved_be = registry.get_ordered_services(&names(&["service-b", "service-e"])).unwrap();
    assert_eq!(resolved_be.len(), 5, "Should resolve 5 services for B and E combined");
    for n in ["service-b", "service-d", "service-e", "service-g", "service-i"] {
        assert!(resolved_be.contains(&n.to_string()));
    }
    assert!(pos(&resolved_be, "service-d") < pos(&resolved_be, "service-b"), "D should come before B");
    assert!(pos(&resolved_be, "service-i") < pos(&resolved_be, "service-g"), "I should come before G");
    assert!(pos(&resolved_be, "service-g") < pos(&resolved_be, "service-e"), "G should come before E");

    let resolved_leaf = registry.get_ordered_services(&names(&["service-d", "service-h"])).unwrap();
    assert_eq!(resolved_leaf.len(), 2, "Should only include the 2 leaf services");
    assert!(resolved_leaf.contains(&"service-d".to_string()));
    assert!(resolved_leaf.contains(&"service-h".to_string()));

    let resolved_c = registry.get_ordered_services(&names(&["service-c"])).unwrap();
    assert_eq!(resolved_c.len(), 3, "Should include C and its dependencies");
    assert!(resolved_c.contains(&"service-c".to_string()));
    assert!(resolved_c.contains(&"service-f".to_string()));
    assert!(resolved_c.contains(&"service-h".to_string()));
    assert!(pos(&resolved_c, "service-h") < pos(&resolved_c, "service-f"), "H should come before F");
    assert!(pos(&resolved_c, "service-f") < pos(&resolved_c, "service-c"), "F should come before C");
}

#[test]
fn test_resolve_order_edge_cases() {
    let registry = create_complex_registry();

    let resolved_empty = registry.get_ordered_services(&[]).unwrap();
    assert_eq!(resolved_empty.len(), 0, "Should return empty list for empty input");

    let non_existent = registry.get_ordered_services(&names(&["non-existent-service"]));
    assert!(non_existent.is_err(), "Should fail for non-existent service");
    assert!(
        matches!(non_existent, Err(AureaCoreError::ServiceNotFound(_))),
        "Should be ServiceNotFound error"
    );

    let mixed = registry.get_ordered_services(&names(&["service-a", "non-existent-service"]));
    assert!(mixed.is_err(), "Should fail when any service doesn't exist");

    let resolved_1 = registry.get_ordered_services(&names(&["service-b"])).unwrap();
    let resolved_2 = registry.get_ordered_services(&names(&["service-c"])).unwrap();
    assert_eq!(resolved_1.len(), 2, "B should include itself and D");
    assert_eq!(resolved_2.len(), 3, "C should include itself, F and H");
}

#[test]
fn test_impact_analysis() {
    let registry = create_test_registry();

    let d_impact = registry.get_impacted_services("service-d").unwrap();
    assert_eq!(d_impact.len(), 2);
    assert!(d_impact.contains(&"service-b".to_string()));
    assert!(d_impact.contains(&"service-a".to_string()));

    let b_impact = registry.get_impacted_services("service-b").unwrap();
    assert_eq!(b_impact.len(), 1);
    assert!(b_impact.contains(&"service-a".to_string()));

    let c_impact = registry.get_impacted_services("service-c").unwrap();
    assert_eq!(c_impact.len(), 1);
    assert!(c_impact.contains(&"service-a".to_string()));

    let a_impact = registry.get_impacted_services("service-a").unwrap();
    assert_eq!(a_impact.len(), 0);
}

#[test]
fn test_detailed_impact_analysis() {
    let registry = create_complex_registry();

    let i_impact = registry.get_detailed_impact("service-i").unwrap();
    assert_eq!(i_impact.len(), 3, "Service I should impact 3 services: G, E, and A");
    let g_info = i_impact.iter().find(|i| i.service_name == "service-g").expect("G should be impacted");
    let e_info = i_impact.iter().find(|i| i.service_name == "service-e").expect("E should be impacted");
    let a_info = i_impact.iter().find(|i| i.service_name == "service-a").expect("A should be impacted");
    assert!(g_info.is_required, "G requires I, so impact is required");
    assert!(e_info.is_required, "E requires G, so impact is required");
    assert!(a_info.is_required, "A requires E, so impact is required");

    let h_critical = registry.get_critical_impacts("service-h").unwrap();
    assert_eq!(h_critical.len(), 3, "Service H should critically impact 3 services");
    assert!(h_critical.contains(&"service-f".to_string()));
    assert!(h_critical.contains(&"service-c".to_string()));
    assert!(h_critical.contains(&"service-a".to_string()));

    let registry = create_test_registry();
    let c_impact = registry.get_detailed_impact("service-c").unwrap();
    assert_eq!(c_impact.len(), 1, "Service C should impact only service A");
    let a_info = c_impact.iter().find(|i| i.service_name == "service-a").expect("A should be impacted");
    assert!(!a_info.is_required, "C is an optional dependency of A");

    let d_impact = registry.get_detailed_impact("service-d").unwrap();
    assert_eq!(d_impact.len(), 2, "Service D should impact 2 services: B and A");
    let b_info = d_impact.iter().find(|i| i.service_name == "service-b").expect("B should be impacted");
    let a_info = d_impact.iter().find(|i| i.service_name == "service-a").expect("A should be impacted");
    assert_eq!(b_info.impact_path, vec!["service-d".to_string(), "service-b".to_string()]);
    assert!(a_info.impact_path.contains(&"service-d".to_string()));
    assert!(a_info.impact_path.contains(&"service-b".to_string()));
    assert!(a_info.impact_path.contains(&"service-a".to_string()));
}

#[test]
fn dependency_management_test_test_circular_dependency_detection() {
    let mut registry = ServiceRegistry::new();
    registry.register_service(service("service-x", vec![dep("service-y", true)]));
    registry.register_service(service("service-y", vec![dep("service-z", true)]));
    registry.register_service(service("service-z", vec![dep("service-x", true)]));

    let graph = registry.build_dependency_graph();
    let cycle = graph.detect_cycles();
    assert!(cycle.is_some());
    let cycle = cycle.unwrap();
    assert!(cycle.cycle_path.len() >= 3);
    assert!(cycle.cycle_path.contains(&"service-x".to_string()));
    assert!(cycle.cycle_path.contains(&"service-y".to_string()));
    assert!(cycle.cycle_path.contains(&"service-z".to_string()));

    let resolve_result = registry.get_ordered_services(&names(&["service-x"]));
    assert!(resolve_result.is_err());
}

#[test]
fn test_dependency_aware_operations() {
    let mut registry = create_complex_registry();

    let service_names = names(&["service-a"]);
    let ordered = registry.get_ordered_services(&service_names).unwrap();
    for n in ["service-a", "service-b", "service-c", "service-e"] {
        assert!(ordered.contains(&n.to_string()));
    }
    let a_pos = pos(&ordered, "service-a");
    assert!(pos(&ordered, "service-b") < a_pos, "B should come before A");
    assert!(pos(&ordered, "service-c") < a_pos, "C should come before A");
    assert!(pos(&ordered, "service-e") < a_pos, "E should come before A");

    let reverse_ordered = registry.get_reverse_ordered_services(&service_names).unwrap();
    assert_eq!(reverse_ordered.len(), ordered.len());
    assert_eq!(reverse_ordered[0], "service-a");
    let last_services: Vec<&String> = reverse_ordered.iter().skip(reverse_ordered.len() - 3).collect();
    assert!(
        last_services.contains(&&"service-d".to_string())
            || last_services.contains(&&"service-h".to_string())
            || last_services.contains(&&"service-i".to_string()),
        "Leaf services should be at the end in reverse order"
    );

    let d_impacts = registry.get_impacted_services("service-d").unwrap();
    assert_eq!(d_impacts.len(), 2);
    assert!(d_impacts.contains(&"service-b".to_string()));
    assert!(d_impacts.contains(&"service-a".to_string()));

    let c_detailed = registry.get_detailed_impact("service-c").unwrap();
    assert_eq!(c_detailed.len(), 1);
    let a_impact = c_detailed.iter().find(|i| i.service_name == "service-a").unwrap();
    assert!(a_impact.impact_path.contains(&"service-c".to_string()));
    assert!(a_impact.impact_path.contains(&"service-a".to_string()));

    let i_critical = registry.get_critical_impacts("service-i").unwrap();
    assert_eq!(i_critical.len(), 3);
    assert!(i_critical.contains(&"service-g".to_string()));
    assert!(i_critical.contains(&"service-e".to_string()));
    assert!(i_critical.contains(&"service-a".to_string()));

    let delete_result = registry.delete_service("service-d", false);
    assert!(delete_result.is_err());
    if let Err(err) = delete_result {
        assert!(err.message().contains("required by"));
    }

    let delete_result = registry.delete_service("service-d", true);
    assert!(delete_result.is_ok());
    let impacted = delete_result.unwrap();
    assert_eq!(impacted.len(), 2);
    assert!(impacted.contains(&"service-b".to_string()));
    assert!(impacted.contains(&"service-a".to_string()));
    assert!(registry.get_service("service-d").is_err());

    let start_names = names(&["service-c"]);
    let start_order = registry.get_ordered_services(&start_names).unwrap();
    assert_eq!(start_order.len(), 3);
    assert!(pos(&start_order, "service-h") < pos(&start_order, "service-f"), "H should be started before F");
    assert!(pos(&start_order, "service-f") < pos(&start_order, "service-c"), "F should be started before C");

    let stop_order = registry.get_reverse_ordered_services(&start_names).unwrap();
    assert!(pos(&stop_order, "service-c") < pos(&stop_order, "service-f"), "C should be stopped before F");
    assert!(pos(&stop_order, "service-f") < pos(&stop_order, "service-h"), "F should be stopped before H");
}

#[test]
fn test_start_stop_services() {
    let registry = create_complex_registry();
    let start_names = names(&["service-a"]);
    let start_order = registry.get_ordered_services(&start_names).unwrap();
    for n in [
        "service-a", "service-b", "service-c", "service-d", "service-e", "service-f", "service-g",
        "service-h", "service-i",
    ] {
        assert!(start_order.contains(&n.to_string()));
    }
    let stop_order = registry.get_reverse_ordered_services(&start_names).unwrap();
    assert_eq!(stop_order.len(), start_order.len());
    let mut reversed = start_order.clone();
    reversed.reverse();
    assert_eq!(stop_order, reversed);
}

#[test]
fn resolve_order_scenario_with_optional_branch() {
    // A→B required, A→C optional, B→D required.
    let mut graph = DependencyGraph::new();
    let meta = |required: bool| EdgeMetadata { required, version_constraint: None };
    graph.add_edge("A".to_string(), "B".to_string(), meta(true));
    graph.add_edge("A".to_string(), "C".to_string(), meta(false));
    graph.add_edge("B".to_string(), "D".to_string(), meta(true));
    let order = DependencyResolver::new().resolve_order(&graph, &names(&["A"])).unwrap();
    assert_eq!(order.len(), 4);
    assert!(pos(&order, "D") < pos(&order, "B"));
    assert!(pos(&order, "B") < pos(&order, "A"));
    assert!(pos(&order, "C") < pos(&order, "A"));
}

#[test]
fn cycle_scenario_three_services() {
    // X→Y→Z→X.
    let mut graph = DependencyGraph::new();
    let meta = || EdgeMetadata { required: true, version_constraint: None };
    graph.add_edge("X".to_string(), "Y".to_string(), meta());
    graph.add_edge("Y".to_string(), "Z".to_string(), meta());
    graph.add_edge("Z".to_string(), "X".to_string(), meta());
    let cycle = graph.detect_cycles().expect("a cycle");
    assert_eq!(cycle.cycle_path.len(), 4);
    assert_eq!(cycle.cycle_path[0], cycle.cycle_path[3]);
    let mut members: Vec<String> = cycle.cycle_path[..3].to_vec();
    members.sort();
    assert_eq!(members, names(&["X", "Y", "Z"]));
    assert!(cycle.description.starts_with("Circular dependency detected: "));
    let err = DependencyResolver::new().resolve_order(&graph, &names(&["X"]));
    assert!(matches!(err, Err(AureaCoreError::CircularDependency(_))));
}

#[test]
fn acyclic_graph_has_no_cycle_and_single_node_orders_itself() {
    let mut graph = DependencyGraph::new();
    graph.add_node("solo".to_string());
    assert!(graph.detect_cycles().is_none());
    let order = DependencyResolver::new().resolve_order(&graph, &names(&["solo"])).unwrap();
    assert_eq!(order, names(&["solo"]));
    let empty = DependencyResolver::new().resolve_order(&graph, &[]).unwrap();
    assert!(empty.is_empty());
}

#[test]
fn self_dependency_is_a_cycle() {
    let mut graph = DependencyGraph::new();
    graph.add_edge("A".to_string(), "A".to_string(), EdgeMetadata { required: false, version_constraint: None });
    let cycle = graph.detect_cycles().unwrap();
    assert_eq!(cycle.cycle_path, names(&["A", "A"]));
    assert_eq!(cycle.description, "Circular dependency detected: A -> A");
}

#[test]
fn add_node_twice_keeps_one_node() {
    let mut graph = DependencyGraph::new();
    graph.add_node("a".to_string());
    graph.add_node("a".to_string());
    assert_eq!(graph.node_count(), 1);
    graph.add_edge("a".to_string(), "b".to_string(), EdgeMetadata { required: true, version_constraint: None });
    assert_eq!(graph.node_count(), 2);
    assert_eq!(graph.neighbors("a"), names(&["b"]));
    assert!(graph.neighbors("missing").is_empty());
}

#[test]
fn cycle_unreachable_from_roots_does_not_block_order() {
    let mut graph = DependencyGraph::new();
    let meta = || EdgeMetadata { required: true, version_constraint: None };
    graph.add_edge("X".to_string(), "Y".to_string(), meta());
    graph.add_edge("Y".to_string(), "X".to_string(), meta());
    graph.add_edge("A".to_string(), "B".to_string(), meta());
    assert!(graph.detect_cycles().is_some());
    let order = DependencyResolver::new().resolve_order(&graph, &names(&["A"])).unwrap();
    assert_eq!(order, names(&["B", "A"]));
}
