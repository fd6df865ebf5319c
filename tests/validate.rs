use fj_topology::{
    Curve, Cycle, CycleValidationError, EdgeValidationError, HalfEdge, Instance, Point, SurfacePath, ValidationConfig,
    ValidationError, Vertex,
};

fn half_edge(core: &mut Instance, boundary: [i64; 2]) -> HalfEdge {
    let curve = core.insert_curve(Curve {});
    let start_vertex = core.insert_vertex(Vertex {});
    HalfEdge {
        path: SurfacePath::line_from_points(Point { coords: [0, 0] }, Point { coords: [1, 0] }),
        boundary,
        curve,
        start_vertex,
    }
}

#[test]
fn edge_vertices_are_coincident() {
    let mut core = Instance::new();
    let config = ValidationConfig::new();

    let valid = half_edge(&mut core, [0, 1]);
    let invalid = HalfEdge { boundary: [0, 0], ..valid };

    let mut errors = Vec::new();
    valid.validate_with_config(&config, &mut errors);
    assert!(errors.is_empty());

    invalid.validate_with_config(&config, &mut errors);
    assert!(errors
        .iter()
        .any(|e| matches!(e, ValidationError::Edge(EdgeValidationError::VerticesAreCoincident { .. }))));
}

#[test]
fn coincident_vertices_are_reported_once_with_positions_and_distance() {
    let mut core = Instance::new();
    let config = ValidationConfig::new();
    let edge = half_edge(&mut core, [0, 0]);

    let mut errors = Vec::new();
    EdgeValidationError::check_vertex_coincidence(&edge, &config, &mut errors);
    assert_eq!(errors.len(), 1);
    match &errors[0] {
        ValidationError::Edge(EdgeValidationError::VerticesAreCoincident {
            back_position,
            front_position,
            distance,
            half_edge,
        }) => {
            assert_eq!(back_position.coords, [0]);
            assert_eq!(front_position.coords, [0]);
            assert_eq!(*distance, 0);
            assert_eq!(half_edge.boundary, [0, 0]);
        }
        other => panic!("unexpected violation: {other:?}"),
    }
}

#[test]
fn distance_is_compared_with_the_configured_minimum() {
    let mut core = Instance::new();
    let config = ValidationConfig { distinct_min_distance: 10 };

    let mut errors = Vec::new();
    let close = half_edge(&mut core, [7, -2]);
    close.validate_with_config(&config, &mut errors);
    assert_eq!(errors.len(), 1);
    match &errors[0] {
        ValidationError::Edge(EdgeValidationError::VerticesAreCoincident { distance, .. }) => {
            assert_eq!(*distance, 9)
        }
        other => panic!("unexpected violation: {other:?}"),
    }

    let far = half_edge(&mut core, [-5, 5]);
    far.validate_with_config(&config, &mut errors);
    assert_eq!(errors.len(), 1);

    let extreme = half_edge(&mut core, [i64::MIN, i64::MAX]);
    extreme.validate_with_config(&config, &mut errors);
    assert_eq!(errors.len(), 1);
}

#[test]
fn cycle_validation_reports_every_violation() {
    let mut core = Instance::new();
    let config = ValidationConfig::new();
    let points = vec![Point { coords: [0, 0] }, Point { coords: [1, 0] }, Point { coords: [2, 0] }];
    let flat = Cycle::polygon(&points, &mut core);

    // a flat polygon encloses no area
    let mut errors = Vec::new();
    flat.validate_with_config(&core, &config, &mut errors);
    assert_eq!(errors.len(), 1);
    assert!(matches!(
        errors[0],
        ValidationError::Cycle(CycleValidationError::ZeroArea { half_edges: 3 })
    ));

    // a half-edge whose boundary collapses is reported first; it no longer
    // starts where the one before it ends
    let mut edges: Vec<_> = flat.half_edges().iter().to_vec();
    let collapsed = HalfEdge { boundary: [1, 1], ..*core.half_edges.get(&edges[1]) };
    edges[1] = core.insert_half_edge(collapsed);
    let cycle = Cycle::new(edges);
    let mut errors = Vec::new();
    cycle.validate_with_config(&core, &config, &mut errors);
    assert_eq!(errors.len(), 3);
    assert!(matches!(
        errors[0],
        ValidationError::Edge(EdgeValidationError::VerticesAreCoincident { distance: 0, .. })
    ));
    assert!(matches!(
        errors[1],
        ValidationError::Cycle(CycleValidationError::NotConnected { index: 0 })
    ));
    assert!(matches!(errors[2], ValidationError::Cycle(CycleValidationError::ZeroArea { .. })));

    // a proper triangle is clean
    let points = vec![Point { coords: [0, 0] }, Point { coords: [1, 0] }, Point { coords: [0, 1] }];
    let triangle = Cycle::polygon(&points, &mut core);
    let mut errors = Vec::new();
    triangle.validate_with_config(&core, &config, &mut errors);
    assert!(errors.is_empty());
}
