use fj_topology::{
    Curve, Cycle, Face, HalfEdge, Handle, Handles, Instance, Point, Region, Shell, Surface,
    SurfaceGeometry, SurfacePath, Vertex,
};

fn line(a: [i64; 2], b: [i64; 2]) -> SurfacePath {
    SurfacePath::line_from_points(Point { coords: a }, Point { coords: b })
}

/// Two triangles that share the edge from `v0` to `v1`, each traversing it
/// in its own direction over the parameters `0..2`
struct Fixture {
    core: Instance,
    shell: Shell,
    shared: Handle<HalfEdge>,
    sibling: Handle<HalfEdge>,
    other: Handle<HalfEdge>,
    v1: Handle<Vertex>,
}

fn fixture() -> Fixture {
    let mut core = Instance::new();
    let v: Vec<Handle<Vertex>> = (0..4).map(|_| core.insert_vertex(Vertex {})).collect();
    let shared_curve = core.insert_curve(Curve {});
    let mut edge = |core: &mut Instance, a: [i64; 2], b: [i64; 2], boundary: [i64; 2], curve: Option<Handle<Curve>>, start: Handle<Vertex>| {
        let curve = curve.unwrap_or_else(|| core.insert_curve(Curve {}));
        let path = line(a, b);
        core.insert_half_edge(HalfEdge { path, boundary, curve, start_vertex: start })
    };
    // the shared edge runs over 0..2 along the line through (0, 0) and (1, 0)
    let e1 = edge(&mut core, [0, 0], [1, 0], [0, 2], Some(shared_curve), v[0]);
    let e2 = edge(&mut core, [2, 0], [0, 2], [0, 1], None, v[1]);
    let e3 = edge(&mut core, [0, 2], [0, 0], [0, 1], None, v[2]);
    let f1 = edge(&mut core, [0, 0], [1, 0], [2, 0], Some(shared_curve), v[1]);
    let f2 = edge(&mut core, [0, 0], [0, -2], [0, 1], None, v[0]);
    let f3 = edge(&mut core, [0, -2], [2, 0], [0, 1], None, v[3]);

    let surface = core.insert_surface(Surface { geometry: SurfaceGeometry::xy_plane() });
    let mut face = |core: &mut Instance, hs: Vec<Handle<HalfEdge>>| {
        let cycle = core.insert_cycle(Cycle::new(hs));
        let region = core.insert_region(Region::new(cycle, Handles::new(vec![]), None));
        core.insert_face(Face::new(surface, region))
    };
    let a = face(&mut core, vec![e1, e2, e3]);
    let b = face(&mut core, vec![f1, f2, f3]);
    let shell = Shell::new(Handles::new(vec![a, b]));
    Fixture { core, shell, shared: e1, sibling: f1, other: e2, v1: v[1] }
}

fn cycle_of(core: &Instance, face: &Handle<Face>) -> Vec<Handle<HalfEdge>> {
    let region = core.regions.get(&core.faces.get(face).region);
    core.cycles.get(&region.exterior).half_edges().iter().to_vec()
}

#[test]
fn siblings_are_found() {
    let f = fixture();
    assert!(f.shell.are_siblings(&f.core, &f.shared, &f.sibling));
    assert!(f.shell.are_siblings(&f.core, &f.sibling, &f.shared));
    assert!(!f.shell.are_siblings(&f.core, &f.shared, &f.other));
    assert_eq!(f.shell.get_sibling_of(&f.core, &f.shared), Some(f.sibling));
    assert_eq!(f.shell.get_sibling_of(&f.core, &f.sibling), Some(f.shared));
    assert_eq!(f.shell.get_sibling_of(&f.core, &f.other), None);

    let vertices = f.shell.bounding_vertices_of_half_edge(&f.core, &f.shared).unwrap();
    assert_eq!(vertices[1], f.v1);
}

#[test]
fn half_edge_outside_the_shell_has_no_sibling() {
    let mut f = fixture();
    let curve = f.core.insert_curve(Curve {});
    let start = f.core.insert_vertex(Vertex {});
    let path = line([5, 5], [6, 5]);
    let loose = f.core.insert_half_edge(HalfEdge { path, boundary: [0, 1], curve, start_vertex: start });
    assert!(f.shell.bounding_vertices_of_half_edge(&f.core, &loose).is_none());
    assert_eq!(f.shell.get_sibling_of(&f.core, &loose), None);
}

#[test]
fn split_edge_at_the_middle() {
    let mut f = fixture();
    let (shell, [[a, b], [sa, sb]]) = f.shell.split_edge(&f.shared, 1, &mut f.core);
    let core = &f.core;

    assert_eq!(core.half_edges.get(&a).boundary, [0, 1]);
    assert_eq!(core.half_edges.get(&b).boundary, [1, 2]);
    assert_eq!(core.half_edges.get(&sa).boundary, [2, 1]);
    assert_eq!(core.half_edges.get(&sb).boundary, [1, 0]);

    // both sides meet at one new vertex
    let new_vertex = core.half_edges.get(&b).start_vertex;
    assert_eq!(core.half_edges.get(&sb).start_vertex, new_vertex);
    assert_eq!(new_vertex.id(), 4);
    assert_eq!(core.half_edges.get(&a).start_vertex, core.half_edges.get(&f.shared).start_vertex);
    assert_eq!(core.half_edges.get(&sa).start_vertex, core.half_edges.get(&f.sibling).start_vertex);

    // the pieces stand in the place of the split half-edges
    let faces: Vec<Handle<Face>> = shell.faces().iter().to_vec();
    assert_eq!(faces.len(), 2);
    let first = cycle_of(core, &faces[0]);
    let second = cycle_of(core, &faces[1]);
    assert_eq!(first.len(), 4);
    assert_eq!(first[0], a);
    assert_eq!(first[1], b);
    assert_eq!(first[2], f.other);
    assert_eq!(second.len(), 4);
    assert_eq!(second[0], sa);
    assert_eq!(second[1], sb);

    // the pieces are siblings in the new shell
    assert!(shell.are_siblings(core, &a, &sb));
    assert!(shell.are_siblings(core, &b, &sa));
}

#[test]
fn replace_half_edge_leaves_other_faces_alone() {
    let mut f = fixture();
    let extra = f.core.insert_half_edge(*f.core.half_edges.get(&f.other));
    let shell = f.shell.replace_half_edge(&mut f.core, &f.other, &vec![extra]);
    let before: Vec<Handle<Face>> = f.shell.faces().iter().to_vec();
    let after: Vec<Handle<Face>> = shell.faces().iter().to_vec();
    assert!(after[0] != before[0]);
    assert_eq!(after[1], before[1]);
    assert_eq!(cycle_of(&f.core, &after[0])[1], extra);
}
