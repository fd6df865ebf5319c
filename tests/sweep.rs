use fj_topology::{
    model, Cycle, Face, Handle, Instance, Point, Region, Shell, Surface, SurfaceGeometry,
    SweepCache, SweepError, Vector, Winding,
};

const TRIANGLE: [[i64; 2]; 3] = [[0, 0], [1, 0], [0, 1]];
const UP: [i64; 3] = [0, 0, 1];
const DOWN: [i64; 3] = [0, 0, -1];

fn points(coords: &[[i64; 2]]) -> Vec<Point<2>> {
    coords.iter().map(|c| Point { coords: *c }).collect()
}

fn face_on_xy_plane(core: &mut Instance, coords: &[[i64; 2]]) -> Face {
    let surface = core.insert_surface(Surface { geometry: SurfaceGeometry::xy_plane() });
    let region = Region::polygon(&points(coords), core);
    let region = core.insert_region(region);
    Face::new(surface, region)
}

fn exterior(core: &Instance, face: &Handle<Face>) -> Cycle {
    let region = core.regions.get(&core.faces.get(face).region);
    Cycle { half_edges: core.cycles.get(&region.exterior).half_edges.clone() }
}

fn start_positions(core: &Instance, cycle: &Cycle) -> Vec<[i64; 2]> {
    cycle
        .half_edges()
        .iter()
        .iter()
        .map(|h| {
            let e = core.half_edges.get(h);
            let t = e.boundary[0];
            [
                e.path.origin.coords[0] + e.path.direction.components[0] * t,
                e.path.origin.coords[1] + e.path.direction.components[1] * t,
            ]
        })
        .collect()
}

fn surface_of(core: &Instance, face: &Handle<Face>) -> SurfaceGeometry {
    core.surfaces.get(&core.faces.get(face).surface).geometry
}

fn faces(shell: &Shell) -> Vec<Handle<Face>> {
    shell.faces().iter().to_vec()
}

#[test]
fn sweep_up() {
    let mut core = Instance::new();
    let face = face_on_xy_plane(&mut core, &TRIANGLE);
    let shell = face.sweep(&Vector { components: UP }, &mut core);
    let faces = faces(&shell);
    assert_eq!(faces.len(), 5);

    // the bottom is the triangle, reversed, on the xy-plane
    let bottom = &faces[0];
    assert_eq!(surface_of(&core, bottom), SurfaceGeometry::xy_plane());
    let bottom_cycle = exterior(&core, bottom);
    assert_eq!(start_positions(&core, &bottom_cycle), vec![[0, 0], [0, 1], [1, 0]]);
    assert_eq!(bottom_cycle.winding(&core), Winding::Cw);

    // the top is the triangle, on the plane moved up
    let top = &faces[4];
    let top_surface = surface_of(&core, top);
    assert_eq!(top_surface.origin.coords, [0, 0, 1]);
    assert_eq!(top_surface.u.components, [1, 0, 0]);
    assert_eq!(top_surface.v.components, [0, 1, 0]);
    let top_cycle = exterior(&core, top);
    assert_eq!(top_cycle.winding(&core), Winding::Ccw);
    let mut top_points = start_positions(&core, &top_cycle);
    top_points.sort();
    assert_eq!(top_points, vec![[0, 0], [0, 1], [1, 0]]);

    // one side face per edge of the triangle, each spanned by the edge and
    // the path
    for side in &faces[1..4] {
        let surface = surface_of(&core, side);
        assert_eq!(surface.v.components, UP);
        assert_eq!(surface.origin.coords[2], 0);
        assert_eq!(surface.u.components[2], 0);
        assert_eq!(exterior(&core, side).half_edges().len(), 4);
    }
    let mut edges: Vec<([i64; 3], [i64; 3])> = faces[1..4]
        .iter()
        .map(|side| {
            let s = surface_of(&core, side);
            (s.origin.coords, s.u.components)
        })
        .collect();
    edges.sort();
    assert_eq!(
        edges,
        vec![([0, 0, 0], [1, 0, 0]), ([0, 1, 0], [0, -1, 0]), ([1, 0, 0], [-1, 1, 0])]
    );
}

#[test]
fn bottom_negative() {
    let mut core = Instance::new();
    let face = face_on_xy_plane(&mut core, &TRIANGLE);
    let shell = face.sweep(&Vector { components: DOWN }, &mut core);
    let faces = faces(&shell);

    let bottom = &faces[0];
    let geometry = surface_of(&core, bottom);
    assert_eq!(geometry.origin.coords, [0, 0, 0]);
    assert_eq!(geometry.u.components, [1, 0, 0]);
    assert_eq!(geometry.v.components, [0, 1, 0]);
    let cycle = exterior(&core, bottom);
    assert_eq!(start_positions(&core, &cycle), vec![[0, 0], [1, 0], [0, 1]]);
}

#[test]
fn top_negative() {
    let mut core = Instance::new();
    let face = face_on_xy_plane(&mut core, &TRIANGLE);
    let shell = face.sweep(&Vector { components: DOWN }, &mut core);

    let found = faces(&shell).iter().any(|f| {
        surface_of(&core, f) == SurfaceGeometry::xy_plane()
            && start_positions(&core, &exterior(&core, f)) == vec![[0, 0], [1, 0], [0, 1]]
    });
    assert!(found);
}

#[test]
fn up_and_down_sweeps_have_opposite_bottoms() {
    let mut core = Instance::new();
    let face = face_on_xy_plane(&mut core, &TRIANGLE);
    let up = face.sweep(&Vector { components: UP }, &mut core);
    let down = face.sweep(&Vector { components: DOWN }, &mut core);

    let up_bottom = faces(&up)[0];
    let down_bottom = faces(&down)[0];
    assert_eq!(exterior(&core, &up_bottom).winding(&core), Winding::Cw);
    assert_eq!(exterior(&core, &down_bottom).winding(&core), Winding::Ccw);
    assert_eq!(core.faces.get(&down_bottom).region, face.region);
    assert!(core.faces.get(&up_bottom).region != face.region);

    // the tops are swapped as well
    let up_top = *faces(&up).last().unwrap();
    let down_top = *faces(&down).last().unwrap();
    assert_eq!(exterior(&core, &up_top).winding(&core), Winding::Ccw);
    assert_eq!(exterior(&core, &down_top).winding(&core), Winding::Cw);
    assert_eq!(surface_of(&core, &down_top).origin.coords, [0, 0, -1]);
}

#[test]
fn unit_square_sweeps_into_six_faces() {
    let mut core = Instance::new();
    let square = [[0, 0], [1, 0], [1, 1], [0, 1]];
    let face = face_on_xy_plane(&mut core, &square);
    let region = Region::polygon(&points(&square), &mut core);
    let surface = Surface { geometry: SurfaceGeometry::xy_plane() };

    let mut cache = SweepCache::new();
    let swept = region.sweep_region(&surface, &Vector { components: UP }, &mut cache, &mut core);
    assert_eq!(swept.side_faces.len(), 4);
    let all = swept.all_faces();
    assert_eq!(all.len(), 5);

    let shell = face.sweep(&Vector { components: UP }, &mut core);
    assert_eq!(shell.faces().len(), 6);
}

#[test]
fn cuboid_model_has_six_faces() {
    let mut core = Instance::new();
    let solid = model(&Vector { components: [1, 1, 1] }, &mut core);
    let solid = core.solids.get(&solid);
    assert_eq!(solid.shells.len(), 1);
    let shell = core.shells.get(solid.shells.nth(0).unwrap());
    assert_eq!(shell.faces().len(), 6);

    let bottom = shell.faces().nth(0).unwrap();
    let mut corners = start_positions(&core, &exterior(&core, bottom));
    corners.sort();
    assert_eq!(corners, vec![[0, 0], [0, 1], [1, 0], [1, 1]]);
}

#[test]
fn cuboid_model_is_centered() {
    let mut core = Instance::new();
    let solid = model(&Vector { components: [4, 2, 3] }, &mut core);
    let solid = core.solids.get(&solid);
    let shell = core.shells.get(solid.shells.nth(0).unwrap());
    let bottom = shell.faces().nth(0).unwrap();
    let mut corners = start_positions(&core, &exterior(&core, bottom));
    corners.sort();
    assert_eq!(corners, vec![[-2, -1], [-2, 1], [2, -1], [2, 1]]);
    let top = shell.faces().nth(5).unwrap();
    assert_eq!(surface_of(&core, top).origin.coords, [0, 0, 3]);
}

#[test]
fn neighbouring_side_faces_share_their_vertical_edge_curve() {
    let mut core = Instance::new();
    let face = face_on_xy_plane(&mut core, &TRIANGLE);
    let shell = face.sweep(&Vector { components: UP }, &mut core);
    let sides: Vec<Handle<Face>> = faces(&shell)[1..4].to_vec();

    for i in 0..3 {
        let this = exterior(&core, &sides[i]);
        let next = exterior(&core, &sides[(i + 1) % 3]);
        // the edge going up at the end of one side face lies on the curve of
        // the edge going down at the start of the next
        let up = core.half_edges.get(this.half_edges().nth(1).unwrap());
        let down = core.half_edges.get(next.half_edges().nth(3).unwrap());
        assert_eq!(up.curve, down.curve);
        let top_end = core.half_edges.get(this.half_edges().nth(2).unwrap());
        assert_eq!(top_end.start_vertex, down.start_vertex);
    }
}

#[test]
fn sweep_face_of_shell_replaces_the_face() {
    let mut core = Instance::new();
    let solid = model(&Vector { components: [2, 2, 2] }, &mut core);
    let solid = core.solids.get(&solid);
    let shell = core.shells.get(solid.shells.nth(0).unwrap());
    let shell = Shell::new(shell.faces().clone());
    let top = *shell.faces().nth(5).unwrap();

    let extended = shell.sweep_face_of_shell(top, &Vector { components: UP }, &mut core).unwrap();
    // five faces stay, four side faces and a top face are added
    assert_eq!(extended.faces().len(), 10);
    assert!(extended.faces().index_of(&top).is_none());
    for i in 0..5 {
        assert_eq!(extended.faces().nth(i).unwrap().id(), shell.faces().nth(i).unwrap().id());
    }
    let new_top = extended.faces().nth(9).unwrap();
    assert_eq!(surface_of(&core, new_top).origin.coords, [0, 0, 3]);
}

#[test]
fn sweeping_a_shell_face_with_holes_is_not_supported() {
    let mut core = Instance::new();
    let surface = core.insert_surface(Surface { geometry: SurfaceGeometry::xy_plane() });
    let outer = Region::polygon(&points(&[[0, 0], [4, 0], [4, 4], [0, 4]]), &mut core);
    let hole = Cycle::polygon(&points(&[[1, 1], [1, 2], [2, 2], [2, 1]]), &mut core);
    let hole = core.insert_cycle(hole);
    let region = outer.add_interiors(vec![hole]);
    let region = core.insert_region(region);
    let face = core.insert_face(Face::new(surface, region));
    let shell = Shell::new(fj_topology::Handles::new(vec![face]));

    let result = shell.sweep_face_of_shell(face, &Vector { components: UP }, &mut core);
    assert_eq!(result.err(), Some(SweepError::InteriorsNotSupported));
}

#[test]
fn region_with_hole_sweeps_both_cycles() {
    let mut core = Instance::new();
    let outer = Region::polygon(&points(&[[0, 0], [4, 0], [4, 4], [0, 4]]), &mut core);
    let hole = Cycle::polygon(&points(&[[1, 1], [1, 2], [2, 2]]), &mut core);
    let hole = core.insert_cycle(hole);
    let region = outer.add_interiors(vec![hole]);
    let surface = Surface { geometry: SurfaceGeometry::xy_plane() };

    let mut cache = SweepCache::new();
    let swept = region.sweep_region(&surface, &Vector { components: UP }, &mut cache, &mut core);
    assert_eq!(swept.side_faces.len(), 7);
    let top_region = core.regions.get(&swept.top_face.region);
    assert_eq!(top_region.interiors.len(), 1);
}

#[test]
fn cuboid_model_accepts_negative_sizes() {
    let mut core = Instance::new();
    let solid = model(&Vector { components: [-4, 2, -3] }, &mut core);
    let solid = core.solids.get(&solid);
    let shell = core.shells.get(solid.shells.nth(0).unwrap());
    assert_eq!(shell.faces().len(), 6);
    let bottom = shell.faces().nth(0).unwrap();
    let mut corners = start_positions(&core, &exterior(&core, bottom));
    corners.sort();
    assert_eq!(corners, vec![[-2, -1], [-2, 1], [2, -1], [2, 1]]);
    let top = shell.faces().nth(5).unwrap();
    assert_eq!(surface_of(&core, top).origin.coords, [0, 0, -3]);
}
