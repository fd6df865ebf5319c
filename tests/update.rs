use fj_topology::{Color, Cycle, Face, Handle, Handles, Instance, Point, Region, Shell, Surface, SurfaceGeometry};

fn triangle(core: &mut Instance, x: i64) -> Handle<Cycle> {
    let points = vec![Point { coords: [x, 0] }, Point { coords: [x + 1, 0] }, Point { coords: [x, 1] }];
    let cycle = Cycle::polygon(&points, core);
    core.insert_cycle(cycle)
}

fn ids<T>(handles: &Handles<T>) -> Vec<usize> {
    handles.iter().iter().map(|h| h.id()).collect()
}

#[test]
fn region_updates() {
    let mut core = Instance::new();
    let c: Vec<Handle<Cycle>> = (0..6).map(|i| triangle(&mut core, 10 * i)).collect();
    let color = Some(Color([1, 2, 3, 4]));
    let region = Region::new(c[0], Handles::new(vec![c[1], c[2]]), color);

    let updated = region.update_exterior(|_| c[3]);
    assert_eq!(updated.exterior, c[3]);
    assert_eq!(ids(&updated.interiors), ids(&region.interiors));
    assert_eq!(updated.color, color);

    let added = region.add_interiors(vec![c[3], c[4]]);
    assert_eq!(ids(&added.interiors), vec![c[1].id(), c[2].id(), c[3].id(), c[4].id()]);
    assert_eq!(added.exterior, c[0]);

    let replaced = region.update_interior(&c[1], |_| c[5]);
    assert_eq!(ids(&replaced.interiors), vec![c[5].id(), c[2].id()]);

    let split = region.replace_interior(&c[2], |_| vec![c[3], c[4]]);
    assert_eq!(ids(&split.interiors), vec![c[1].id(), c[3].id(), c[4].id()]);
    assert_eq!(split.color, color);

    // the receiver is unchanged
    assert_eq!(ids(&region.interiors), vec![c[1].id(), c[2].id()]);
}

#[test]
fn shell_updates() {
    let mut core = Instance::new();
    let surface = core.insert_surface(Surface { geometry: SurfaceGeometry::xy_plane() });
    let f: Vec<Handle<Face>> = (0..5)
        .map(|i| {
            let exterior = triangle(&mut core, 10 * i);
            let region = core.insert_region(Region::new(exterior, Handles::new(vec![]), None));
            core.insert_face(Face::new(surface, region))
        })
        .collect();
    let shell = Shell::new(Handles::new(vec![f[0], f[1], f[2]]));

    let added = shell.add_faces(vec![f[3]]);
    assert_eq!(ids(added.faces()), vec![f[0].id(), f[1].id(), f[2].id(), f[3].id()]);

    let updated = shell.update_face(&f[1], |_| vec![f[3], f[4]]);
    assert_eq!(ids(updated.faces()), vec![f[0].id(), f[3].id(), f[4].id(), f[2].id()]);

    let removed = shell.remove_face(&f[0]);
    assert_eq!(ids(removed.faces()), vec![f[1].id(), f[2].id()]);
    let unchanged = shell.remove_face(&f[4]);
    assert_eq!(ids(unchanged.faces()), ids(shell.faces()));
}
