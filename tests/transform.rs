use fj_topology::{Face, Instance, Point, Region, Surface, SurfaceGeometry, TransformCache, Vector};

fn square(core: &mut Instance) -> Region {
    let points = vec![
        Point { coords: [0, 0] },
        Point { coords: [1, 0] },
        Point { coords: [1, 1] },
        Point { coords: [0, 1] },
    ];
    Region::polygon(&points, core)
}

#[test]
fn shared_region_is_transformed_once() {
    let mut core = Instance::new();
    let s1 = core.insert_surface(Surface { geometry: SurfaceGeometry::xy_plane() });
    let s2 = core.insert_surface(Surface { geometry: SurfaceGeometry::xy_plane() });
    let region = square(&mut core);
    let region = core.insert_region(region);
    let f1 = core.insert_face(Face::new(s1, region));
    let f2 = core.insert_face(Face::new(s2, region));

    let offset = Vector { components: [3, 0, 0] };
    let mut cache = TransformCache::new();
    let t1 = f1.transform_with_cache(&offset, &mut core, &mut cache);
    let regions_before = core.regions.len();
    let t2 = f2.transform_with_cache(&offset, &mut core, &mut cache);

    // both transformed faces reference the same transformed region
    assert_eq!(core.faces.get(&t1).region, core.faces.get(&t2).region);
    assert!(core.faces.get(&t1).region != region);
    // the second face reused it: no region was added
    assert_eq!(core.regions.len(), regions_before);
    // but the surfaces were distinct, and stay distinct
    assert!(core.faces.get(&t1).surface != core.faces.get(&t2).surface);

    // transforming the same face again returns the same face
    let again = f1.transform_with_cache(&offset, &mut core, &mut cache);
    assert_eq!(again, t1);
}

#[test]
fn translate_moves_the_surface() {
    let mut core = Instance::new();
    let surface = core.insert_surface(Surface { geometry: SurfaceGeometry::xy_plane() });
    let region = square(&mut core);
    let region = core.insert_region(region);
    let face = core.insert_face(Face::new(surface, region));

    let moved = face.translate(&Vector { components: [1, 2, 3] }, &mut core);
    let geometry = core.surfaces.get(&core.faces.get(&moved).surface).geometry;
    assert_eq!(geometry.origin.coords, [1, 2, 3]);
    assert_eq!(geometry.u.components, [1, 0, 0]);
    assert_eq!(geometry.v.components, [0, 1, 0]);

    // the half-edges keep their paths and boundaries, on new curves
    let old_region = core.regions.get(&region);
    let new_region = core.regions.get(&core.faces.get(&moved).region);
    let old_edges = core.cycles.get(&old_region.exterior).half_edges().iter().to_vec();
    let new_edges = core.cycles.get(&new_region.exterior).half_edges().iter().to_vec();
    assert_eq!(old_edges.len(), new_edges.len());
    for (o, n) in old_edges.iter().zip(new_edges.iter()) {
        let (o, n) = (core.half_edges.get(o), core.half_edges.get(n));
        assert_eq!(o.path, n.path);
        assert_eq!(o.boundary, n.boundary);
        assert!(o.curve != n.curve);
    }
}

fn curves_of_shell(core: &Instance, shell: &fj_topology::Shell) -> Vec<usize> {
    let mut curves = Vec::new();
    for face in shell.faces().iter() {
        let region = core.regions.get(&core.faces.get(face).region);
        for h in core.cycles.get(&region.exterior).half_edges().iter() {
            curves.push(core.half_edges.get(h).curve.id());
        }
    }
    curves
}

#[test]
fn shell_transform_keeps_shared_curves_shared() {
    let mut core = Instance::new();
    let solid = fj_topology::model(&Vector { components: [2, 2, 2] }, &mut core);
    let solid = core.solids.get(&solid);
    let shell = core.shells.get(solid.shells.nth(0).unwrap());
    let shell = fj_topology::Shell::new(shell.faces().clone());

    let mut cache = TransformCache::new();
    let moved = shell.transform_with_cache(&Vector { components: [0, 0, 5] }, &mut core, &mut cache);
    assert_eq!(moved.faces().len(), 6);

    let before = curves_of_shell(&core, &shell);
    let after = curves_of_shell(&core, &moved);
    assert_eq!(before.len(), after.len());
    // two half-edges share a curve after the transform exactly where they
    // shared one before
    for i in 0..before.len() {
        for j in 0..before.len() {
            assert_eq!(before[i] == before[j], after[i] == after[j]);
        }
    }
    let mut distinct = before.clone();
    distinct.sort();
    distinct.dedup();
    assert!(distinct.len() < before.len());
}
