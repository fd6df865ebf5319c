use fj_topology::{model, Instance, Vector};

#[test]
fn cuboid_approximation() {
    let mut core = Instance::new();
    let solid = model(&Vector { components: [2, 2, 3] }, &mut core);
    let solid = core.solids.get(&solid);
    let faces = solid.approx(&core);
    assert_eq!(faces.len(), 6);
    for face in &faces {
        assert_eq!(face.exterior.len(), 4);
        assert!(face.interiors.is_empty());
    }

    // the bottom lies in the xy-plane, the top at the height of the cuboid
    let mut bottom: Vec<[i64; 3]> = faces[0].exterior.iter().map(|p| p.coords).collect();
    bottom.sort();
    assert_eq!(bottom, vec![[-1, -1, 0], [-1, 1, 0], [1, -1, 0], [1, 1, 0]]);
    let mut top: Vec<[i64; 3]> = faces[5].exterior.iter().map(|p| p.coords).collect();
    top.sort();
    assert_eq!(top, vec![[-1, -1, 3], [-1, 1, 3], [1, -1, 3], [1, 1, 3]]);

    // every side face spans from the bottom to the top
    for side in &faces[1..5] {
        let heights: Vec<i64> = side.exterior.iter().map(|p| p.coords[2]).collect();
        assert!(heights.contains(&0));
        assert!(heights.contains(&3));
    }
}
