use fj_topology::{Cycle, Instance, Point, Winding};

fn pt(x: i64, y: i64) -> Point<2> {
    Point { coords: [x, y] }
}

#[test]
fn triangle_winding_does_not_depend_on_first_edge() {
    let mut core = Instance::new();
    let rotations = [
        vec![pt(0, 0), pt(1, 0), pt(0, 1)],
        vec![pt(1, 0), pt(0, 1), pt(0, 0)],
        vec![pt(0, 1), pt(0, 0), pt(1, 0)],
    ];
    for points in rotations.iter() {
        let cycle = Cycle::polygon(points, &mut core);
        assert_eq!(cycle.winding_sum(&core), -1);
        assert_eq!(cycle.winding(&core), Winding::Ccw);
    }
}

#[test]
fn clockwise_triangle() {
    let mut core = Instance::new();
    let cycle = Cycle::polygon(&vec![pt(0, 0), pt(0, 1), pt(1, 0)], &mut core);
    assert_eq!(cycle.winding_sum(&core), 1);
    assert_eq!(cycle.winding(&core), Winding::Cw);
}

#[test]
fn unit_square_signed_area() {
    let mut core = Instance::new();
    let cycle = Cycle::polygon(&vec![pt(0, 0), pt(1, 0), pt(1, 1), pt(0, 1)], &mut core);
    assert_eq!(cycle.winding_sum(&core), -2);
    assert_eq!(cycle.winding(&core), Winding::Ccw);
    assert_eq!(cycle.half_edges().len(), 4);
}

#[test]
fn reversed_cycle_has_opposite_winding() {
    let mut core = Instance::new();
    let cycle = Cycle::polygon(&vec![pt(0, 0), pt(2, 0), pt(0, 3)], &mut core);
    let reversed = cycle.reverse(&mut core);
    assert_eq!(cycle.winding(&core), Winding::Ccw);
    assert_eq!(reversed.winding(&core), Winding::Cw);
    assert_eq!(reversed.winding_sum(&core), -cycle.winding_sum(&core));
    assert_eq!(Winding::Ccw.reverse(), Winding::Cw);
}
