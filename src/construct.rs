use crate::geometry::{in_range, surface_point, surface_vector, Point, SurfaceGeometry, SurfacePath, Vector, COORD_LIMIT};
use crate::handle::Handle;
use crate::handles::{ids_of, lemma_ids_of, Handles};
use crate::objects::{Curve, Cycle, Face, HalfEdge, Instance, Region, Shell, Solid, Surface, Vertex};
use crate::replace::{lemma_extends_refl, lemma_extends_trans};
use crate::sweep::{cycle_sweepable, edge_count_from, edge_sweepable, region_edge_count, region_sweepable};
use crate::winding::positions_of;
use vstd::prelude::*;

verus! {

/// Whether both coordinates of every point lie within half the modelling
/// range, so that the edges between them lie within it
pub open spec fn polygon_in_range(points: Seq<Point<2>>) -> bool {
    forall|i: int|
        0 <= i < points.len() ==> -COORD_LIMIT / 2 <= #[trigger] points[i].coords@[0] <= COORD_LIMIT / 2
            && -COORD_LIMIT / 2 <= points[i].coords@[1] <= COORD_LIMIT / 2
}

/// The half-edge `h` is the straight edge of a polygon from `a` (at
/// parameter 0) to `b` (at parameter 1)
pub open spec fn is_segment(h: HalfEdge, a: Point<2>, b: Point<2>) -> bool {
    &&& h.path.origin == a
    &&& h.path.direction.components@ == seq![(b.coords@[0] - a.coords@[0]) as i64, (b.coords@[1] - a.coords@[1]) as i64]
    &&& h.boundary@ == seq![0i64, 1]
}

impl Cycle {
    /// The polygon through `points`: one straight half-edge from each point
    /// to the next, the last to the first, each on a new curve and starting
    /// at a new vertex
    #[verifier::spinoff_prover]
    pub fn polygon(points: &Vec<Point<2>>, core: &mut Instance) -> (r: Cycle)
        requires
            old(core).wf(),
            polygon_in_range(points@),
        ensures
            final(core).wf(),
            final(core).extends(old(core)),
            final(core).cycles@ == old(core).cycles@,
            final(core).regions@ == old(core).regions@,
            final(core).faces@ == old(core).faces@,
            final(core).surfaces@ == old(core).surfaces@,
            r.valid_in(final(core)),
            r.half_edges@.len() == points@.len(),
            forall|i: int|
                0 <= i < points@.len() ==> #[trigger] is_segment(
                    final(core).half_edges@[r.half_edges@[i] as int],
                    points@[i],
                    points@[(i + 1) % points@.len() as int],
                ),
            forall|i: int|
                0 <= i < points@.len() ==> #[trigger] positions_of(final(core), r.half_edges@)[i] == (
                    points@[i].coords@[0] as int,
                    points@[i].coords@[1] as int,
                ),
    {
        let ghost c0 = *core;
        let n = points.len();
        let mut edges: Vec<Handle<HalfEdge>> = Vec::new();
        let mut i: usize = 0;
        proof {
            lemma_extends_refl(core);
        }
        while i < n
            invariant
                c0.wf(),
                core.wf(),
                core.extends(&c0),
                core.cycles@ == c0.cycles@,
                core.regions@ == c0.regions@,
                core.faces@ == c0.faces@,
                core.surfaces@ == c0.surfaces@,
                n == points@.len(),
                polygon_in_range(points@),
                i <= n,
                edges@.len() == i,
                core.half_edges@.len() == c0.half_edges@.len() + i,
                forall|k: int| 0 <= k < i ==> #[trigger] edges@[k]@ == c0.half_edges@.len() + k,
                forall|k: int|
                    0 <= k < i ==> #[trigger] is_segment(core.half_edges@[edges@[k]@ as int], points@[k], points@[(k + 1) % n as int]),
            decreases n - i,
        {
            let ghost ck = *core;
            let j = if i + 1 == n {
                0
            } else {
                i + 1
            };
            proof {
                if i + 1 == n {
                    vstd::arithmetic::div_mod::lemma_mod_self_0(n as int);
                } else {
                    vstd::arithmetic::div_mod::lemma_small_mod((i + 1) as nat, n as nat);
                }
            }
            let a = points[i];
            let b = points[j];
            let curve = core.insert_curve(Curve {});
            let ghost c1 = *core;
            let vertex = core.insert_vertex(Vertex {});
            let ghost c2 = *core;
            let path = SurfacePath::line_from_points(a, b);
            let edge = HalfEdge { path, boundary: [0, 1], curve, start_vertex: vertex };
            assert(edge.boundary@ =~= seq![0i64, 1]);
            assert(path.direction.components@ =~= seq![(b.coords@[0] - a.coords@[0]) as i64, (b.coords@[1] - a.coords@[1]) as i64]);
            proof {
                lemma_extends_trans(&ck, &c1, &c2);
            }
            let h = core.insert_half_edge(edge);
            edges.push(h);
            proof {
                lemma_extends_trans(&ck, &c2, core);
                lemma_extends_trans(&c0, &ck, core);
                assert forall|k: int| 0 <= k < i implies #[trigger] is_segment(core.half_edges@[edges@[k]@ as int], points@[k], points@[(k + 1) % n as int]) by {
                    assert(core.half_edges@[edges@[k]@ as int] == ck.half_edges@[edges@[k]@ as int]);
                }
            }
            i += 1;
        }
        proof {
            lemma_ids_of(edges@);
            let e = ids_of(edges@);
            assert forall|x: int, y: int| 0 <= x < e.len() && 0 <= y < e.len() && x != y implies e[x] != e[y] by {
                assert(edges@[x]@ == c0.half_edges@.len() + x);
                assert(edges@[y]@ == c0.half_edges@.len() + y);
            }
            assert forall|k: int| 0 <= k < e.len() implies #[trigger] e[k] < core.half_edges@.len() by {
                assert(edges@[k]@ == c0.half_edges@.len() + k);
            }
        }
        let r = Cycle::new(edges);
        proof {
            assert forall|k: int| 0 <= k < n implies #[trigger] is_segment(core.half_edges@[r.half_edges@[k] as int], points@[k], points@[(k + 1) % n as int]) by {
                assert(r.half_edges@[k] == edges@[k]@);
            }
            assert forall|k: int| 0 <= k < n implies #[trigger] positions_of(core, r.half_edges@)[k] == (
                points@[k].coords@[0] as int,
                points@[k].coords@[1] as int,
            ) by {
                assert(r.half_edges@[k] == edges@[k]@);
                let h = core.half_edges@[r.half_edges@[k] as int];
                assert(is_segment(h, points@[k], points@[(k + 1) % n as int]));
                assert(h.boundary@[0] == 0);
                assert(h.path.direction.components@[0] * 0 == 0);
                assert(h.path.direction.components@[1] * 0 == 0);
                assert(positions_of(core, r.half_edges@)[k] == crate::winding::start_position(h));
            }
        }
        r
    }
}

impl Region {
    /// The region bounded by the polygon through `points`, without holes or
    /// color; its exterior cycle is stored
    pub fn polygon(points: &Vec<Point<2>>, core: &mut Instance) -> (r: Region)
        requires
            old(core).wf(),
            polygon_in_range(points@),
        ensures
            final(core).wf(),
            final(core).extends(old(core)),
            r.valid_in(final(core)),
            r.interiors@.len() == 0,
            r.color is None,
            final(core).cycles@[r.exterior@ as int].half_edges@.len() == points@.len(),
            forall|i: int|
                0 <= i < points@.len() ==> #[trigger] is_segment(
                    final(core).half_edges@[final(core).cycles@[r.exterior@ as int].half_edges@[i] as int],
                    points@[i],
                    points@[(i + 1) % points@.len() as int],
                ),
    {
        let ghost c0 = *core;
        let cycle = Cycle::polygon(points, core);
        let ghost c1 = *core;
        let exterior = core.insert_cycle(cycle);
        let no_interiors: Vec<Handle<Cycle>> = Vec::new();
        proof {
            lemma_ids_of(no_interiors@);
            lemma_extends_trans(&c0, &c1, core);
            assert(core.half_edges@ == c1.half_edges@);
        }
        Region::new(exterior, Handles::new(no_interiors), None)
    }
}

/// Half of `x`, rounded towards zero
fn half(x: i64) -> (r: i64)
    requires
        -COORD_LIMIT <= x <= COORD_LIMIT,
    ensures
        x >= 0 ==> 0 <= r <= x,
        x < 0 ==> x <= r <= 0,
        2 * r == x || 2 * r == x - 1 || 2 * r == x + 1,
{
    if x >= 0 {
        ((x as u64) / 2) as i64
    } else {
        let h = (((-x) as u64) / 2) as i64;
        -h
    }
}

/// A cuboid of size `size`: the rectangle of `size[0]` by `size[1]` around
/// the origin of the xy-plane, swept along the z axis by `size[2]`
#[verifier::spinoff_prover]
pub fn model(size: &Vector<3>, core: &mut Instance) -> (r: Handle<Solid>)
    requires
        old(core).wf(),
        -COORD_LIMIT / 2 <= size.components@[0] <= COORD_LIMIT / 2,
        -COORD_LIMIT / 2 <= size.components@[1] <= COORD_LIMIT / 2,
        in_range(size.components@[2] as int),
    ensures
        final(core).wf(),
        final(core).extends(old(core)),
        final(core).solids.contains(r),
        final(core).solids@[r@ as int].shells@.len() == 1,
        final(core).shells@[final(core).solids@[r@ as int].shells@[0] as int].faces@.len() == 6,
{
    let ghost c0 = *core;
    let (x, y, z) = (size.components[0], size.components[1], size.components[2]);
    let hx = half(x);
    let hy = half(y);
    let (left, right, bottom, top) = (-hx, x - hx, -hy, y - hy);
    let corners = vec![
        Point { coords: [left, bottom] },
        Point { coords: [right, bottom] },
        Point { coords: [right, top] },
        Point { coords: [left, top] },
    ];
    let surface = core.insert_surface(Surface { geometry: SurfaceGeometry::xy_plane() });
    let ghost c1 = *core;
    let region = Region::polygon(&corners, core);
    let ghost c2 = *core;
    let region_handle = core.insert_region(region);
    let ghost c3 = *core;
    let face = Face::new(surface, region_handle);
    let path = Vector { components: [0, 0, z] };
    proof {
        lemma_extends_trans(&c0, &c1, &c2);
        lemma_extends_trans(&c0, &c2, &c3);
        let g = core.regions@[region_handle@ as int];
        let hs = core.cycles@[g.exterior@ as int].half_edges@;
        let geometry = core.surfaces@[surface@ as int].geometry;
        assert(core.surfaces@[surface@ as int] == c1.surfaces@[surface@ as int]);
        assert(g == region);
        assert(core.cycles@[g.exterior@ as int] == c2.cycles@[g.exterior@ as int]);
        assert(core.half_edges@ == c2.half_edges@);
        assert(g.all_cycles() =~= seq![g.exterior@]);
        assert forall|i: int| 0 <= i < hs.len() implies #[trigger] edge_sweepable(geometry, core.half_edges@[hs[i] as int], path) by {
            let h = core.half_edges@[hs[i] as int];
            let a = corners@[i];
            let b = corners@[(i + 1) % 4];
            vstd::arithmetic::div_mod::lemma_mod_bound(i + 1, 4);
            assert(is_segment(h, a, b));
            assert(geometry.u.components@ == seq![1i64, 0, 0]);
            assert(geometry.v.components@ == seq![0i64, 1, 0]);
            assert(geometry.origin.coords@ == seq![0i64, 0, 0]);
        }
        assert(cycle_sweepable(core, hs, geometry, path));
        assert(path.components@ =~= seq![0i64, 0, z]);
        assert(region_sweepable(core, g, geometry, path));
        assert(edge_count_from(core, g.all_cycles(), 1) == 0);
        assert(region_edge_count(core, g) == 4);
    }
    let shell = face.sweep(&path, core);
    let ghost c4 = *core;
    let shell_handle = core.insert_shell(shell);
    let ghost c5 = *core;
    let shells = vec![shell_handle];
    proof {
        lemma_extends_trans(&c0, &c3, &c4);
        lemma_extends_trans(&c0, &c4, &c5);
        lemma_ids_of(shells@);
    }
    let solid = core.insert_solid(Solid { shells: Handles::new(shells) });
    proof {
        lemma_extends_trans(&c0, &c5, core);
    }
    solid
}

} // verus!
