use crate::geometry::{in_range, surface_in_range, surface_point, triple_in_range, Point, SurfaceGeometry};
use crate::handle::Handle;
use crate::handles::lemma_ids_of;
use crate::objects::{Cycle, Face, Instance, Shell, Solid};
use crate::sibling::face_cycles;
use crate::winding::positions_of;
use vstd::prelude::*;

verus! {

/// The point of `surface` at the surface coordinates `p`, as a point in 3D
pub open spec fn global_point(surface: SurfaceGeometry, p: (int, int)) -> (int, int, int) {
    surface_point(surface, p.0, p.1)
}

/// Whether every point of the cycle lies, on `surface` and in 3D, within the
/// modelling range
pub open spec fn cycle_approximable(c: &Instance, cycle: Seq<usize>, surface: SurfaceGeometry) -> bool {
    &&& surface_in_range(surface)
    &&& forall|i: int|
        0 <= i < cycle.len() ==> in_range(#[trigger] positions_of(c, cycle)[i].0) && in_range(positions_of(c, cycle)[i].1)
            && triple_in_range(global_point(surface, positions_of(c, cycle)[i]))
}

/// The coordinates of a point in 3D
pub open spec fn coords_of(p: Point<3>) -> (int, int, int) {
    (p.coords@[0] as int, p.coords@[1] as int, p.coords@[2] as int)
}

/// The approximation of a face: one closed polyline per cycle, the exterior
/// first
#[derive(Debug)]
pub struct FaceApprox {
    /// The polyline of the exterior cycle
    pub exterior: Vec<Point<3>>,
    /// The polylines of the interior cycles
    pub interiors: Vec<Vec<Point<3>>>,
}

/// Whether `pts` is the polyline through the start points of the
/// half-edges `hs`, on `surface`, in 3D
pub open spec fn polyline_of(c: &Instance, hs: Seq<usize>, surface: SurfaceGeometry, pts: Seq<Point<3>>) -> bool {
    &&& pts.len() == hs.len()
    &&& forall|i: int| 0 <= i < pts.len() ==> #[trigger] coords_of(pts[i]) == global_point(surface, positions_of(c, hs)[i])
}

/// Whether `a` approximates the face `face`: one polyline for its exterior
/// cycle, then one for each interior cycle, in order, on the face's surface
pub open spec fn approximates(c: &Instance, face: Face, a: FaceApprox) -> bool {
    let g = c.regions@[face.region@ as int];
    let s = c.surfaces@[face.surface@ as int].geometry;
    &&& polyline_of(c, c.cycles@[g.exterior@ as int].half_edges@, s, a.exterior@)
    &&& a.interiors@.len() == g.interiors@.len()
    &&& forall|j: int|
        0 <= j < g.interiors@.len() ==> #[trigger] polyline_of(c, c.cycles@[g.interiors@[j] as int].half_edges@, s, a.interiors@[j]@)
}

/// The faces of the shells `shells[..k]`, shell by shell, in order
pub open spec fn faces_of_shells(c: &Instance, shells: Seq<usize>, k: int) -> Seq<usize>
    decreases k,
{
    if k <= 0 {
        Seq::empty()
    } else {
        faces_of_shells(c, shells, k - 1) + c.shells@[shells[k - 1] as int].faces@
    }
}

impl Cycle {
    /// Approximate the cycle on `surface` by the closed polyline through the
    /// start points of its half-edges, in 3D
    ///
    /// Every half-edge is straight, so its two end points approximate it
    /// exactly; the end point of one is the start point of the next.
    pub fn approx(&self, surface: &SurfaceGeometry, core: &Instance) -> (r: Vec<Point<3>>)
        requires
            self.valid_in(core),
            cycle_approximable(core, self.half_edges@, *surface),
        ensures
            r@.len() == self.half_edges@.len(),
            forall|i: int|
                0 <= i < r@.len() ==> #[trigger] coords_of(r@[i]) == global_point(*surface, positions_of(core, self.half_edges@)[i]),
    {
        let hs = self.half_edges.iter();
        let ghost ps = positions_of(core, self.half_edges@);
        proof {
            lemma_ids_of(hs@);
        }
        let mut r: Vec<Point<3>> = Vec::new();
        let mut i: usize = 0;
        while i < hs.len()
            invariant
                self.valid_in(core),
                cycle_approximable(core, self.half_edges@, *surface),
                ps == positions_of(core, self.half_edges@),
                crate::handles::ids_of(hs@) == self.half_edges@,
                i <= hs@.len(),
                r@.len() == i,
                forall|k: int| 0 <= k < i ==> #[trigger] coords_of(r@[k]) == global_point(*surface, ps[k]),
            decreases hs@.len() - i,
        {
            proof {
                lemma_ids_of(hs@);
                assert(hs@[i as int]@ == self.half_edges@[i as int]);
                assert(self.half_edges@[i as int] < core.half_edges@.len());
                assert(in_range(positions_of(core, self.half_edges@)[i as int].0));
                assert(in_range(ps[i as int].0) && in_range(ps[i as int].1));
            }
            let (u, v) = core.start_position_of(&hs[i]);
            let (u, v) = (u as i64, v as i64);
            let o = &surface.origin.coords;
            let a = &surface.u.components;
            let b = &surface.v.components;
            let p = Point {
                coords: [
                    crate::geometry::affine_component(o[0], a[0], u, b[0], v),
                    crate::geometry::affine_component(o[1], a[1], u, b[1], v),
                    crate::geometry::affine_component(o[2], a[2], u, b[2], v),
                ],
            };
            r.push(p);
            i += 1;
        }
        r
    }
}

/// Whether every cycle of the face can be approximated on its surface
pub open spec fn face_approximable(c: &Instance, face: Face) -> bool {
    let cs = c.regions@[face.region@ as int].all_cycles();
    forall|j: int|
        0 <= j < cs.len() ==> #[trigger] cycle_approximable(
            c,
            c.cycles@[cs[j] as int].half_edges@,
            c.surfaces@[face.surface@ as int].geometry,
        )
}

impl Face {
    /// Approximate the face by one polyline per cycle
    pub fn approx(&self, core: &Instance) -> (r: FaceApprox)
        requires
            core.wf(),
            self.valid_in(core),
            face_approximable(core, *self),
        ensures
            approximates(core, *self, r),
    {
        let surface = &core.surfaces.get(&self.surface).geometry;
        let region = core.regions.get(&self.region);
        proof {
            assert(region.valid_in(core));
            assert(region.all_cycles()[0] == region.exterior@);
            assert(core.cycles@[region.exterior@ as int].valid_in(core));
        }
        let exterior = core.cycles.get(&region.exterior).approx(surface, core);
        let interiors = region.interiors.iter();
        proof {
            lemma_ids_of(interiors@);
        }
        let mut polylines: Vec<Vec<Point<3>>> = Vec::new();
        let mut i: usize = 0;
        while i < interiors.len()
            invariant
                core.wf(),
                region.valid_in(core),
                face_approximable(core, *self),
                *region == core.regions@[self.region@ as int],
                *surface == core.surfaces@[self.surface@ as int].geometry,
                crate::handles::ids_of(interiors@) == region.interiors@,
                i <= interiors@.len(),
                polylines@.len() == i,
                forall|k: int|
                    0 <= k < i ==> #[trigger] polyline_of(core, core.cycles@[region.interiors@[k] as int].half_edges@, *surface, polylines@[k]@),
            decreases interiors@.len() - i,
        {
            proof {
                lemma_ids_of(interiors@);
                assert(region.all_cycles()[i + 1] == region.interiors@[i as int]);
                assert(core.cycles@[region.interiors@[i as int] as int].valid_in(core));
            }
            let line = core.cycles.get(&interiors[i]).approx(surface, core);
            polylines.push(line);
            i += 1;
        }
        let r = FaceApprox { exterior, interiors: polylines };
        proof {
            assert forall|j: int| 0 <= j < region.interiors@.len() implies #[trigger] polyline_of(
                core,
                core.cycles@[region.interiors@[j] as int].half_edges@,
                *surface,
                r.interiors@[j]@,
            ) by {
                assert(polylines@[j] == r.interiors@[j]);
            }
        }
        r
    }
}

impl Shell {
    /// Approximate every face of the shell, in order
    pub fn approx(&self, core: &Instance) -> (r: Vec<FaceApprox>)
        requires
            core.wf(),
            self.valid_in(core),
            forall|i: int| 0 <= i < self.faces@.len() ==> #[trigger] face_approximable(core, core.faces@[self.faces@[i] as int]),
        ensures
            r@.len() == self.faces@.len(),
            forall|i: int| 0 <= i < r@.len() ==> #[trigger] approximates(core, core.faces@[self.faces@[i] as int], r@[i]),
    {
        let faces = self.faces.iter();
        proof {
            lemma_ids_of(faces@);
        }
        let mut r: Vec<FaceApprox> = Vec::new();
        let mut i: usize = 0;
        while i < faces.len()
            invariant
                core.wf(),
                self.valid_in(core),
                forall|i: int| 0 <= i < self.faces@.len() ==> #[trigger] face_approximable(core, core.faces@[self.faces@[i] as int]),
                crate::handles::ids_of(faces@) == self.faces@,
                i <= faces@.len(),
                r@.len() == i,
                forall|k: int| 0 <= k < i ==> #[trigger] approximates(core, core.faces@[self.faces@[k] as int], r@[k]),
            decreases faces@.len() - i,
        {
            proof {
                lemma_ids_of(faces@);
                assert(self.faces@[i as int] < core.faces@.len());
                assert(core.faces@[self.faces@[i as int] as int].valid_in(core));
            }
            let face = core.faces.get(&faces[i]);
            assert(faces@[i as int]@ == self.faces@[i as int]);
            r.push(face.approx(core));
            i += 1;
        }
        r
    }
}

impl Solid {
    /// Approximate every face of every shell of the solid, shell by shell
    pub fn approx(&self, core: &Instance) -> (r: Vec<FaceApprox>)
        requires
            core.wf(),
            self.valid_in(core),
            forall|i: int, j: int|
                0 <= i < self.shells@.len() && 0 <= j < core.shells@[self.shells@[i] as int].faces@.len()
                    ==> #[trigger] face_approximable(core, core.faces@[core.shells@[self.shells@[i] as int].faces@[j] as int]),
        ensures
            r@.len() == faces_of_shells(core, self.shells@, self.shells@.len() as int).len(),
            forall|i: int|
                0 <= i < r@.len() ==> #[trigger] approximates(
                    core,
                    core.faces@[faces_of_shells(core, self.shells@, self.shells@.len() as int)[i] as int],
                    r@[i],
                ),
    {
        let shells = self.shells.iter();
        proof {
            lemma_ids_of(shells@);
        }
        let mut r: Vec<FaceApprox> = Vec::new();
        let mut i: usize = 0;
        while i < shells.len()
            invariant
                core.wf(),
                self.valid_in(core),
                forall|i: int, j: int|
                    0 <= i < self.shells@.len() && 0 <= j < core.shells@[self.shells@[i] as int].faces@.len()
                        ==> #[trigger] face_approximable(core, core.faces@[core.shells@[self.shells@[i] as int].faces@[j] as int]),
                crate::handles::ids_of(shells@) == self.shells@,
                i <= shells@.len(),
                r@.len() == faces_of_shells(core, self.shells@, i as int).len(),
                forall|k: int|
                    0 <= k < r@.len() ==> #[trigger] approximates(core, core.faces@[faces_of_shells(core, self.shells@, i as int)[k] as int], r@[k]),
            decreases shells@.len() - i,
        {
            proof {
                lemma_ids_of(shells@);
                assert(self.shells@[i as int] < core.shells@.len());
                assert(core.shells@[self.shells@[i as int] as int].valid_in(core));
            }
            let shell = core.shells.get(&shells[i]);
            let mut approximations = shell.approx(core);
            let ghost before = r@;
            let ghost added = approximations@;
            r.append(&mut approximations);
            proof {
                assert(shells@[i as int]@ == self.shells@[i as int]);
                let fs = faces_of_shells(core, self.shells@, i as int);
                let more = core.shells@[self.shells@[i as int] as int].faces@;
                assert(faces_of_shells(core, self.shells@, i + 1) == fs + more);
                assert forall|k: int| 0 <= k < r@.len() implies #[trigger] approximates(core, core.faces@[(fs + more)[k] as int], r@[k]) by {
                    if k < before.len() {
                        assert(r@[k] == before[k]);
                    } else {
                        assert(r@[k] == added[k - before.len()]);
                    }
                }
            }
            i += 1;
        }
        r
    }
}

} // verus!
