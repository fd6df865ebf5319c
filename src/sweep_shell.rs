use crate::geometry::{normal_dot, Vector};
use crate::handle::Handle;
use crate::handles::{ids_of, lemma_ids_of, position_of, splice, Handles};
use crate::objects::{lemma_extends_keeps_valid, Cycle, Face, Instance, Region, Shell};
use crate::replace::{lemma_extends_refl, lemma_extends_trans};
use crate::reverse::{region_reversal, reverse_stored_cycle};
use crate::sweep::{
    cycle_sweepable, edge_count_from, edge_sweepable, insert_faces, lemma_reversal_sweepable,
    numbered_from, region_edge_count, region_sweepable, SweepCache,
};
use vstd::prelude::*;

verus! {

/// What sweeping the face `face` of a shell along `path` added in `after`:
/// `added` are the side faces of the face's exterior half-edges, in their
/// order, each with that half-edge's path, boundary and curve, then the top
/// face, on the face's surface moved by `path`, with the face's color
pub open spec fn shell_face_swept(before: &Instance, after: &Instance, face: usize, path: Vector<3>, added: Seq<usize>) -> bool {
    let f = before.faces@[face as int];
    let g = before.regions@[f.region@ as int];
    let hs = before.cycles@[g.exterior@ as int].half_edges@;
    let n = hs.len() as int;
    let geometry = before.surfaces@[f.surface@ as int].geometry;
    let t = after.faces@[added[n] as int];
    &&& added.len() == n + 1
    &&& forall|k: int|
        0 <= k < n ==> #[trigger] crate::sweep::is_side_of(
            after,
            after.faces@[added[k] as int],
            before.half_edges@[hs[k] as int].path,
            before.half_edges@[hs[k] as int].boundary@,
            before.half_edges@[hs[k] as int].curve@,
            geometry,
            path,
        )
    &&& crate::transform::is_translation(after.surfaces@[t.surface@ as int], before.surfaces@[f.surface@ as int], path)
    &&& after.regions@[t.region@ as int].color == g.color
}

/// Why a sweep cannot be made
#[derive(Clone, Copy, Debug, PartialEq, Eq)]
pub enum SweepError {
    /// Sweeping a face of a shell that has interior cycles is not supported
    /// yet
    InteriorsNotSupported,
}

impl Shell {
    /// Sweep the face `face` of the shell along `path`, extending the shell:
    /// the face is removed, and the side faces and the top face are added
    ///
    /// Sweeping a face with interior cycles this way is not supported yet,
    /// and reported as such.
    #[verifier::spinoff_prover]
    pub fn sweep_face_of_shell(&self, face: Handle<Face>, path: &Vector<3>, core: &mut Instance) -> (r: Result<Shell, SweepError>)
        requires
            old(core).wf(),
            self.valid_in(old(core)),
            old(core).faces.contains(face),
            region_sweepable(
                old(core),
                old(core).regions@[old(core).faces@[face@ as int].region@ as int],
                old(core).surfaces@[old(core).faces@[face@ as int].surface@ as int].geometry,
                *path,
            ),
        ensures
            final(core).wf(),
            final(core).extends(old(core)),
            (r is Err) <==> old(core).regions@[old(core).faces@[face@ as int].region@ as int].interiors@.len() > 0,
            r is Err ==> r == Err::<Shell, SweepError>(SweepError::InteriorsNotSupported),
            r is Err ==> *final(core) == *old(core),
            r matches Ok(s) ==> ({
                let kept = if self.faces@.contains(face@) {
                    splice(self.faces@, position_of(self.faces@, face@), Seq::empty())
                } else {
                    self.faces@
                };
                let n = old(core).cycles@[old(core).regions@[old(core).faces@[face@ as int].region@ as int].exterior@ as int].half_edges@.len();
                &&& s.valid_in(final(core))
                &&& s.faces@.len() == kept.len() + n + 1
                &&& s.faces@.subrange(0, kept.len() as int) == kept
                &&& numbered_from(s.faces@.subrange(kept.len() as int, s.faces@.len() as int), final(core).faces@.len() - (n + 1))
                &&& shell_face_swept(old(core), final(core), face@, *path, s.faces@.subrange(kept.len() as int, s.faces@.len() as int))
            }),
    {
        let ghost c0 = *core;
        let stored_face = *core.faces.get(&face);
        proof {
            assert(c0.faces@[face@ as int].valid_in(&c0));
            assert(c0.regions@[stored_face.region@ as int].valid_in(&c0));
        }
        let stored = core.regions.get(&stored_face.region);
        if !stored.interiors.is_empty() {
            proof {
                lemma_extends_refl(core);
            }
            return Err(SweepError::InteriorsNotSupported);
        }
        let color = stored.color;
        let bottom_exterior = stored.exterior;
        let ghost g = c0.regions@[stored_face.region@ as int];
        let surface = *core.surfaces.get(&stored_face.surface);
        let mut cache = SweepCache::new();
        let exterior = reverse_stored_cycle(core, &bottom_exterior);
        let ghost c1 = *core;
        let no_interiors: Vec<Handle<Cycle>> = Vec::new();
        proof {
            lemma_ids_of(no_interiors@);
        }
        let region = Region::new(exterior, Handles::new(no_interiors), color);
        proof {
            let hs = c0.cycles@[g.exterior@ as int].half_edges@;
            assert(g.all_cycles()[0] == g.exterior@);
            assert(cycle_sweepable(&c0, hs, surface.geometry, *path));
            assert(core.cycles@[g.exterior@ as int] == c0.cycles@[g.exterior@ as int]);
            assert forall|k: int| 0 <= k < hs.len() implies #[trigger] edge_sweepable(surface.geometry, core.half_edges@[hs[k] as int], *path) by {
                assert(c0.cycles@[g.exterior@ as int].valid_in(&c0));
                assert(core.half_edges@[hs[k] as int] == c0.half_edges@[hs[k] as int]);
                assert(edge_sweepable(surface.geometry, c0.half_edges@[hs[k] as int], *path));
            }
            lemma_reversal_sweepable(core, core.cycles@[exterior@ as int].half_edges@, hs, surface.geometry, *path);
            assert(region.all_cycles() =~= seq![exterior@]);
            assert(edge_count_from(core, region.all_cycles(), 1) == 0);
            assert(region.valid_in(core));
            assert(core.cycles@[exterior@ as int].half_edges@.len() == hs.len());
        }
        let swept = region.sweep_region(&surface, path, &mut cache, core);
        let ghost c2 = *core;
        let ghost sides = swept.side_faces@;
        let ghost top = swept.top_face;
        proof {
            lemma_extends_keeps_valid(c1, c2);
        }
        let all_faces = swept.all_faces();
        let ghost all = all_faces@;
        let handles = insert_faces(all_faces, core);
        let ghost c3 = *core;
        let remaining = self.remove_face(&face);
        proof {
            lemma_extends_trans(&c0, &c1, &c2);
            lemma_extends_trans(&c0, &c2, &c3);
            lemma_ids_of(handles@);
            use_type_invariant(&remaining.faces);
            let kept = remaining.faces@;
            let more = ids_of(handles@);
            assert(forall|k: int| 0 <= k < kept.len() ==> #[trigger] kept[k] < c0.faces@.len()) by {
                if self.faces@.contains(face@) {
                    let p = position_of(self.faces@, face@);
                    crate::handles::lemma_splice_index(self.faces@, p, Seq::empty());
                    assert forall|k: int| 0 <= k < kept.len() implies #[trigger] kept[k] < c0.faces@.len() by {
                        if k < p {
                            assert(kept[k] == self.faces@[k]);
                        } else {
                            assert(kept[(k + 1) - 1 + 0] == self.faces@[k + 1]);
                        }
                    }
                }
            }
            assert forall|k: int| 0 <= k < more.len() ==> !kept.contains(#[trigger] more[k]) by {
                if 0 <= k < more.len() && kept.contains(more[k]) {
                    let m = choose|m: int| 0 <= m < kept.len() && kept[m] == more[k];
                    assert(kept[m] < c0.faces@.len());
                    assert(handles@[k]@ == c2.faces@.len() + k);
                }
            }
            assert forall|x: int, y: int| 0 <= x < more.len() && 0 <= y < more.len() && x != y implies more[x] != more[y] by {
                assert(handles@[x]@ == c2.faces@.len() + x);
                assert(handles@[y]@ == c2.faces@.len() + y);
            }
            crate::handles::lemma_append_distinct(kept, more);
        }
        let result = remaining.add_faces(handles);
        proof {
            let kept = remaining.faces@;
            let more = ids_of(handles@);
            assert(result.faces@.subrange(0, kept.len() as int) =~= kept);
            assert(result.faces@.subrange(kept.len() as int, result.faces@.len() as int) =~= more);
            assert forall|k: int| 0 <= k < result.faces@.len() implies #[trigger] result.faces@[k] < core.faces@.len() by {
                if k < kept.len() {
                    assert(result.faces@[k] == kept[k]);
                } else {
                    assert(result.faces@[k] == more[k - kept.len()]);
                    assert(handles@[k - kept.len()]@ == c2.faces@.len() + (k - kept.len()));
                }
            }
            assert(region_edge_count(&c1, region) == core.cycles@[exterior@ as int].half_edges@.len());
            // the added faces: the side faces, then the top face
            let hs = c0.cycles@[g.exterior@ as int].half_edges@;
            let n = hs.len() as int;
            let rs = c1.cycles@[exterior@ as int].half_edges@;
            let added = result.faces@.subrange(kept.len() as int, result.faces@.len() as int);
            assert(c1.cycles@[g.exterior@ as int] == c0.cycles@[g.exterior@ as int]);
            assert(c0.cycles@[g.exterior@ as int].valid_in(&c0));
            assert(region.all_cycles()[0] == exterior@);
            assert(crate::sweep::side_base(&c1, region.all_cycles(), 0) == 0);
            assert forall|k: int| 0 <= k < n implies #[trigger] crate::sweep::is_side_of(
                core,
                core.faces@[added[k] as int],
                c0.half_edges@[hs[k] as int].path,
                c0.half_edges@[hs[k] as int].boundary@,
                c0.half_edges@[hs[k] as int].curve@,
                surface.geometry,
                *path,
            ) by {
                let i = n - 1 - k;
                assert(hs[n - 1 - i] == hs[k]);
                assert(crate::reverse::is_reversal(c1.half_edges@[rs[i] as int], c1.half_edges@[hs[n - 1 - i] as int], c1.half_edges@[hs[(n - i) % n] as int].start_vertex@));
                assert(crate::sweep::is_reversed_side(&c2, sides[0 + k], c1.half_edges@[rs[n - 1 - k] as int], surface.geometry, *path));
                assert(hs[k] < c0.half_edges@.len());
                assert(c1.half_edges@[hs[k] as int] == c0.half_edges@[hs[k] as int]);
                let e = c0.half_edges@[hs[k] as int];
                assert(seq![seq![e.boundary@[1], e.boundary@[0]][1], seq![e.boundary@[1], e.boundary@[0]][0]] =~= e.boundary@);
                assert(added[k] == more[k]);
                assert(more[k] == handles@[k]@);
                assert(core.faces@[handles@[k]@ as int] == all[k]);
                assert(all[k] == sides[k]);
            }
            assert(added[n] == handles@[n]@);
            assert(core.faces@[handles@[n]@ as int] == all[n]);
            assert(all[n] == top);
            assert(surface == c0.surfaces@[stored_face.surface@ as int]);
            assert(shell_face_swept(&c0, core, face@, *path, added));
        }
        Ok(result)
    }
}

/// The bottom face of a sweep from `face`: the face itself where the sweep
/// runs against its normal, the reversed face where it runs along it
pub fn create_bottom_face(face: &Face, is_negative_sweep: bool, core: &mut Instance) -> (r: Handle<Face>)
    requires
        old(core).wf(),
        face.valid_in(old(core)),
    ensures
        final(core).wf(),
        final(core).extends(old(core)),
        r@ == final(core).faces@.len() - 1,
        final(core).faces@[r@ as int].surface@ == face.surface@,
        is_negative_sweep ==> final(core).faces@[r@ as int].region@ == face.region@,
        !is_negative_sweep ==> region_reversal(
            final(core),
            final(core).regions@[final(core).faces@[r@ as int].region@ as int],
            final(core).regions@[face.region@ as int],
        ),
{
    let ghost c0 = *core;
    if is_negative_sweep {
        core.insert_face(*face)
    } else {
        let reversed = face.reverse(core);
        let ghost c1 = *core;
        let r = core.insert_face(reversed);
        proof {
            lemma_extends_trans(&c0, &c1, core);
            assert(core.regions@ == c1.regions@);
            assert(core.cycles@ == c1.cycles@);
            assert(core.half_edges@ == c1.half_edges@);
            assert(core.faces@[r@ as int] == reversed);
            crate::reverse::lemma_region_reversal_same(&c1, core, c1.regions@[reversed.region@ as int], c1.regions@[face.region@ as int]);
        }
        r
    }
}

/// Whether a region can be swept does not change once more is stored
proof fn lemma_region_sweepable_extends(c1: &Instance, c2: &Instance, g: Region, surface: crate::geometry::SurfaceGeometry, path: Vector<3>)
    requires
        c1.wf(),
        c2.extends(c1),
        g.valid_in(c1),
        region_sweepable(c1, g, surface, path),
    ensures
        region_sweepable(c2, g, surface, path),
        region_edge_count(c2, g) == region_edge_count(c1, g),
{
    let cs = g.all_cycles();
    assert forall|j: int| 0 <= j < cs.len() implies #[trigger] cs[j] < c1.cycles@.len() by {
        if j > 0 {
            assert(cs[j] == g.interiors@[j - 1]);
        }
    }
    assert forall|j: int| 0 <= j < cs.len() implies #[trigger] cycle_sweepable(c2, c2.cycles@[cs[j] as int].half_edges@, surface, path) by {
        assert(cs[j] < c1.cycles@.len());
        assert(c2.cycles@[cs[j] as int] == c1.cycles@[cs[j] as int]);
        assert(c1.cycles@[cs[j] as int].valid_in(c1));
        let hs = c1.cycles@[cs[j] as int].half_edges@;
        assert(cycle_sweepable(c1, hs, surface, path));
        assert forall|i: int| 0 <= i < hs.len() implies #[trigger] edge_sweepable(surface, c2.half_edges@[hs[i] as int], path) by {
            assert(c2.half_edges@[hs[i] as int] == c1.half_edges@[hs[i] as int]);
            assert(edge_sweepable(surface, c1.half_edges@[hs[i] as int], path));
        }
    }
    crate::sweep::lemma_edge_count_extends(c1, c2, cs, 0);
}

/// A reversal between stored regions stays one once more is stored
proof fn lemma_region_reversal_extends(c1: &Instance, c2: &Instance, r: Region, g: Region)
    requires
        c1.wf(),
        c2.extends(c1),
        r.valid_in(c1),
        g.valid_in(c1),
        region_reversal(c1, r, g),
    ensures
        region_reversal(c2, r, g),
{
    crate::reverse::lemma_cycle_reversal_extends(c1, c2, r.exterior@, g.exterior@);
    assert forall|i: int| 0 <= i < g.interiors@.len() implies #[trigger] crate::reverse::cycle_reversal(
        c2,
        c2.cycles@[r.interiors@[i] as int].half_edges@,
        c2.cycles@[g.interiors@[i] as int].half_edges@,
    ) by {
        assert(crate::reverse::cycle_reversal(
            c1,
            c1.cycles@[r.interiors@[i] as int].half_edges@,
            c1.cycles@[g.interiors@[i] as int].half_edges@,
        ));
        crate::reverse::lemma_cycle_reversal_extends(c1, c2, r.interiors@[i], g.interiors@[i]);
    }
}

/// Whether the bottom face `bottom` of a sweep of `face` along `path` has
/// the orientation that makes the swept shell face outwards: where `path`
/// points against the normal of the face's surface, the bottom is the face
/// itself; otherwise it is the face reversed
pub open spec fn bottom_oriented(c: &Instance, bottom: Face, face: Face, path: Vector<3>) -> bool {
    &&& bottom.surface@ == face.surface@
    &&& normal_dot(c.surfaces@[face.surface@ as int].geometry, path) < 0 ==> bottom.region@ == face.region@
    &&& normal_dot(c.surfaces@[face.surface@ as int].geometry, path) >= 0 ==> region_reversal(
        c,
        c.regions@[bottom.region@ as int],
        c.regions@[face.region@ as int],
    )
}

impl Face {
    /// Sweep the face along `path` into a shell whose faces all face
    /// outwards: the bottom face (the face, reversed where `path` points
    /// along its normal), the side faces, and the top face
    #[verifier::spinoff_prover]
    pub fn sweep(&self, path: &Vector<3>, core: &mut Instance) -> (r: Shell)
        requires
            old(core).wf(),
            self.valid_in(old(core)),
            region_sweepable(
                old(core),
                old(core).regions@[self.region@ as int],
                old(core).surfaces@[self.surface@ as int].geometry,
                *path,
            ),
        ensures
            final(core).wf(),
            final(core).extends(old(core)),
            r.valid_in(final(core)),
            r.faces@.len() == 2 + region_edge_count(old(core), old(core).regions@[self.region@ as int]),
            bottom_oriented(final(core), final(core).faces@[r.faces@[0] as int], *self, *path),
            crate::sweep::face_swept(final(core), final(core), r.faces@[0], *path, r.faces@),
    {
        let ghost c0 = *core;
        let geometry = core.surfaces.get(&self.surface).geometry;
        let is_negative = geometry.points_against_normal(path);
        let bottom = create_bottom_face(self, is_negative, core);
        let ghost c1 = *core;
        let ghost b = c1.faces@[bottom@ as int];
        let ghost g = c0.regions@[self.region@ as int];
        proof {
            assert(c0.regions@[self.region@ as int].valid_in(&c0));
            lemma_region_sweepable_extends(&c0, &c1, g, geometry, *path);
            assert(c1.regions@[self.region@ as int] == g);
            assert(b.valid_in(&c1));
            if !is_negative {
                crate::sweep::lemma_region_reversal_sweep(&c1, c1.regions@[b.region@ as int], g, geometry, *path);
            }
            assert(c1.surfaces@[b.surface@ as int] == c0.surfaces@[self.surface@ as int]);
        }
        let mut cache = SweepCache::new();
        let r = bottom.sweep_face(path, &mut cache, core);
        proof {
            crate::sweep::lemma_face_swept_later(&c1, core, bottom@, *path, r.faces@);
            lemma_extends_trans(&c0, &c1, core);
            assert(core.faces@[bottom@ as int] == b);
            assert(core.surfaces@[self.surface@ as int] == c0.surfaces@[self.surface@ as int]);
            if !is_negative {
                assert(c1.regions@[b.region@ as int].valid_in(&c1));
                lemma_region_reversal_extends(&c1, core, c1.regions@[b.region@ as int], g);
                assert(core.regions@[b.region@ as int] == c1.regions@[b.region@ as int]);
                assert(core.regions@[self.region@ as int] == g);
            }
        }
        r
    }
}

/// Sweeping one face along a path and along its opposite gives bottoms of
/// opposite orientation: where the path is not parallel to the face's
/// surface, one of the two bottoms is the face itself and the other the
/// face reversed.
pub proof fn lemma_opposite_sweeps_swap_bottom(c: &Instance, face: Face, up: Vector<3>, down: Vector<3>, b_up: Face, b_down: Face)
    requires
        forall|i: int| 0 <= i < 3 ==> #[trigger] down.components@[i] == -up.components@[i],
        normal_dot(c.surfaces@[face.surface@ as int].geometry, up) != 0,
        bottom_oriented(c, b_up, face, up),
        bottom_oriented(c, b_down, face, down),
    ensures
        normal_dot(c.surfaces@[face.surface@ as int].geometry, down) == -normal_dot(c.surfaces@[face.surface@ as int].geometry, up),
        (b_up.region@ == face.region@ && region_reversal(c, c.regions@[b_down.region@ as int], c.regions@[face.region@ as int]))
            || (b_down.region@ == face.region@ && region_reversal(c, c.regions@[b_up.region@ as int], c.regions@[face.region@ as int])),
{
    let g = c.surfaces@[face.surface@ as int].geometry;
    let n = crate::geometry::cross3(g.u, g.v);
    assert(down.components@[0] == -up.components@[0]);
    assert(down.components@[1] == -up.components@[1]);
    assert(down.components@[2] == -up.components@[2]);
    assert(normal_dot(g, down) == -normal_dot(g, up)) by (nonlinear_arith)
        requires
            normal_dot(g, down) == n.0 * down.components@[0] + n.1 * down.components@[1] + n.2 * down.components@[2],
            normal_dot(g, up) == n.0 * up.components@[0] + n.1 * up.components@[1] + n.2 * up.components@[2],
            down.components@[0] == -up.components@[0],
            down.components@[1] == -up.components@[1],
            down.components@[2] == -up.components@[2],
    ;
}

} // verus!
