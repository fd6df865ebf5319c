use crate::geometry::{
    normal_dot, in_range, surface_in_range, surface_point, surface_vector, triple_in_range, vector_in_range,
    Point, SurfaceGeometry, SurfacePath, Vector,
};
use crate::handle::Handle;
use crate::handles::{ids_of, is_distinct, lemma_ids_of, Handles};
use crate::objects::{all_below, Color, Curve, Cycle, Face, HalfEdge, Instance, Region, Shell, Surface, Vertex};
use crate::replace::{lemma_extends_refl, lemma_extends_trans};
use crate::transform::is_translation;
use crate::reverse::{cycle_reversal, is_reversal, region_reversal, reverse_stored_cycle};
use crate::handles::{position_of, splice};
use crate::objects::lemma_extends_keeps_valid;
use std::collections::HashMap;
use vstd::prelude::*;

verus! {

broadcast use vstd::std_specs::hash::group_hash_axioms;

/// Memory of a sweep: for each bottom vertex already swept, the vertical
/// curve through it and the vertex above it
///
/// Side faces of neighbouring half-edges meet at the vertical edge over
/// their shared vertex; the cache makes both use the same curve and top
/// vertex there.
#[derive(Debug)]
pub struct SweepCache {
    /// The vertical curve over each swept bottom vertex
    pub curves: HashMap<usize, Handle<Curve>>,
    /// The top vertex over each swept bottom vertex
    pub vertices: HashMap<usize, Handle<Vertex>>,
}

impl SweepCache {
    /// An empty cache
    pub fn new() -> (r: SweepCache)
        ensures
            r.curves@ == Map::<usize, Handle<Curve>>::empty(),
            r.vertices@ == Map::<usize, Handle<Vertex>>::empty(),
    {
        SweepCache { curves: HashMap::new(), vertices: HashMap::new() }
    }

    /// Whether everything the cache holds is stored in `core`
    pub open spec fn valid_in(&self, core: &Instance) -> bool {
        &&& forall|k: usize| #[trigger] self.curves@.contains_key(k) ==> self.curves@[k]@ < core.curves@.len()
        &&& forall|k: usize| #[trigger] self.vertices@.contains_key(k) ==> self.vertices@[k]@ < core.vertices@.len()
    }

    /// `self` holds every entry of `earlier`, unchanged
    pub open spec fn extends(&self, earlier: &SweepCache) -> bool {
        &&& forall|k: usize| #[trigger] earlier.curves@.contains_key(k) ==> self.curves@.contains_key(k) && self.curves@[k] == earlier.curves@[k]
        &&& forall|k: usize| #[trigger] earlier.vertices@.contains_key(k) ==> self.vertices@.contains_key(k) && self.vertices@[k] == earlier.vertices@[k]
    }
}

/// Whether sweeping the half-edge `e` of a face on `surface` along `path`
/// computes within the modelling range
pub open spec fn edge_sweepable(surface: SurfaceGeometry, e: HalfEdge, path: Vector<3>) -> bool {
    &&& surface_in_range(surface)
    &&& vector_in_range(path)
    &&& in_range(e.path.origin.coords@[0] as int)
    &&& in_range(e.path.origin.coords@[1] as int)
    &&& in_range(e.path.direction.components@[0] as int)
    &&& in_range(e.path.direction.components@[1] as int)
    &&& triple_in_range(surface_point(surface, e.path.origin.coords@[0] as int, e.path.origin.coords@[1] as int))
    &&& triple_in_range(surface_vector(surface, e.path.direction.components@[0] as int, e.path.direction.components@[1] as int))
}

/// Whether `g` is the plane that the line `p` of `surface` sweeps out along
/// `offset`: its origin and u axis are those of the line, in 3D, and its v
/// axis is `offset`
pub open spec fn is_swept_surface(g: SurfaceGeometry, surface: SurfaceGeometry, p: SurfacePath, offset: Vector<3>) -> bool {
    &&& (g.origin.coords@[0] as int, g.origin.coords@[1] as int, g.origin.coords@[2] as int)
        == surface_point(surface, p.origin.coords@[0] as int, p.origin.coords@[1] as int)
    &&& (g.u.components@[0] as int, g.u.components@[1] as int, g.u.components@[2] as int)
        == surface_vector(surface, p.direction.components@[0] as int, p.direction.components@[1] as int)
    &&& g.v == offset
}

/// Whether `face` is the side face that sweeping, along `offset`, a
/// half-edge on `surface` with path `p`, boundary `boundary` and curve
/// `curve` produces: it lies on the plane that the path sweeps out, and its
/// cycle of four half-edges starts with the swept half-edge's own boundary
/// on its curve
pub open spec fn is_side_of(
    c: &Instance,
    face: Face,
    p: SurfacePath,
    boundary: Seq<i64>,
    curve: usize,
    surface: SurfaceGeometry,
    offset: Vector<3>,
) -> bool {
    let hs = c.cycles@[c.regions@[face.region@ as int].exterior@ as int].half_edges@;
    &&& is_swept_surface(c.surfaces@[face.surface@ as int].geometry, surface, p, offset)
    &&& hs.len() == 4
    &&& c.half_edges@[hs[0] as int].curve@ == curve
    &&& c.half_edges@[hs[0] as int].boundary@ == boundary
}

/// Whether `face` is the side face of sweeping the half-edge `e` after it
/// was reversed: the same path and curve, the boundary swapped
pub open spec fn is_reversed_side(c: &Instance, face: Face, e: HalfEdge, surface: SurfaceGeometry, offset: Vector<3>) -> bool {
    is_side_of(c, face, e.path, seq![e.boundary@[1], e.boundary@[0]], e.curve@, surface, offset)
}

/// A side face stays what it is once more is stored
pub proof fn lemma_side_of_extends(
    c1: &Instance,
    c2: &Instance,
    face: Face,
    p: SurfacePath,
    boundary: Seq<i64>,
    curve: usize,
    surface: SurfaceGeometry,
    offset: Vector<3>,
)
    requires
        c1.wf(),
        c2.extends(c1),
        face.valid_in(c1),
        is_side_of(c1, face, p, boundary, curve, surface, offset),
    ensures
        is_side_of(c2, face, p, boundary, curve, surface, offset),
{
    let r = face.region@;
    assert(c2.surfaces@[face.surface@ as int] == c1.surfaces@[face.surface@ as int]);
    assert(c2.regions@[r as int] == c1.regions@[r as int]);
    assert(c1.regions@[r as int].valid_in(c1));
    let x = c1.regions@[r as int].exterior@;
    assert(c2.cycles@[x as int] == c1.cycles@[x as int]);
    assert(c1.cycles@[x as int].valid_in(c1));
    let hs = c1.cycles@[x as int].half_edges@;
    assert(c2.half_edges@[hs[0] as int] == c1.half_edges@[hs[0] as int]);
}

/// Sweep a vertex: the vertical curve through it and the vertex above it,
/// taken from the cache where the vertex was swept before
fn sweep_vertex(vertex: &Handle<Vertex>, cache: &mut SweepCache, core: &mut Instance) -> (r: (Handle<Curve>, Handle<Vertex>))
    requires
        old(core).wf(),
        old(cache).valid_in(old(core)),
    ensures
        final(core).wf(),
        final(core).extends(old(core)),
        final(core).half_edges@ == old(core).half_edges@,
        final(core).surfaces@ == old(core).surfaces@,
        final(core).cycles@ == old(core).cycles@,
        final(core).regions@ == old(core).regions@,
        final(core).faces@ == old(core).faces@,
        final(cache).valid_in(final(core)),
        final(cache).extends(old(cache)),
        final(cache).curves@.contains_key(vertex@),
        final(cache).vertices@.contains_key(vertex@),
        r.0 == final(cache).curves@[vertex@],
        r.1 == final(cache).vertices@[vertex@],
        old(cache).curves@.contains_key(vertex@) ==> r.0 == old(cache).curves@[vertex@],
        old(cache).vertices@.contains_key(vertex@) ==> r.1 == old(cache).vertices@[vertex@],
{
    let ghost c0 = *core;
    let curve = match cache.curves.get(&vertex.id()) {
        Some(curve) => *curve,
        None => {
            let curve = core.insert_curve(Curve {});
            cache.curves.insert(vertex.id(), curve);
            curve
        },
    };
    let ghost c1 = *core;
    let top = match cache.vertices.get(&vertex.id()) {
        Some(top) => *top,
        None => {
            let top = core.insert_vertex(Vertex {});
            cache.vertices.insert(vertex.id(), top);
            top
        },
    };
    proof {
        lemma_extends_refl(&c0);
        lemma_extends_refl(&c1);
        lemma_extends_trans(&c0, &c1, core);
    }
    (curve, top)
}

/// A straight line in surface coordinates, the point at parameter `t`
/// being `(ox, oy) + (dx, dy) * t`
fn line(ox: i64, oy: i64, dx: i64, dy: i64) -> (r: SurfacePath)
    ensures
        r.origin.coords@ == seq![ox, oy],
        r.direction.components@ == seq![dx, dy],
{
    let r = SurfacePath { origin: Point { coords: [ox, oy] }, direction: Vector { components: [dx, dy] } };
    assert(r.origin.coords@ =~= seq![ox, oy]);
    assert(r.direction.components@ =~= seq![dx, dy]);
    r
}

/// Whether the half-edge `h` runs along the line `(ox, oy) + (dx, dy) * t`
/// of its surface over `boundary`, on `curve`, from the vertex `start`
pub open spec fn runs(h: HalfEdge, ox: int, oy: int, dx: int, dy: int, boundary: Seq<i64>, curve: usize, start: usize) -> bool {
    &&& h.path.origin.coords@ == seq![ox as i64, oy as i64]
    &&& h.path.direction.components@ == seq![dx as i64, dy as i64]
    &&& h.boundary@ == boundary
    &&& h.curve@ == curve
    &&& h.start_vertex@ == start
}

/// The side face `face` that sweeping the half-edge `e`, which ends at the
/// vertex `end`, produced: a cycle of four half-edges on the surface that
/// `e` sweeps out, with `u` along `e` and `v` from the bottom (0) to the top
/// (1). Its vertical edges lie on the curves that `cache` holds for the two
/// bottom vertices, and its top vertices are those that `cache` holds.
pub open spec fn is_side_face(c: &Instance, face: Face, e: HalfEdge, end: usize, cache: &SweepCache, top_edge: usize) -> bool {
    let hs = c.cycles@[c.regions@[face.region@ as int].exterior@ as int].half_edges@;
    let (a, b) = (e.boundary@[0] as int, e.boundary@[1] as int);
    let start = e.start_vertex@;
    &&& hs.len() == 4
    &&& c.regions@[face.region@ as int].interiors@.len() == 0
    &&& runs(c.half_edges@[hs[0] as int], 0, 0, 1, 0, e.boundary@, e.curve@, start)
    &&& runs(c.half_edges@[hs[1] as int], b, 0, 0, 1, seq![0i64, 1], cache.curves@[end]@, end)
    &&& runs(c.half_edges@[hs[2] as int], 0, 1, 1, 0, seq![e.boundary@[1], e.boundary@[0]], c.half_edges@[hs[2] as int].curve@, cache.vertices@[end]@)
    &&& runs(c.half_edges@[hs[3] as int], a, 0, 0, 1, seq![1i64, 0], cache.curves@[start]@, cache.vertices@[start]@)
    &&& hs[2] == top_edge
}

/// Sweep the half-edge `half_edge`, which ends at `end_vertex`, along
/// `path`: the side face between it and its copy moved by `path`, and the
/// top edge of that face
#[verifier::spinoff_prover]
fn sweep_half_edge(
    half_edge: &Handle<HalfEdge>,
    end_vertex: &Handle<Vertex>,
    surface: &SurfaceGeometry,
    color: Option<Color>,
    path: &Vector<3>,
    cache: &mut SweepCache,
    core: &mut Instance,
) -> (r: (Face, Handle<HalfEdge>))
    requires
        old(core).wf(),
        old(cache).valid_in(old(core)),
        old(core).half_edges.contains(*half_edge),
        old(core).vertices.contains(*end_vertex),
        edge_sweepable(*surface, old(core).half_edges@[half_edge@ as int], *path),
    ensures
        final(core).wf(),
        final(core).extends(old(core)),
        final(cache).valid_in(final(core)),
        final(cache).extends(old(cache)),
        r.0.valid_in(final(core)),
        r.1@ < final(core).half_edges@.len(),
        is_side_face(final(core), r.0, old(core).half_edges@[half_edge@ as int], end_vertex@, final(cache), r.1@),
        is_side_of(
            final(core),
            r.0,
            old(core).half_edges@[half_edge@ as int].path,
            old(core).half_edges@[half_edge@ as int].boundary@,
            old(core).half_edges@[half_edge@ as int].curve@,
            *surface,
            *path,
        ),
        final(cache).curves@.contains_key(end_vertex@),
        final(cache).vertices@.contains_key(end_vertex@),
        final(cache).curves@.contains_key(old(core).half_edges@[half_edge@ as int].start_vertex@),
        final(cache).vertices@.contains_key(old(core).half_edges@[half_edge@ as int].start_vertex@),
{
    let ghost c0 = *core;
    let ghost k0 = *cache;
    let e = *core.half_edges.get(half_edge);
    proof {
        assert(c0.half_edges@[half_edge@ as int].valid_in(&c0));
    }
    let geometry = surface.sweep_surface_path(&e.path, path);
    let side_surface = core.insert_surface(Surface { geometry });
    let ghost c1 = *core;
    let (curve_up, top_b) = sweep_vertex(end_vertex, cache, core);
    let ghost c2 = *core;
    let ghost k2 = *cache;
    let (curve_down, top_a) = sweep_vertex(&e.start_vertex, cache, core);
    let ghost c3 = *core;
    let top_curve = core.insert_curve(Curve {});
    let ghost c4 = *core;
    let (a, b) = (e.boundary[0], e.boundary[1]);
    let bottom = HalfEdge { path: line(0, 0, 1, 0), boundary: [a, b], curve: e.curve, start_vertex: e.start_vertex };
    let up = HalfEdge { path: line(b, 0, 0, 1), boundary: [0, 1], curve: curve_up, start_vertex: *end_vertex };
    let top = HalfEdge { path: line(0, 1, 1, 0), boundary: [b, a], curve: top_curve, start_vertex: top_b };
    let down = HalfEdge { path: line(a, 0, 0, 1), boundary: [1, 0], curve: curve_down, start_vertex: top_a };
    assert(bottom.boundary@ =~= e.boundary@);
    assert(up.boundary@ =~= seq![0i64, 1]);
    assert(top.boundary@ =~= seq![e.boundary@[1], e.boundary@[0]]);
    assert(down.boundary@ =~= seq![1i64, 0]);
    proof {
        lemma_extends_trans(&c0, &c1, &c2);
        lemma_extends_trans(&c0, &c2, &c3);
        lemma_extends_trans(&c0, &c3, &c4);
    }
    let h0 = core.insert_half_edge(bottom);
    let ghost c5 = *core;
    let h1 = core.insert_half_edge(up);
    let ghost c6 = *core;
    let h2 = core.insert_half_edge(top);
    let ghost c7 = *core;
    let h3 = core.insert_half_edge(down);
    let ghost c8 = *core;
    let hs = vec![h0, h1, h2, h3];
    proof {
        lemma_extends_trans(&c0, &c4, &c5);
        lemma_extends_trans(&c0, &c5, &c6);
        lemma_extends_trans(&c0, &c6, &c7);
        lemma_extends_trans(&c0, &c7, &c8);
        lemma_ids_of(hs@);
        assert(ids_of(hs@) =~= seq![h0@, h1@, h2@, h3@]);
    }
    let exterior = core.insert_cycle(Cycle::new(hs));
    let ghost c9 = *core;
    let no_interiors: Vec<Handle<Cycle>> = Vec::new();
    proof {
        lemma_ids_of(no_interiors@);
    }
    let region = core.insert_region(Region::new(exterior, Handles::new(no_interiors), color));
    let ghost c10 = *core;
    proof {
        lemma_extends_trans(&c0, &c8, &c9);
        lemma_extends_trans(&c0, &c9, &c10);
        assert(core.half_edges@[h0@ as int] == bottom);
        assert(core.half_edges@[h1@ as int] == up);
        assert(core.half_edges@[h2@ as int] == top);
        assert(core.half_edges@[h3@ as int] == down);
        assert(core.surfaces@[side_surface@ as int].geometry == geometry);
    }
    (Face::new(side_surface, region), h2)
}

/// A side face stays what it is once more is stored and cached
proof fn lemma_side_face_extends(c1: &Instance, c2: &Instance, k1: &SweepCache, k2: &SweepCache, face: Face, e: HalfEdge, end: usize, top: usize)
    requires
        c1.wf(),
        c2.extends(c1),
        k2.extends(k1),
        face.valid_in(c1),
        k1.curves@.contains_key(end),
        k1.vertices@.contains_key(end),
        k1.curves@.contains_key(e.start_vertex@),
        k1.vertices@.contains_key(e.start_vertex@),
        is_side_face(c1, face, e, end, k1, top),
    ensures
        is_side_face(c2, face, e, end, k2, top),
{
    let r = face.region@;
    assert(c2.regions@[r as int] == c1.regions@[r as int]);
    assert(c1.regions@[r as int].valid_in(c1));
    let x = c1.regions@[r as int].exterior@;
    assert(c2.cycles@[x as int] == c1.cycles@[x as int]);
    assert(c1.cycles@[x as int].valid_in(c1));
    let hs = c1.cycles@[x as int].half_edges@;
    assert(c2.half_edges@[hs[0] as int] == c1.half_edges@[hs[0] as int]);
    assert(c2.half_edges@[hs[1] as int] == c1.half_edges@[hs[1] as int]);
    assert(c2.half_edges@[hs[2] as int] == c1.half_edges@[hs[2] as int]);
    assert(c2.half_edges@[hs[3] as int] == c1.half_edges@[hs[3] as int]);
}

/// What sweeping a cycle produces: one side face per half-edge, and the
/// cycle at the top
#[derive(Debug)]
pub struct SweptCycle {
    /// The side faces, in the order of the bottom half-edges
    pub faces: Vec<Face>,
    /// The top cycle, on the surface moved along the sweep path
    pub top_cycle: Cycle,
}

/// Whether every half-edge of `hs` can be swept on `surface` along `path`
pub open spec fn cycle_sweepable(c: &Instance, hs: Seq<usize>, surface: SurfaceGeometry, path: Vector<3>) -> bool {
    forall|i: int| 0 <= i < hs.len() ==> #[trigger] edge_sweepable(surface, c.half_edges@[hs[i] as int], path)
}

/// Whether the top half-edge `t` is the bottom half-edge `e` moved to the
/// top surface: the same path and boundary, starting at the vertex above
/// the start of `e`
pub open spec fn is_top_copy(t: HalfEdge, e: HalfEdge, cache: &SweepCache) -> bool {
    &&& t.path == e.path
    &&& t.boundary == e.boundary
    &&& t.start_vertex@ == cache.vertices@[e.start_vertex@]@
}

impl Cycle {
    /// Sweep the cycle along `path`: one side face for each half-edge, and
    /// the top cycle, made of the half-edges moved along `path`
    #[verifier::spinoff_prover]
    #[verifier::rlimit(40)]
    pub fn sweep_cycle(
        &self,
        surface: &SurfaceGeometry,
        color: Option<Color>,
        path: &Vector<3>,
        cache: &mut SweepCache,
        core: &mut Instance,
    ) -> (r: SweptCycle)
        requires
            old(core).wf(),
            old(cache).valid_in(old(core)),
            self.valid_in(old(core)),
            cycle_sweepable(old(core), self.half_edges@, *surface, *path),
        ensures
            final(core).wf(),
            final(core).extends(old(core)),
            final(cache).valid_in(final(core)),
            final(cache).extends(old(cache)),
            r.faces@.len() == self.half_edges@.len(),
            r.top_cycle.valid_in(final(core)),
            r.top_cycle.half_edges@.len() == self.half_edges@.len(),
            forall|i: int|
                0 <= i < r.faces@.len() ==> #[trigger] r.faces@[i].valid_in(final(core)) && is_side_of(
                    final(core),
                    r.faces@[i],
                    old(core).half_edges@[self.half_edges@[i] as int].path,
                    old(core).half_edges@[self.half_edges@[i] as int].boundary@,
                    old(core).half_edges@[self.half_edges@[i] as int].curve@,
                    *surface,
                    *path,
                ),
            forall|i: int|
                0 <= i < r.faces@.len() ==> is_side_face(
                    final(core),
                    #[trigger] r.faces@[i],
                    old(core).half_edges@[self.half_edges@[i] as int],
                    old(core).half_edges@[self.half_edges@[(i + 1) % self.half_edges@.len() as int] as int].start_vertex@,
                    final(cache),
                    final(core).cycles@[final(core).regions@[r.faces@[i].region@ as int].exterior@ as int].half_edges@[2],
                ),
            forall|i: int|
                0 <= i < r.top_cycle.half_edges@.len() ==> is_top_copy(
                    final(core).half_edges@[#[trigger] r.top_cycle.half_edges@[i] as int],
                    old(core).half_edges@[self.half_edges@[i] as int],
                    final(cache),
                ),
    {
        let ghost c0 = *core;
        let ghost k0 = *cache;
        let ghost hs = self.half_edges@;
        let ghost n = hs.len() as int;
        let pairs = self.half_edges.pairs();
        let mut faces: Vec<Face> = Vec::new();
        let mut tops: Vec<Handle<HalfEdge>> = Vec::new();
        proof {
            lemma_extends_refl(core);
        }
        let mut i: usize = 0;
        while i < pairs.len()
            invariant
                c0.wf(),
                core.wf(),
                core.extends(&c0),
                cache.valid_in(core),
                cache.extends(&k0),
                self.valid_in(&c0),
                hs == self.half_edges@,
                n == hs.len(),
                pairs@.len() == n,
                cycle_sweepable(&c0, hs, *surface, *path),
                forall|k: int|
                    0 <= k < pairs@.len() ==> #[trigger] pairs@[k].0@ == hs[k] && pairs@[k].1@ == hs[(k + 1) % n],
                i <= n,
                faces@.len() == i,
                tops@.len() == i,
                forall|k: int|
                    0 <= k < i ==> #[trigger] faces@[k].valid_in(core) && is_side_of(
                        core,
                        faces@[k],
                        c0.half_edges@[hs[k] as int].path,
                        c0.half_edges@[hs[k] as int].boundary@,
                        c0.half_edges@[hs[k] as int].curve@,
                        *surface,
                        *path,
                    ),
                forall|k: int|
                    0 <= k < i ==> is_side_face(
                        core,
                        #[trigger] faces@[k],
                        c0.half_edges@[hs[k] as int],
                        c0.half_edges@[hs[(k + 1) % n] as int].start_vertex@,
                        cache,
                        tops@[k]@,
                    ),
                forall|k: int|
                    0 <= k < i ==> cache.curves@.contains_key(#[trigger] c0.half_edges@[hs[k] as int].start_vertex@)
                        && cache.vertices@.contains_key(c0.half_edges@[hs[k] as int].start_vertex@),
                forall|k: int|
                    0 <= k < i ==> cache.curves@.contains_key(#[trigger] c0.half_edges@[hs[(k + 1) % n] as int].start_vertex@)
                        && cache.vertices@.contains_key(c0.half_edges@[hs[(k + 1) % n] as int].start_vertex@),
                forall|k: int| 0 <= k < i ==> #[trigger] tops@[k]@ < core.half_edges@.len(),
            decreases n - i,
        {
            let ghost ck = *core;
            let ghost kk = *cache;
            proof {
                vstd::arithmetic::div_mod::lemma_mod_bound(i + 1, n);
                assert(hs[i as int] < c0.half_edges@.len());
                assert(hs[(i + 1) % n] < c0.half_edges@.len());
                assert(core.half_edges@[hs[i as int] as int] == c0.half_edges@[hs[i as int] as int]);
                assert(core.half_edges@[hs[(i + 1) % n] as int] == c0.half_edges@[hs[(i + 1) % n] as int]);
                assert(c0.half_edges@[hs[(i + 1) % n] as int].valid_in(&c0));
                assert(edge_sweepable(*surface, c0.half_edges@[hs[i as int] as int], *path));
                assert(pairs@[i as int].0@ == hs[i as int]);
            }
            let end = core.half_edges.get(&pairs[i].1).start_vertex;
            let (face, top) = sweep_half_edge(&pairs[i].0, &end, surface, color, path, cache, core);
            let ghost prev_faces = faces@;
            let ghost prev_tops = tops@;
            faces.push(face);
            tops.push(top);
            proof {
                lemma_extends_trans(&c0, &ck, core);
                assert forall|k: int| 0 <= k < i implies #[trigger] faces@[k].valid_in(core) && is_side_of(
                        core,
                        faces@[k],
                        c0.half_edges@[hs[k] as int].path,
                        c0.half_edges@[hs[k] as int].boundary@,
                        c0.half_edges@[hs[k] as int].curve@,
                        *surface,
                        *path,
                    ) by {
                    assert(faces@[k] == prev_faces[k]);
                    assert(prev_faces[k].valid_in(&ck));
                    lemma_side_of_extends(&ck, core, prev_faces[k], c0.half_edges@[hs[k] as int].path,
                        c0.half_edges@[hs[k] as int].boundary@, c0.half_edges@[hs[k] as int].curve@, *surface, *path);
                }
                assert forall|k: int| 0 <= k < i implies is_side_face(
                    core,
                    #[trigger] faces@[k],
                    c0.half_edges@[hs[k] as int],
                    c0.half_edges@[hs[(k + 1) % n] as int].start_vertex@,
                    cache,
                    tops@[k]@,
                ) by {
                    assert(faces@[k] == prev_faces[k]);
                    assert(tops@[k] == prev_tops[k]);
                    lemma_side_face_extends(&ck, core, &kk, cache, prev_faces[k], c0.half_edges@[hs[k] as int], c0.half_edges@[hs[(k + 1) % n] as int].start_vertex@, prev_tops[k]@);
                }
            }
            proof {
                assert forall|k: int| 0 <= k < i + 1 implies cache.curves@.contains_key(#[trigger] c0.half_edges@[hs[k] as int].start_vertex@)
                        && cache.vertices@.contains_key(c0.half_edges@[hs[k] as int].start_vertex@) by {
                    if k < i {
                        assert(kk.curves@.contains_key(c0.half_edges@[hs[k] as int].start_vertex@));
                        assert(kk.vertices@.contains_key(c0.half_edges@[hs[k] as int].start_vertex@));
                    }
                }
                assert forall|k: int| 0 <= k < i + 1 implies cache.curves@.contains_key(#[trigger] c0.half_edges@[hs[(k + 1) % n] as int].start_vertex@)
                        && cache.vertices@.contains_key(c0.half_edges@[hs[(k + 1) % n] as int].start_vertex@) by {
                    if k < i {
                        assert(kk.curves@.contains_key(c0.half_edges@[hs[(k + 1) % n] as int].start_vertex@));
                        assert(kk.vertices@.contains_key(c0.half_edges@[hs[(k + 1) % n] as int].start_vertex@));
                    }
                }
            }
            i += 1;
        }
        // the top cycle: each bottom half-edge, moved to the top surface
        let ghost cm = *core;
        let ghost km = *cache;
        proof {
            lemma_extends_refl(&cm);
        }
        let mut top_edges: Vec<Handle<HalfEdge>> = Vec::new();
        let mut j: usize = 0;
        while j < pairs.len()
            invariant
                c0.wf(),
                cm.wf(),
                core.wf(),
                cm.extends(&c0),
                core.extends(&cm),
                core.extends(&c0),
                core.vertices@ == cm.vertices@,
                core.curves@ == cm.curves@,
                core.surfaces@ == cm.surfaces@,
                core.cycles@ == cm.cycles@,
                core.regions@ == cm.regions@,
                core.faces@ == cm.faces@,
                cache.valid_in(core),
                cache.curves@ == km.curves@,
                cache.vertices@ == km.vertices@,
                km.extends(&k0),
                faces@.len() == n,
                forall|k: int|
                    0 <= k < n ==> #[trigger] faces@[k].valid_in(&cm) && is_side_of(
                        &cm,
                        faces@[k],
                        c0.half_edges@[hs[k] as int].path,
                        c0.half_edges@[hs[k] as int].boundary@,
                        c0.half_edges@[hs[k] as int].curve@,
                        *surface,
                        *path,
                    ),
                forall|k: int|
                    0 <= k < n ==> is_side_face(
                        &cm,
                        #[trigger] faces@[k],
                        c0.half_edges@[hs[k] as int],
                        c0.half_edges@[hs[(k + 1) % n] as int].start_vertex@,
                        &km,
                        tops@[k]@,
                    ),
                forall|k: int|
                    0 <= k < n ==> km.curves@.contains_key(#[trigger] c0.half_edges@[hs[k] as int].start_vertex@)
                        && km.vertices@.contains_key(c0.half_edges@[hs[k] as int].start_vertex@),
                forall|k: int|
                    0 <= k < n ==> km.curves@.contains_key(#[trigger] c0.half_edges@[hs[(k + 1) % n] as int].start_vertex@)
                        && km.vertices@.contains_key(c0.half_edges@[hs[(k + 1) % n] as int].start_vertex@),
                self.valid_in(&c0),
                hs == self.half_edges@,
                n == hs.len(),
                pairs@.len() == n,
                forall|k: int|
                    0 <= k < pairs@.len() ==> #[trigger] pairs@[k].0@ == hs[k] && pairs@[k].1@ == hs[(k + 1) % n],
                forall|k: int|
                    0 <= k < n ==> cache.vertices@.contains_key(#[trigger] c0.half_edges@[hs[k] as int].start_vertex@),
                tops@.len() == n,
                forall|k: int| 0 <= k < n ==> #[trigger] tops@[k]@ < cm.half_edges@.len(),
                j <= n,
                top_edges@.len() == j,
                core.half_edges@.len() == cm.half_edges@.len() + j,
                forall|k: int| 0 <= k < j ==> #[trigger] top_edges@[k]@ == cm.half_edges@.len() + k,
                forall|k: int|
                    0 <= k < j ==> is_top_copy(core.half_edges@[#[trigger] top_edges@[k]@ as int], c0.half_edges@[hs[k] as int], cache),
            decreases n - j,
        {
            let ghost cj = *core;
            proof {
                assert(hs[j as int] < c0.half_edges@.len());
                assert(core.half_edges@[hs[j as int] as int] == c0.half_edges@[hs[j as int] as int]);
                assert(c0.half_edges@[hs[j as int] as int].valid_in(&c0));
            }
            let bottom = *core.half_edges.get(&pairs[j].0);
            let above = match cache.vertices.get(&bottom.start_vertex.id()) {
                Some(v) => *v,
                None => {
                    proof {
                        assert(false);
                    }
                    bottom.start_vertex
                },
            };
            let curve = core.half_edges.get(&tops[j]).curve;
            proof {
                assert(core.half_edges@[tops@[j as int]@ as int] == cm.half_edges@[tops@[j as int]@ as int]);
                assert(cm.half_edges@[tops@[j as int]@ as int].valid_in(&cm));
            }
            let moved = HalfEdge { path: bottom.path, boundary: bottom.boundary, curve, start_vertex: above };
            let t = core.insert_half_edge(moved);
            top_edges.push(t);
            proof {
                lemma_extends_trans(&cm, &cj, core);
                lemma_extends_trans(&c0, &cj, core);
                assert forall|k: int| 0 <= k < j implies is_top_copy(core.half_edges@[#[trigger] top_edges@[k]@ as int], c0.half_edges@[hs[k] as int], cache) by {
                    assert(core.half_edges@[top_edges@[k]@ as int] == cj.half_edges@[top_edges@[k]@ as int]);
                }
            }
            j += 1;
        }
        proof {
            lemma_ids_of(top_edges@);
            let t = ids_of(top_edges@);
            assert forall|x: int, y: int| 0 <= x < t.len() && 0 <= y < t.len() && x != y implies t[x] != t[y] by {
                assert(top_edges@[x]@ == cm.half_edges@.len() + x);
                assert(top_edges@[y]@ == cm.half_edges@.len() + y);
            }
            assert forall|k: int| 0 <= k < t.len() implies #[trigger] t[k] < core.half_edges@.len() by {
                assert(top_edges@[k]@ == cm.half_edges@.len() + k);
            }
            assert forall|k: int| 0 <= k < faces@.len() implies #[trigger] faces@[k].valid_in(core) && is_side_of(
                    core,
                    faces@[k],
                    c0.half_edges@[hs[k] as int].path,
                    c0.half_edges@[hs[k] as int].boundary@,
                    c0.half_edges@[hs[k] as int].curve@,
                    *surface,
                    *path,
                ) by {
                assert(faces@[k].valid_in(&cm));
                lemma_side_of_extends(&cm, core, faces@[k], c0.half_edges@[hs[k] as int].path,
                    c0.half_edges@[hs[k] as int].boundary@, c0.half_edges@[hs[k] as int].curve@, *surface, *path);
            }
        }
        let top_cycle = Cycle::new(top_edges);
        proof {
            assert forall|k: int| 0 <= k < n implies is_side_face(
                core,
                #[trigger] faces@[k],
                c0.half_edges@[hs[k] as int],
                c0.half_edges@[hs[(k + 1) % n] as int].start_vertex@,
                cache,
                core.cycles@[core.regions@[faces@[k].region@ as int].exterior@ as int].half_edges@[2],
            ) by {
                assert(is_side_face(&cm, faces@[k], c0.half_edges@[hs[k] as int], c0.half_edges@[hs[(k + 1) % n] as int].start_vertex@, &km, tops@[k]@));
                lemma_side_face_extends(&cm, core, &km, cache, faces@[k], c0.half_edges@[hs[k] as int], c0.half_edges@[hs[(k + 1) % n] as int].start_vertex@, tops@[k]@);
            }
            assert forall|k: int| 0 <= k < top_cycle.half_edges@.len() implies is_top_copy(
                core.half_edges@[#[trigger] top_cycle.half_edges@[k] as int],
                c0.half_edges@[hs[k] as int],
                cache,
            ) by {
                assert(top_cycle.half_edges@[k] == top_edges@[k]@);
            }
        }
        SweptCycle { faces, top_cycle }
    }
}

/// The top half-edges `ts` run over the bottom cycle `hs` the other way
/// round: the `i`-th of them has the path of the `i`-th half-edge from the
/// end of `hs`, with its boundary swapped
pub open spec fn reversed_copy(c: &Instance, ts: Seq<usize>, hs: Seq<usize>) -> bool {
    let n = hs.len() as int;
    &&& ts.len() == n
    &&& forall|i: int|
        0 <= i < n ==> #[trigger] c.half_edges@[ts[i] as int].path == c.half_edges@[hs[n - 1 - i] as int].path
            && c.half_edges@[ts[i] as int].boundary@ == seq![
            c.half_edges@[hs[n - 1 - i] as int].boundary@[1],
            c.half_edges@[hs[n - 1 - i] as int].boundary@[0],
        ]
}

/// Reverse the stored cycle `cycle`, sweep it, and add its side faces to
/// `faces`; returns the stored top cycle
fn sweep_cycle(
    cycle: &Handle<Cycle>,
    surface: &SurfaceGeometry,
    color: Option<Color>,
    faces: &mut Vec<Face>,
    path: &Vector<3>,
    cache: &mut SweepCache,
    core: &mut Instance,
) -> (r: Handle<Cycle>)
    requires
        old(core).wf(),
        old(cache).valid_in(old(core)),
        cycle@ < old(core).cycles@.len(),
        cycle_sweepable(old(core), old(core).cycles@[cycle@ as int].half_edges@, *surface, *path),
        forall|k: int| 0 <= k < old(faces)@.len() ==> #[trigger] old(faces)@[k].valid_in(old(core)),
    ensures
        final(core).wf(),
        final(core).extends(old(core)),
        final(cache).valid_in(final(core)),
        final(cache).extends(old(cache)),
        final(faces)@.len() == old(faces)@.len() + old(core).cycles@[cycle@ as int].half_edges@.len(),
        forall|k: int| 0 <= k < old(faces)@.len() ==> #[trigger] final(faces)@[k] == old(faces)@[k],
        forall|k: int| 0 <= k < final(faces)@.len() ==> #[trigger] final(faces)@[k].valid_in(final(core)),
        r@ < final(core).cycles@.len(),
        r@ >= old(core).cycles@.len(),
        reversed_copy(final(core), final(core).cycles@[r@ as int].half_edges@, final(core).cycles@[cycle@ as int].half_edges@),
        ({
            let hs = final(core).cycles@[cycle@ as int].half_edges@;
            forall|k: int|
                0 <= k < hs.len() ==> is_reversed_side(
                    final(core),
                    #[trigger] final(faces)@[old(faces)@.len() + k],
                    final(core).half_edges@[hs[hs.len() - 1 - k] as int],
                    *surface,
                    *path,
                )
        }),
{
    let ghost c0 = *core;
    let ghost f0 = faces@;
    proof {
        assert(core.cycles@[cycle@ as int].valid_in(core));
    }
    let bottom = Cycle { half_edges: core.cycles.get(cycle).half_edges.clone() };
    let reversed = bottom.reverse(core);
    let ghost c1 = *core;
    let ghost hs = c0.cycles@[cycle@ as int].half_edges@;
    let ghost rs = reversed.half_edges@;
    let ghost n = hs.len() as int;
    proof {
        assert forall|i: int| 0 <= i < rs.len() implies #[trigger] edge_sweepable(*surface, core.half_edges@[rs[i] as int], *path) by {
            assert(is_reversal(core.half_edges@[rs[i] as int], core.half_edges@[hs[n - 1 - i] as int], core.half_edges@[hs[(n - i) % n] as int].start_vertex@));
            assert(hs[n - 1 - i] < c0.half_edges@.len());
            assert(core.half_edges@[hs[n - 1 - i] as int] == c0.half_edges@[hs[n - 1 - i] as int]);
            assert(edge_sweepable(*surface, c0.half_edges@[hs[n - 1 - i] as int], *path));
        }
        lemma_extends_keeps_valid(c0, c1);
    }
    let swept = reversed.sweep_cycle(surface, color, path, cache, core);
    let ghost c2 = *core;
    let mut i: usize = 0;
    proof {
        lemma_extends_trans(&c0, &c1, &c2);
        lemma_extends_keeps_valid(c0, c2);
        assert forall|k: int| 0 <= k < faces@.len() implies #[trigger] faces@[k].valid_in(core) by {
            assert(f0[k].valid_in(&c0));
        }
    }
    while i < swept.faces.len()
        invariant
            core.wf(),
            faces@.len() == f0.len() + i,
            i <= swept.faces@.len(),
            forall|k: int| 0 <= k < f0.len() ==> #[trigger] faces@[k] == f0[k],
            forall|k: int| 0 <= k < f0.len() ==> #[trigger] f0[k].valid_in(&c0),
            forall|k: int| 0 <= k < swept.faces@.len() ==> #[trigger] swept.faces@[k].valid_in(core),
            forall|k: int| 0 <= k < faces@.len() ==> #[trigger] faces@[k].valid_in(core),
            forall|k: int| 0 <= k < i ==> #[trigger] faces@[f0.len() + k] == swept.faces@[k],
            core.extends(&c0),
        decreases swept.faces@.len() - i,
    {
        faces.push(swept.faces[i]);
        i += 1;
    }
    let ghost c3 = *core;
    let top = core.insert_cycle(swept.top_cycle);
    proof {
        lemma_extends_trans(&c0, &c3, core);
        lemma_extends_keeps_valid(c3, *core);
        assert forall|k: int| 0 <= k < faces@.len() implies #[trigger] faces@[k].valid_in(core) by {
            assert(faces@[k].valid_in(&c3));
        }
        assert(core.cycles@[cycle@ as int] == c0.cycles@[cycle@ as int]);
        let ts = core.cycles@[top@ as int].half_edges@;
        assert forall|i: int| 0 <= i < n implies #[trigger] core.half_edges@[ts[i] as int].path == core.half_edges@[hs[n - 1 - i] as int].path
            && core.half_edges@[ts[i] as int].boundary@ == seq![
            core.half_edges@[hs[n - 1 - i] as int].boundary@[1],
            core.half_edges@[hs[n - 1 - i] as int].boundary@[0],
        ] by {
            assert(is_top_copy(c2.half_edges@[swept.top_cycle.half_edges@[i] as int], c1.half_edges@[rs[i] as int], cache));
            assert(is_reversal(c1.half_edges@[rs[i] as int], c1.half_edges@[hs[n - 1 - i] as int], c1.half_edges@[hs[(n - i) % n] as int].start_vertex@));
            assert(swept.top_cycle.half_edges@[i] < c2.half_edges@.len());
            assert(core.half_edges@[ts[i] as int] == c2.half_edges@[ts[i] as int]);
            assert(hs[n - 1 - i] < c0.half_edges@.len());
            assert(core.half_edges@[hs[n - 1 - i] as int] == c1.half_edges@[hs[n - 1 - i] as int]);
            assert(rs[i] < c1.half_edges@.len());
            assert(c2.half_edges@[rs[i] as int] == c1.half_edges@[rs[i] as int]);
        }
        assert forall|k: int| 0 <= k < n implies is_reversed_side(
            core,
            #[trigger] faces@[f0.len() + k],
            core.half_edges@[hs[n - 1 - k] as int],
            *surface,
            *path,
        ) by {
            let face = swept.faces@[k];
            assert(faces@[f0.len() + k] == face);
            assert(face.valid_in(&c2));
            assert(is_side_of(&c2, face, c1.half_edges@[rs[k] as int].path, c1.half_edges@[rs[k] as int].boundary@,
                c1.half_edges@[rs[k] as int].curve@, *surface, *path));
            lemma_side_of_extends(&c2, core, face, c1.half_edges@[rs[k] as int].path, c1.half_edges@[rs[k] as int].boundary@,
                c1.half_edges@[rs[k] as int].curve@, *surface, *path);
            assert(is_reversal(c1.half_edges@[rs[k] as int], c1.half_edges@[hs[n - 1 - k] as int], c1.half_edges@[hs[(n - k) % n] as int].start_vertex@));
            assert(hs[n - 1 - k] < c0.half_edges@.len());
            assert(core.half_edges@[hs[n - 1 - k] as int] == c1.half_edges@[hs[n - 1 - k] as int]);
        }
    }
    top
}

/// The number of half-edges in the cycles `cycles[k..]`
pub open spec fn edge_count_from(c: &Instance, cycles: Seq<usize>, k: int) -> int
    decreases cycles.len() - k,
{
    if k < 0 || k >= cycles.len() {
        0
    } else {
        c.cycles@[cycles[k] as int].half_edges@.len() + edge_count_from(c, cycles, k + 1)
    }
}

/// The number of half-edges of all cycles of the region
pub open spec fn region_edge_count(c: &Instance, region: Region) -> int {
    edge_count_from(c, region.all_cycles(), 0)
}

/// Where the side faces of the `j`-th of the cycles `cs` begin among the side
/// faces of a region sweep
pub open spec fn side_base(c: &Instance, cs: Seq<usize>, j: int) -> int {
    edge_count_from(c, cs, 0) - edge_count_from(c, cs, j)
}

/// Whether `sides` are the side faces of sweeping the cycles `cs[..upto]` of
/// `src`, each reversed first: cycle after cycle, one side face for each
/// half-edge of the reversed cycle, in its order
pub open spec fn region_sides(
    c: &Instance,
    src: &Instance,
    sides: Seq<Face>,
    cs: Seq<usize>,
    upto: int,
    surface: SurfaceGeometry,
    offset: Vector<3>,
) -> bool {
    forall|j: int, k: int|
        0 <= j < upto && 0 <= k < src.cycles@[cs[j] as int].half_edges@.len() ==> is_reversed_side(
            c,
            #[trigger] sides[side_base(src, cs, j) + k],
            src.half_edges@[src.cycles@[cs[j] as int].half_edges@[src.cycles@[cs[j] as int].half_edges@.len() - 1 - k] as int],
            surface,
            offset,
        )
}

proof fn lemma_edge_count_nonneg(c: &Instance, cs: Seq<usize>, m: int)
    ensures
        edge_count_from(c, cs, m) >= 0,
    decreases cs.len() - m,
{
    if 0 <= m < cs.len() {
        lemma_edge_count_nonneg(c, cs, m + 1);
    }
}

proof fn lemma_edge_count_mono(c: &Instance, cs: Seq<usize>, j: int, m: int)
    requires
        0 <= j <= m,
    ensures
        edge_count_from(c, cs, j) >= edge_count_from(c, cs, m),
    decreases m - j,
{
    lemma_edge_count_nonneg(c, cs, m);
    if j < m {
        lemma_edge_count_mono(c, cs, j + 1, m);
        lemma_edge_count_nonneg(c, cs, j + 1);
    }
}

/// Whether sweeping the region on `surface` along `path` computes within the
/// modelling range
pub open spec fn region_sweepable(c: &Instance, region: Region, surface: SurfaceGeometry, path: Vector<3>) -> bool {
    &&& surface_in_range(surface)
    &&& vector_in_range(path)
    &&& forall|j: int|
        0 <= j < region.all_cycles().len() ==> #[trigger] cycle_sweepable(
            c,
            c.cycles@[region.all_cycles()[j] as int].half_edges@,
            surface,
            path,
        )
}

/// The result of sweeping a [`Region`]
#[derive(Debug)]
pub struct SweptRegion {
    /// The side faces created by the sweep
    pub side_faces: Vec<Face>,
    /// The top face created by the sweep
    pub top_face: Face,
}

impl SweptRegion {
    /// All faces: the side faces, then the top face
    pub fn all_faces(self) -> (r: Vec<Face>)
        ensures
            r@ == self.side_faces@.push(self.top_face),
    {
        let mut faces = self.side_faces;
        faces.push(self.top_face);
        faces
    }
}

pub(crate) proof fn lemma_edge_count_extends(c1: &Instance, c2: &Instance, cycles: Seq<usize>, k: int)
    requires
        c2.extends(c1),
        forall|j: int| 0 <= j < cycles.len() ==> #[trigger] cycles[j] < c1.cycles@.len(),
    ensures
        edge_count_from(c2, cycles, k) == edge_count_from(c1, cycles, k),
    decreases cycles.len() - k,
{
    if 0 <= k < cycles.len() {
        assert(c2.cycles@[cycles[k] as int] == c1.cycles@[cycles[k] as int]);
        lemma_edge_count_extends(c1, c2, cycles, k + 1);
    }
}

impl Region {
    /// Sweep the region along `path`, from its place on `surface`: each of
    /// its cycles is reversed and swept into side faces, and the swept
    /// cycles make up the top face, on the surface moved along `path`
    ///
    /// There is no bottom face; whether one is wanted is up to the caller.
    #[verifier::spinoff_prover]
    pub fn sweep_region(
        &self,
        surface: &Surface,
        path: &Vector<3>,
        cache: &mut SweepCache,
        core: &mut Instance,
    ) -> (r: SweptRegion)
        requires
            old(core).wf(),
            old(cache).valid_in(old(core)),
            self.valid_in(old(core)),
            region_sweepable(old(core), *self, surface.geometry, *path),
        ensures
            final(core).wf(),
            final(core).extends(old(core)),
            final(cache).valid_in(final(core)),
            final(cache).extends(old(cache)),
            r.side_faces@.len() == region_edge_count(old(core), *self),
            forall|k: int| 0 <= k < r.side_faces@.len() ==> #[trigger] r.side_faces@[k].valid_in(final(core)),
            r.top_face.valid_in(final(core)),
            final(core).surfaces@[r.top_face.surface@ as int].geometry.u == surface.geometry.u,
            final(core).surfaces@[r.top_face.surface@ as int].geometry.v == surface.geometry.v,
            forall|i: int|
                0 <= i < 3 ==> #[trigger] final(core).surfaces@[r.top_face.surface@ as int].geometry.origin.coords@[i]
                    == surface.geometry.origin.coords@[i] + path.components@[i],
            final(core).regions@[r.top_face.region@ as int].color == self.color,
            final(core).regions@[r.top_face.region@ as int].interiors@.len() == self.interiors@.len(),
            reversed_copy(
                final(core),
                final(core).cycles@[final(core).regions@[r.top_face.region@ as int].exterior@ as int].half_edges@,
                final(core).cycles@[self.exterior@ as int].half_edges@,
            ),            region_sides(final(core), old(core), r.side_faces@, self.all_cycles(), self.all_cycles().len() as int, surface.geometry, *path),
    {
        let ghost c0 = *core;
        let ghost k0 = *cache;
        let ghost cs = self.all_cycles();
        let mut faces: Vec<Face> = Vec::new();
        proof {
            assert(cycle_sweepable(&c0, c0.cycles@[cs[0] as int].half_edges@, surface.geometry, *path));
        }
        let top_exterior = sweep_cycle(&self.exterior, &surface.geometry, self.color, &mut faces, path, cache, core);
        let ghost c1 = *core;
        let interiors = self.interiors.iter();
        proof {
            lemma_ids_of(interiors@);
            assert forall|j: int| 0 <= j < cs.len() implies #[trigger] cs[j] < c0.cycles@.len() by {
                if j > 0 {
                    assert(cs[j] == self.interiors@[j - 1]);
                }
            }
            lemma_edge_count_extends(&c0, core, cs, 0);
            lemma_extends_refl(&c1);
            assert(core.cycles@[cs[0] as int] == c0.cycles@[cs[0] as int]);
            assert(side_base(&c0, cs, 0) == 0);
            assert forall|j: int, k: int|
                0 <= j < 1 && 0 <= k < c0.cycles@[cs[j] as int].half_edges@.len() implies is_reversed_side(
                    core,
                    #[trigger] faces@[side_base(&c0, cs, j) + k],
                    c0.half_edges@[c0.cycles@[cs[j] as int].half_edges@[c0.cycles@[cs[j] as int].half_edges@.len() - 1 - k] as int],
                    surface.geometry,
                    *path,
                ) by {
                let hs = c0.cycles@[cs[0] as int].half_edges@;
                assert(c0.cycles@[cs[0] as int].valid_in(&c0));
                assert(faces@[0 + k] == faces@[k]);
                assert(core.half_edges@[hs[hs.len() - 1 - k] as int] == c0.half_edges@[hs[hs.len() - 1 - k] as int]);
            }
            lemma_edge_count_mono(&c0, cs, 0, 1);
            lemma_edge_count_nonneg(&c0, cs, 1);
        }
        let mut top_interiors: Vec<Handle<Cycle>> = Vec::new();
        let mut i: usize = 0;
        while i < interiors.len()
            invariant
                c0.wf(),
                core.wf(),
                core.extends(&c0),
                c1.extends(&c0),
                core.extends(&c1),
                cache.valid_in(core),
                cache.extends(&k0),
                self.valid_in(&c0),
                cs == self.all_cycles(),
                ids_of(interiors@) == self.interiors@,
                region_sweepable(&c0, *self, surface.geometry, *path),
                forall|j: int| 0 <= j < cs.len() ==> #[trigger] cs[j] < c0.cycles@.len(),
                i <= interiors@.len(),
                faces@.len() == edge_count_from(&c0, cs, 0) - edge_count_from(&c0, cs, i + 1),
                region_sides(core, &c0, faces@, cs, i + 1, surface.geometry, *path),
                i + 1 <= cs.len(),
                forall|k: int| 0 <= k < faces@.len() ==> #[trigger] faces@[k].valid_in(core),
                top_exterior@ < c1.cycles@.len(),
                reversed_copy(&c1, c1.cycles@[top_exterior@ as int].half_edges@, c1.cycles@[self.exterior@ as int].half_edges@),
                top_interiors@.len() == i,
                forall|k: int| 0 <= k < i ==> #[trigger] top_interiors@[k]@ < core.cycles@.len(),
                forall|k: int| 0 <= k < i ==> #[trigger] top_interiors@[k]@ >= c1.cycles@.len(),
                forall|a: int, b: int| 0 <= a < b < i ==> #[trigger] top_interiors@[a]@ < #[trigger] top_interiors@[b]@,
            decreases interiors@.len() - i,
        {
            let ghost ck = *core;
            let ghost kk = *cache;
            proof {
                lemma_ids_of(interiors@);
                assert(cs[i + 1] == self.interiors@[i as int]);
                assert(cycle_sweepable(&c0, c0.cycles@[cs[i + 1] as int].half_edges@, surface.geometry, *path));
                assert(core.cycles@[cs[i + 1] as int] == c0.cycles@[cs[i + 1] as int]);
                assert forall|k: int| 0 <= k < c0.cycles@[cs[i + 1] as int].half_edges@.len() implies #[trigger] edge_sweepable(
                    surface.geometry,
                    core.half_edges@[c0.cycles@[cs[i + 1] as int].half_edges@[k] as int],
                    *path,
                ) by {
                    let h = c0.cycles@[cs[i + 1] as int].half_edges@[k];
                    assert(c0.cycles@[cs[i + 1] as int].valid_in(&c0));
                    assert(core.half_edges@[h as int] == c0.half_edges@[h as int]);
                    assert(edge_sweepable(surface.geometry, c0.half_edges@[h as int], *path));
                }
            }
            let ghost before = faces@.len();
            let ghost fk = faces@;
            let top = sweep_cycle(&interiors[i], &surface.geometry, self.color, &mut faces, path, cache, core);
            top_interiors.push(top);
            proof {
                lemma_extends_trans(&c0, &ck, core);
                lemma_extends_trans(&c1, &ck, core);
                assert(faces@.len() == before + c0.cycles@[cs[i + 1] as int].half_edges@.len());
                assert(before == side_base(&c0, cs, i + 1));
                assert forall|j: int, k: int|
                    0 <= j < i + 2 && 0 <= k < c0.cycles@[cs[j] as int].half_edges@.len() implies is_reversed_side(
                        core,
                        #[trigger] faces@[side_base(&c0, cs, j) + k],
                        c0.half_edges@[c0.cycles@[cs[j] as int].half_edges@[c0.cycles@[cs[j] as int].half_edges@.len() - 1 - k] as int],
                        surface.geometry,
                        *path,
                    ) by {
                    let hs = c0.cycles@[cs[j] as int].half_edges@;
                    assert(c0.cycles@[cs[j] as int].valid_in(&c0));
                    assert(hs[hs.len() - 1 - k] < c0.half_edges@.len());
                    lemma_edge_count_mono(&c0, cs, 0, j);
                    if j < i + 1 {
                        lemma_edge_count_mono(&c0, cs, j + 1, i + 1);
                        assert(edge_count_from(&c0, cs, j) == hs.len() + edge_count_from(&c0, cs, j + 1));
                        let idx = side_base(&c0, cs, j) + k;
                        assert(idx < before);
                        assert(faces@[idx] == fk[idx]);
                        assert(fk[idx].valid_in(&ck));
                        assert(is_reversed_side(&ck, fk[idx], c0.half_edges@[hs[hs.len() - 1 - k] as int], surface.geometry, *path));
                        lemma_side_of_extends(&ck, core, fk[idx], c0.half_edges@[hs[hs.len() - 1 - k] as int].path,
                            seq![c0.half_edges@[hs[hs.len() - 1 - k] as int].boundary@[1], c0.half_edges@[hs[hs.len() - 1 - k] as int].boundary@[0]],
                            c0.half_edges@[hs[hs.len() - 1 - k] as int].curve@, surface.geometry, *path);
                    } else {
                        assert(core.cycles@[cs[j] as int] == c0.cycles@[cs[j] as int]);
                        assert(core.half_edges@[hs[hs.len() - 1 - k] as int] == c0.half_edges@[hs[hs.len() - 1 - k] as int]);
                        assert(faces@[before + k] == faces@[side_base(&c0, cs, j) + k]);
                    }
                }
                lemma_edge_count_mono(&c0, cs, i + 1, i + 2);
            }
            i += 1;
        }
        let ghost c2 = *core;
        let top_geometry = surface.geometry.translate(path);
        let top_surface = core.insert_surface(Surface { geometry: top_geometry });
        let ghost c3 = *core;
        proof {
            lemma_ids_of(top_interiors@);
            let t = ids_of(top_interiors@);
            assert forall|x: int, y: int| 0 <= x < t.len() && 0 <= y < t.len() && x != y implies t[x] != t[y] by {
                if x < y {
                    assert(top_interiors@[x]@ < top_interiors@[y]@);
                } else {
                    assert(top_interiors@[y]@ < top_interiors@[x]@);
                }
            }
            assert forall|k: int| 0 <= k < t.len() implies #[trigger] t[k] < core.cycles@.len() by {
                assert(top_interiors@[k]@ < c2.cycles@.len());
            }
            lemma_extends_trans(&c0, &c2, &c3);
            lemma_extends_keeps_valid(c2, c3);
        }
        let ghost tv = top_interiors@;
        let top_region = core.insert_region(Region::new(top_exterior, Handles::new(top_interiors), self.color));
        proof {
            lemma_extends_trans(&c0, &c3, core);
            lemma_extends_keeps_valid(c3, *core);
            lemma_extends_trans(&c1, &c2, &c3);
            lemma_extends_trans(&c1, &c3, core);
            assert forall|k: int| 0 <= k < faces@.len() implies #[trigger] faces@[k].valid_in(core) by {
                assert(faces@[k].valid_in(&c2));
            }
            assert(ids_of(tv).len() == self.interiors@.len());
            assert(edge_count_from(&c0, cs, self.interiors@.len() as int + 1) == 0);
            // the top exterior, as swept
            let ts = c1.cycles@[top_exterior@ as int].half_edges@;
            let hs = c1.cycles@[self.exterior@ as int].half_edges@;
            assert(core.cycles@[top_exterior@ as int] == c1.cycles@[top_exterior@ as int]);
            assert(core.cycles@[self.exterior@ as int] == c1.cycles@[self.exterior@ as int]);
            assert(c1.cycles@[top_exterior@ as int].valid_in(&c1));
            assert(c1.cycles@[self.exterior@ as int].valid_in(&c1));
            assert forall|i: int| 0 <= i < hs.len() implies #[trigger] core.half_edges@[ts[i] as int].path == core.half_edges@[hs[hs.len() - 1 - i] as int].path
                && core.half_edges@[ts[i] as int].boundary@ == seq![
                core.half_edges@[hs[hs.len() - 1 - i] as int].boundary@[1],
                core.half_edges@[hs[hs.len() - 1 - i] as int].boundary@[0],
            ] by {
                assert(c1.half_edges@[ts[i] as int].path == c1.half_edges@[hs[hs.len() - 1 - i] as int].path);
                assert(core.half_edges@[ts[i] as int] == c1.half_edges@[ts[i] as int]);
                assert(core.half_edges@[hs[hs.len() - 1 - i] as int] == c1.half_edges@[hs[hs.len() - 1 - i] as int]);
            }
        }
        proof {
            assert forall|j: int, k: int|
                0 <= j < cs.len() && 0 <= k < c0.cycles@[cs[j] as int].half_edges@.len() implies is_reversed_side(
                    core,
                    #[trigger] faces@[side_base(&c0, cs, j) + k],
                    c0.half_edges@[c0.cycles@[cs[j] as int].half_edges@[c0.cycles@[cs[j] as int].half_edges@.len() - 1 - k] as int],
                    surface.geometry,
                    *path,
                ) by {
                let hs = c0.cycles@[cs[j] as int].half_edges@;
                lemma_edge_count_mono(&c0, cs, 0, j);
                lemma_edge_count_mono(&c0, cs, j + 1, cs.len() as int);
                assert(edge_count_from(&c0, cs, j) == hs.len() + edge_count_from(&c0, cs, j + 1));
                let idx = side_base(&c0, cs, j) + k;
                assert(faces@[idx].valid_in(&c2));
                assert(is_reversed_side(&c2, faces@[idx], c0.half_edges@[hs[hs.len() - 1 - k] as int], surface.geometry, *path));
                lemma_side_of_extends(&c2, core, faces@[idx], c0.half_edges@[hs[hs.len() - 1 - k] as int].path,
                    seq![c0.half_edges@[hs[hs.len() - 1 - k] as int].boundary@[1], c0.half_edges@[hs[hs.len() - 1 - k] as int].boundary@[0]],
                    c0.half_edges@[hs[hs.len() - 1 - k] as int].curve@, surface.geometry, *path);
            }
        }
        SweptRegion { side_faces: faces, top_face: Face::new(top_surface, top_region) }
    }
}

/// Reversing a cycle keeps the paths of its half-edges, so it can be swept
/// where the cycle can
pub(crate) proof fn lemma_reversal_sweepable(c: &Instance, rs: Seq<usize>, hs: Seq<usize>, surface: SurfaceGeometry, path: Vector<3>)
    requires
        cycle_reversal(c, rs, hs),
        cycle_sweepable(c, hs, surface, path),
    ensures
        cycle_sweepable(c, rs, surface, path),
{
    let n = hs.len() as int;
    assert forall|i: int| 0 <= i < rs.len() implies #[trigger] edge_sweepable(surface, c.half_edges@[rs[i] as int], path) by {
        assert(is_reversal(c.half_edges@[rs[i] as int], c.half_edges@[hs[n - 1 - i] as int], c.half_edges@[hs[(n - i) % n] as int].start_vertex@));
        assert(edge_sweepable(surface, c.half_edges@[hs[n - 1 - i] as int], path));
    }
}

proof fn lemma_edge_count_same(c: &Instance, a: Seq<usize>, b: Seq<usize>, k: int)
    requires
        a.len() == b.len(),
        forall|j: int| 0 <= j < a.len() ==> #[trigger] c.cycles@[a[j] as int].half_edges@.len() == c.cycles@[b[j] as int].half_edges@.len(),
    ensures
        edge_count_from(c, a, k) == edge_count_from(c, b, k),
    decreases a.len() - k,
{
    if 0 <= k < a.len() {
        lemma_edge_count_same(c, a, b, k + 1);
    }
}

/// A reversed region can be swept where the region can, into as many side
/// faces
pub(crate) proof fn lemma_region_reversal_sweep(c: &Instance, r: Region, g: Region, surface: SurfaceGeometry, path: Vector<3>)
    requires
        region_reversal(c, r, g),
        region_sweepable(c, g, surface, path),
    ensures
        region_sweepable(c, r, surface, path),
        region_edge_count(c, r) == region_edge_count(c, g),
{
    let rc = r.all_cycles();
    let gc = g.all_cycles();
    assert forall|j: int| 0 <= j < rc.len() implies #[trigger] cycle_sweepable(c, c.cycles@[rc[j] as int].half_edges@, surface, path)
        && c.cycles@[rc[j] as int].half_edges@.len() == c.cycles@[gc[j] as int].half_edges@.len() by {
        assert(cycle_sweepable(c, c.cycles@[gc[j] as int].half_edges@, surface, path));
        if j == 0 {
            assert(cycle_reversal(c, c.cycles@[r.exterior@ as int].half_edges@, c.cycles@[g.exterior@ as int].half_edges@));
            lemma_reversal_sweepable(c, c.cycles@[rc[0] as int].half_edges@, c.cycles@[gc[0] as int].half_edges@, surface, path);
        } else {
            assert(rc[j] == r.interiors@[j - 1]);
            assert(gc[j] == g.interiors@[j - 1]);
            assert(cycle_reversal(c, c.cycles@[r.interiors@[j - 1] as int].half_edges@, c.cycles@[g.interiors@[j - 1] as int].half_edges@));
            lemma_reversal_sweepable(c, c.cycles@[rc[j] as int].half_edges@, c.cycles@[gc[j] as int].half_edges@, surface, path);
        }
    }
    assert forall|j: int| 0 <= j < rc.len() implies #[trigger] c.cycles@[rc[j] as int].half_edges@.len() == c.cycles@[gc[j] as int].half_edges@.len() by {
        assert(cycle_sweepable(c, c.cycles@[rc[j] as int].half_edges@, surface, path));
    }
    lemma_edge_count_same(c, rc, gc, 0);
}

/// Store each of `faces`, returning the new handles, in order
pub(crate) fn insert_faces(faces: Vec<Face>, core: &mut Instance) -> (r: Vec<Handle<Face>>)
    requires
        old(core).wf(),
        forall|k: int| 0 <= k < faces@.len() ==> #[trigger] faces@[k].valid_in(old(core)),
    ensures
        final(core).wf(),
        final(core).extends(old(core)),
        r@.len() == faces@.len(),
        forall|k: int| 0 <= k < r@.len() ==> #[trigger] r@[k]@ == old(core).faces@.len() + k,
        forall|k: int| 0 <= k < r@.len() ==> #[trigger] final(core).faces@[r@[k]@ as int] == faces@[k],
        final(core).faces@.len() == old(core).faces@.len() + faces@.len(),
        final(core).surfaces@ == old(core).surfaces@,
        final(core).half_edges@ == old(core).half_edges@,
        final(core).cycles@ == old(core).cycles@,
        final(core).regions@ == old(core).regions@,
{
    let ghost c0 = *core;
    let mut r: Vec<Handle<Face>> = Vec::new();
    let mut i: usize = 0;
    proof {
        lemma_extends_refl(core);
    }
    while i < faces.len()
        invariant
            c0.wf(),
            core.wf(),
            core.extends(&c0),
            forall|k: int| 0 <= k < faces@.len() ==> #[trigger] faces@[k].valid_in(&c0),
            i <= faces@.len(),
            r@.len() == i,
            core.faces@.len() == c0.faces@.len() + i,
            core.surfaces@ == c0.surfaces@,
            core.half_edges@ == c0.half_edges@,
            core.cycles@ == c0.cycles@,
            core.regions@ == c0.regions@,
            forall|k: int| 0 <= k < i ==> #[trigger] r@[k]@ == c0.faces@.len() + k,
            forall|k: int| 0 <= k < i ==> #[trigger] core.faces@[r@[k]@ as int] == faces@[k],
        decreases faces@.len() - i,
    {
        let ghost ck = *core;
        proof {
            lemma_extends_keeps_valid(c0, ck);
            assert(faces@[i as int].valid_in(&c0));
        }
        let h = core.insert_face(faces[i]);
        r.push(h);
        proof {
            lemma_extends_trans(&c0, &ck, core);
        }
        i += 1;
    }
    r
}

/// The stored faces that the handles `hs` refer to, in order
pub open spec fn stored_faces(c: &Instance, hs: Seq<usize>) -> Seq<Face> {
    Seq::new(hs.len(), |i: int| c.faces@[hs[i] as int])
}

/// What sweeping the stored face `face` of `before` along `path` brought
/// about in `after`, given the shell's faces `faces`: after the face itself
/// come the side faces of all its cycles, in order, then the top face: the
/// region on the surface moved by `path`, its exterior the face's exterior
/// run the other way round, with the face's color and as many holes
pub open spec fn face_swept(before: &Instance, after: &Instance, face: usize, path: Vector<3>, faces: Seq<usize>) -> bool {
    let f = before.faces@[face as int];
    let g = before.regions@[f.region@ as int];
    let n = region_edge_count(before, g);
    let t = after.faces@[faces[n + 1] as int];
    let tg = after.regions@[t.region@ as int];
    &&& faces.len() == n + 2
    &&& faces[0] == face
    &&& region_sides(
        after,
        before,
        stored_faces(after, faces.subrange(1, n + 1)),
        g.all_cycles(),
        g.all_cycles().len() as int,
        before.surfaces@[f.surface@ as int].geometry,
        path,
    )
    &&& is_translation(after.surfaces@[t.surface@ as int], before.surfaces@[f.surface@ as int], path)
    &&& tg.color == g.color
    &&& tg.interiors@.len() == g.interiors@.len()
    &&& reversed_copy(after, after.cycles@[tg.exterior@ as int].half_edges@, after.cycles@[g.exterior@ as int].half_edges@)
}

/// What a sweep brought about can be read in any later state alone
pub proof fn lemma_face_swept_later(c1: &Instance, c2: &Instance, face: usize, path: Vector<3>, faces: Seq<usize>)
    requires
        c1.wf(),
        c2.extends(c1),
        face < c1.faces@.len(),
        face_swept(c1, c2, face, path, faces),
    ensures
        face_swept(c2, c2, face, path, faces),
{
    let f = c1.faces@[face as int];
    assert(c2.faces@[face as int] == f);
    assert(f.valid_in(c1));
    let g = c1.regions@[f.region@ as int];
    assert(c2.regions@[f.region@ as int] == g);
    assert(g.valid_in(c1));
    assert(c2.surfaces@[f.surface@ as int] == c1.surfaces@[f.surface@ as int]);
    let cs = g.all_cycles();
    assert forall|j: int| 0 <= j < cs.len() implies #[trigger] cs[j] < c1.cycles@.len() by {
        if j > 0 {
            assert(cs[j] == g.interiors@[j - 1]);
        }
    }
    lemma_edge_count_extends(c1, c2, cs, 0);
    let n = region_edge_count(c1, g);
    let sides = stored_faces(c2, faces.subrange(1, n + 1));
    let geometry = c1.surfaces@[f.surface@ as int].geometry;
    assert forall|j: int, k: int|
        0 <= j < cs.len() && 0 <= k < c2.cycles@[cs[j] as int].half_edges@.len() implies is_reversed_side(
            c2,
            #[trigger] sides[side_base(c2, cs, j) + k],
            c2.half_edges@[c2.cycles@[cs[j] as int].half_edges@[c2.cycles@[cs[j] as int].half_edges@.len() - 1 - k] as int],
            geometry,
            path,
        ) by {
        lemma_edge_count_extends(c1, c2, cs, j);
        assert(c2.cycles@[cs[j] as int] == c1.cycles@[cs[j] as int]);
        assert(c1.cycles@[cs[j] as int].valid_in(c1));
        let hs = c1.cycles@[cs[j] as int].half_edges@;
        assert(c2.half_edges@[hs[hs.len() - 1 - k] as int] == c1.half_edges@[hs[hs.len() - 1 - k] as int]);
        assert(side_base(c2, cs, j) == side_base(c1, cs, j));
        assert(is_reversed_side(c2, sides[side_base(c1, cs, j) + k], c1.half_edges@[hs[hs.len() - 1 - k] as int], geometry, path));
    }
}

/// Whether the handles `hs` are `n`, `n + 1`, ... in order
pub open spec fn numbered_from(hs: Seq<usize>, n: int) -> bool {
    forall|k: int| 0 <= k < hs.len() ==> #[trigger] hs[k] == n + k
}

impl Handle<Face> {
    /// Sweep the face into a shell: the face itself at the bottom, then the
    /// side faces, then the top face
    #[verifier::spinoff_prover]
    pub fn sweep_face(&self, path: &Vector<3>, cache: &mut SweepCache, core: &mut Instance) -> (r: Shell)
        requires
            old(core).wf(),
            old(cache).valid_in(old(core)),
            old(core).faces.contains(*self),
            region_sweepable(
                old(core),
                old(core).regions@[old(core).faces@[self@ as int].region@ as int],
                old(core).surfaces@[old(core).faces@[self@ as int].surface@ as int].geometry,
                *path,
            ),
        ensures
            final(core).wf(),
            final(core).extends(old(core)),
            final(cache).valid_in(final(core)),
            final(cache).extends(old(cache)),
            r.valid_in(final(core)),
            r.faces@.len() == 2 + region_edge_count(old(core), old(core).regions@[old(core).faces@[self@ as int].region@ as int]),
            r.faces@[0] == self@,
            numbered_from(r.faces@.subrange(1, r.faces@.len() as int), final(core).faces@.len() - (r.faces@.len() - 1)),
            face_swept(old(core), final(core), self@, *path, r.faces@),
    {
        let ghost c0 = *core;
        let face = *core.faces.get(self);
        proof {
            assert(c0.faces@[self@ as int].valid_in(&c0));
            assert(c0.regions@[face.region@ as int].valid_in(&c0));
        }
        let surface = *core.surfaces.get(&face.surface);
        let stored = core.regions.get(&face.region);
        let region = Region { exterior: stored.exterior, interiors: stored.interiors.clone(), color: stored.color };
        assert(region.all_cycles() =~= c0.regions@[face.region@ as int].all_cycles());
        let swept = region.sweep_region(&surface, path, cache, core);
        let ghost c1 = *core;
        let ghost sides = swept.side_faces@;
        let ghost top = swept.top_face;
        let others = swept.all_faces();
        proof {
            lemma_extends_keeps_valid(c0, c1);
        }
        let handles = insert_faces(others, core);
        let ghost c2 = *core;
        let mut all: Vec<Handle<Face>> = Vec::new();
        all.push(*self);
        let mut i: usize = 0;
        while i < handles.len()
            invariant
                all@.len() == i + 1,
                all@[0]@ == self@,
                i <= handles@.len(),
                forall|k: int| 0 <= k < i ==> #[trigger] all@[k + 1]@ == handles@[k]@,
            decreases handles@.len() - i,
        {
            all.push(handles[i]);
            i += 1;
        }
        proof {
            lemma_extends_trans(&c0, &c1, &c2);
            lemma_ids_of(all@);
            let a = ids_of(all@);
            assert forall|x: int, y: int| 0 <= x < a.len() && 0 <= y < a.len() && x != y implies a[x] != a[y] by {
                if x > 0 {
                    assert(all@[(x - 1) + 1]@ == handles@[x - 1]@);
                }
                if y > 0 {
                    assert(all@[(y - 1) + 1]@ == handles@[y - 1]@);
                }
            }
            assert forall|k: int| 0 <= k < a.len() implies #[trigger] a[k] < core.faces@.len() by {
                if k > 0 {
                    assert(all@[(k - 1) + 1]@ == handles@[k - 1]@);
                }
            }
            assert forall|k: int| 0 <= k < a.len() - 1 implies #[trigger] a.subrange(1, a.len() as int)[k] == c1.faces@.len() + k by {
                assert(all@[k + 1]@ == handles@[k]@);
            }
            let g = c0.regions@[face.region@ as int];
            let n = region_edge_count(&c0, g);
            assert(region.all_cycles() == g.all_cycles());
            assert(n == sides.len());
            let st = stored_faces(core, a.subrange(1, n + 1));
            assert forall|k: int| 0 <= k < n implies st[k] == sides[k] by {
                assert(all@[k + 1]@ == handles@[k]@);
                assert(core.faces@[handles@[k]@ as int] == others@[k]);
            }
            assert(st =~= sides);
            assert(all@[n + 1]@ == handles@[n]@);
            assert(core.faces@[a[n + 1] as int] == top);
            assert(region_sides(core, &c0, sides, g.all_cycles(), g.all_cycles().len() as int, surface.geometry, *path));
            assert(region_sides(core, &c0, st, g.all_cycles(), g.all_cycles().len() as int, surface.geometry, *path));
            assert(surface == c0.surfaces@[face.surface@ as int]);
            assert(core.surfaces@ == c1.surfaces@);
            assert(core.regions@ == c1.regions@);
            assert(core.cycles@ == c1.cycles@);
            assert(is_translation(core.surfaces@[top.surface@ as int], surface, *path));
            assert(core.cycles@[g.exterior@ as int] == c1.cycles@[region.exterior@ as int]);
            assert(face_swept(&c0, core, self@, *path, a));
        }
        Shell::new(Handles::new(all))
    }
}

} // verus!
