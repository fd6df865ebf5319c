use crate::geometry::{point_in_range, vector_in_range, Vector};
use crate::handle::Handle;
use crate::handles::{ids_of, is_distinct, lemma_ids_of, Handles};
use crate::objects::{Curve, Cycle, Face, HalfEdge, Instance, Region, Shell, Surface, Vertex};
use crate::replace::{lemma_extends_refl, lemma_extends_trans};
use std::collections::HashMap;
use vstd::prelude::*;

verus! {

broadcast use vstd::std_specs::hash::group_hash_axioms;

/// Whether `m` maps identities to distinct objects among the first `n`
pub open spec fn map_ok<T>(m: Map<usize, Handle<T>>, n: nat) -> bool {
    &&& forall|k: usize| #[trigger] m.contains_key(k) ==> m[k]@ < n
    &&& forall|a: usize, b: usize|
        #[trigger] m.contains_key(a) && #[trigger] m.contains_key(b) && a != b ==> m[a]@ != m[b]@
}

/// Whether `later` keeps every entry of `earlier`
pub open spec fn map_extends<T>(later: Map<usize, Handle<T>>, earlier: Map<usize, Handle<T>>) -> bool {
    forall|k: usize| #[trigger] earlier.contains_key(k) ==> later.contains_key(k) && later[k] == earlier[k]
}

/// Memory of one transform: for each object already transformed, by kind
/// and identity, its transformed counterpart
///
/// An object reached over several paths is transformed once; all paths
/// reach the same transformed object.
#[derive(Debug)]
pub struct TransformCache {
    pub vertices: HashMap<usize, Handle<Vertex>>,
    pub curves: HashMap<usize, Handle<Curve>>,
    pub surfaces: HashMap<usize, Handle<Surface>>,
    pub half_edges: HashMap<usize, Handle<HalfEdge>>,
    pub cycles: HashMap<usize, Handle<Cycle>>,
    pub regions: HashMap<usize, Handle<Region>>,
    pub faces: HashMap<usize, Handle<Face>>,
}

impl TransformCache {
    /// An empty cache
    pub fn new() -> (r: TransformCache)
        ensures
            r.vertices@ == Map::<usize, Handle<Vertex>>::empty(),
            r.curves@ == Map::<usize, Handle<Curve>>::empty(),
            r.surfaces@ == Map::<usize, Handle<Surface>>::empty(),
            r.half_edges@ == Map::<usize, Handle<HalfEdge>>::empty(),
            r.cycles@ == Map::<usize, Handle<Cycle>>::empty(),
            r.regions@ == Map::<usize, Handle<Region>>::empty(),
            r.faces@ == Map::<usize, Handle<Face>>::empty(),
    {
        TransformCache {
            vertices: HashMap::new(),
            curves: HashMap::new(),
            surfaces: HashMap::new(),
            half_edges: HashMap::new(),
            cycles: HashMap::new(),
            regions: HashMap::new(),
            faces: HashMap::new(),
        }
    }

    /// Whether the cache holds only distinct objects of `core`
    pub open spec fn valid_in(&self, core: &Instance) -> bool {
        &&& map_ok(self.vertices@, core.vertices@.len())
        &&& map_ok(self.curves@, core.curves@.len())
        &&& map_ok(self.surfaces@, core.surfaces@.len())
        &&& map_ok(self.half_edges@, core.half_edges@.len())
        &&& map_ok(self.cycles@, core.cycles@.len())
        &&& map_ok(self.regions@, core.regions@.len())
        &&& map_ok(self.faces@, core.faces@.len())
    }

    /// Whether the cache keeps every entry of `earlier`
    pub open spec fn extends(&self, earlier: &TransformCache) -> bool {
        &&& map_extends(self.vertices@, earlier.vertices@)
        &&& map_extends(self.curves@, earlier.curves@)
        &&& map_extends(self.surfaces@, earlier.surfaces@)
        &&& map_extends(self.half_edges@, earlier.half_edges@)
        &&& map_extends(self.cycles@, earlier.cycles@)
        &&& map_extends(self.regions@, earlier.regions@)
        &&& map_extends(self.faces@, earlier.faces@)
    }
}

/// One transform step: `c1` and `k1` hold what `c0` and `k0` held, and
/// more
pub open spec fn step_ok(c0: &Instance, c1: &Instance, k0: &TransformCache, k1: &TransformCache) -> bool {
    &&& c1.wf()
    &&& c1.extends(c0)
    &&& k1.valid_in(c1)
    &&& k1.extends(k0)
}

proof fn lemma_map_ok_grow<T>(m: Map<usize, Handle<T>>, n: nat, n2: nat)
    requires
        map_ok(m, n),
        n <= n2,
    ensures
        map_ok(m, n2),
{
}

proof fn lemma_map_insert_fresh<T>(m: Map<usize, Handle<T>>, k: usize, v: Handle<T>, n: nat)
    requires
        map_ok(m, n),
        !m.contains_key(k),
        v@ == n,
    ensures
        map_ok(m.insert(k, v), n + 1),
        map_extends(m.insert(k, v), m),
{
    let m2 = m.insert(k, v);
    assert forall|a: usize, b: usize|
        #[trigger] m2.contains_key(a) && #[trigger] m2.contains_key(b) && a != b implies m2[a]@ != m2[b]@ by {
        if a != k && b != k {
            assert(m.contains_key(a) && m.contains_key(b));
        } else if a == k {
            assert(m.contains_key(b));
        } else {
            assert(m.contains_key(a));
        }
    }
}

proof fn lemma_step_trans(c0: &Instance, c1: &Instance, c2: &Instance, k0: &TransformCache, k1: &TransformCache, k2: &TransformCache)
    requires
        step_ok(c0, c1, k0, k1),
        step_ok(c1, c2, k1, k2),
    ensures
        step_ok(c0, c2, k0, k2),
{
    lemma_extends_trans(c0, c1, c2);
}

proof fn lemma_step_refl(c: &Instance, k: &TransformCache)
    requires
        c.wf(),
        k.valid_in(c),
    ensures
        step_ok(c, c, k, k),
{
    lemma_extends_refl(c);
}

/// The cache stays valid as more is stored
proof fn lemma_cache_grow(k: &TransformCache, c1: &Instance, c2: &Instance)
    requires
        k.valid_in(c1),
        c2.extends(c1),
    ensures
        k.valid_in(c2),
{
    lemma_map_ok_grow(k.vertices@, c1.vertices@.len(), c2.vertices@.len());
    lemma_map_ok_grow(k.curves@, c1.curves@.len(), c2.curves@.len());
    lemma_map_ok_grow(k.surfaces@, c1.surfaces@.len(), c2.surfaces@.len());
    lemma_map_ok_grow(k.half_edges@, c1.half_edges@.len(), c2.half_edges@.len());
    lemma_map_ok_grow(k.cycles@, c1.cycles@.len(), c2.cycles@.len());
    lemma_map_ok_grow(k.regions@, c1.regions@.len(), c2.regions@.len());
    lemma_map_ok_grow(k.faces@, c1.faces@.len(), c2.faces@.len());
}

/// The transformed vertex: a new vertex, once for each vertex
fn transform_vertex(h: &Handle<Vertex>, offset: &Vector<3>, cache: &mut TransformCache, core: &mut Instance) -> (r: Handle<Vertex>)
    requires
        old(core).wf(),
        old(cache).valid_in(old(core)),
        coherent(old(core), old(cache), *offset),
    ensures
        coherent(final(core), final(cache), *offset),
        final(cache).curves@ == old(cache).curves@,
        final(cache).surfaces@ == old(cache).surfaces@,
        final(cache).half_edges@ == old(cache).half_edges@,
        final(cache).cycles@ == old(cache).cycles@,
        final(cache).regions@ == old(cache).regions@,
        final(cache).faces@ == old(cache).faces@,
        step_ok(old(core), final(core), old(cache), final(cache)),
        final(cache).vertices@.contains_key(h@),
        final(cache).vertices@[h@] == r,
        old(cache).vertices@.contains_key(h@) ==> r == old(cache).vertices@[h@],
        final(core).half_edges@ == old(core).half_edges@,
{
    let ghost c0 = *core;
    let ghost k0 = *cache;
    match cache.vertices.get(&h.id()) {
        Some(v) => {
            proof {
                lemma_step_refl(core, cache);
            }
            *v
        },
        None => {
            let v = core.insert_vertex(Vertex {});
            cache.vertices.insert(h.id(), v);
            proof {
                lemma_map_insert_fresh(k0.vertices@, h@, v, c0.vertices@.len());
                lemma_cache_grow(&k0, &c0, core);
                lemma_coherent_grow(&c0, core, &k0, cache, *offset);
            }
            v
        },
    }
}

/// The transformed curve: a new curve, once for each curve
fn transform_curve(h: &Handle<Curve>, offset: &Vector<3>, cache: &mut TransformCache, core: &mut Instance) -> (r: Handle<Curve>)
    requires
        old(core).wf(),
        old(cache).valid_in(old(core)),
        coherent(old(core), old(cache), *offset),
    ensures
        coherent(final(core), final(cache), *offset),
        final(cache).vertices@ == old(cache).vertices@,
        final(cache).surfaces@ == old(cache).surfaces@,
        final(cache).half_edges@ == old(cache).half_edges@,
        final(cache).cycles@ == old(cache).cycles@,
        final(cache).regions@ == old(cache).regions@,
        final(cache).faces@ == old(cache).faces@,
        step_ok(old(core), final(core), old(cache), final(cache)),
        final(cache).curves@.contains_key(h@),
        final(cache).curves@[h@] == r,
        old(cache).curves@.contains_key(h@) ==> r == old(cache).curves@[h@],
        final(core).half_edges@ == old(core).half_edges@,
{
    let ghost c0 = *core;
    let ghost k0 = *cache;
    match cache.curves.get(&h.id()) {
        Some(v) => {
            proof {
                lemma_step_refl(core, cache);
            }
            *v
        },
        None => {
            let v = core.insert_curve(Curve {});
            cache.curves.insert(h.id(), v);
            proof {
                lemma_map_insert_fresh(k0.curves@, h@, v, c0.curves@.len());
                lemma_cache_grow(&k0, &c0, core);
                lemma_coherent_grow(&c0, core, &k0, cache, *offset);
            }
            v
        },
    }
}

/// The surface `t` is the surface `s` moved by `offset`
pub open spec fn is_translation(t: Surface, s: Surface, offset: Vector<3>) -> bool {
    &&& t.geometry.u == s.geometry.u
    &&& t.geometry.v == s.geometry.v
    &&& forall|i: int| 0 <= i < 3 ==> #[trigger] t.geometry.origin.coords@[i] == s.geometry.origin.coords@[i] + offset.components@[i]
}

/// The half-edge `t` is the half-edge `e` with its curve and start vertex
/// replaced by their counterparts in `k`
pub open spec fn half_edge_mapped(t: HalfEdge, e: HalfEdge, k: &TransformCache) -> bool {
    &&& t.path == e.path
    &&& t.boundary == e.boundary
    &&& k.curves@.contains_key(e.curve@)
    &&& t.curve@ == k.curves@[e.curve@]@
    &&& k.vertices@.contains_key(e.start_vertex@)
    &&& t.start_vertex@ == k.vertices@[e.start_vertex@]@
}

/// The identities `ts` are the counterparts in `m` of the identities `ss`
pub open spec fn ids_mapped<T>(ts: Seq<usize>, ss: Seq<usize>, m: Map<usize, Handle<T>>) -> bool {
    &&& ts.len() == ss.len()
    &&& forall|i: int| 0 <= i < ss.len() ==> m.contains_key(#[trigger] ss[i]) && ts[i] == m[ss[i]]@
}

/// The face `t` is the face `f` with its surface and region replaced by
/// their counterparts in `k`
pub open spec fn face_mapped(t: Face, f: Face, k: &TransformCache) -> bool {
    &&& k.surfaces@.contains_key(f.surface@)
    &&& t.surface@ == k.surfaces@[f.surface@]@
    &&& k.regions@.contains_key(f.region@)
    &&& t.region@ == k.regions@[f.region@]@
}

/// The region `t` is the region `g` with its cycles replaced by their
/// counterparts in `k`
pub open spec fn region_mapped(t: Region, g: Region, k: &TransformCache) -> bool {
    &&& k.cycles@.contains_key(g.exterior@)
    &&& t.exterior@ == k.cycles@[g.exterior@]@
    &&& ids_mapped(t.interiors@, g.interiors@, k.cycles@)
    &&& t.color == g.color
}

/// Every entry of the cache maps a stored object to its transformed
/// counterpart, under the translation by `offset`
pub open spec fn coherent(c: &Instance, k: &TransformCache, offset: Vector<3>) -> bool {
    &&& forall|s: usize| #[trigger] k.surfaces@.contains_key(s) ==> s < c.surfaces@.len()
        && is_translation(c.surfaces@[k.surfaces@[s]@ as int], c.surfaces@[s as int], offset)
    &&& forall|s: usize| #[trigger] k.half_edges@.contains_key(s) ==> s < c.half_edges@.len()
        && half_edge_mapped(c.half_edges@[k.half_edges@[s]@ as int], c.half_edges@[s as int], k)
    &&& forall|s: usize| #[trigger] k.cycles@.contains_key(s) ==> s < c.cycles@.len()
        && ids_mapped(c.cycles@[k.cycles@[s]@ as int].half_edges@, c.cycles@[s as int].half_edges@, k.half_edges@)
    &&& forall|s: usize| #[trigger] k.regions@.contains_key(s) ==> s < c.regions@.len()
        && region_mapped(c.regions@[k.regions@[s]@ as int], c.regions@[s as int], k)
    &&& forall|s: usize| #[trigger] k.faces@.contains_key(s) ==> s < c.faces@.len()
        && face_mapped(c.faces@[k.faces@[s]@ as int], c.faces@[s as int], k)
}

/// Coherence survives storing more and caching more, where the cache only
/// grows
proof fn lemma_coherent_grow(c1: &Instance, c2: &Instance, k1: &TransformCache, k2: &TransformCache, offset: Vector<3>)
    requires
        coherent(c1, k1, offset),
        k1.valid_in(c1),
        c2.extends(c1),
        k2.extends(k1),
        forall|s: usize| #[trigger] k2.surfaces@.contains_key(s) && !k1.surfaces@.contains_key(s) ==> s < c2.surfaces@.len()
            && is_translation(c2.surfaces@[k2.surfaces@[s]@ as int], c2.surfaces@[s as int], offset),
        forall|s: usize| #[trigger] k2.half_edges@.contains_key(s) && !k1.half_edges@.contains_key(s) ==> s < c2.half_edges@.len()
            && half_edge_mapped(c2.half_edges@[k2.half_edges@[s]@ as int], c2.half_edges@[s as int], k2),
        forall|s: usize| #[trigger] k2.cycles@.contains_key(s) && !k1.cycles@.contains_key(s) ==> s < c2.cycles@.len()
            && ids_mapped(c2.cycles@[k2.cycles@[s]@ as int].half_edges@, c2.cycles@[s as int].half_edges@, k2.half_edges@),
        forall|s: usize| #[trigger] k2.regions@.contains_key(s) && !k1.regions@.contains_key(s) ==> s < c2.regions@.len()
            && region_mapped(c2.regions@[k2.regions@[s]@ as int], c2.regions@[s as int], k2),
        forall|s: usize| #[trigger] k2.faces@.contains_key(s) && !k1.faces@.contains_key(s) ==> s < c2.faces@.len()
            && face_mapped(c2.faces@[k2.faces@[s]@ as int], c2.faces@[s as int], k2),
    ensures
        coherent(c2, k2, offset),
{
    assert forall|s: usize| #[trigger] k2.surfaces@.contains_key(s) implies s < c2.surfaces@.len()
        && is_translation(c2.surfaces@[k2.surfaces@[s]@ as int], c2.surfaces@[s as int], offset) by {
        if k1.surfaces@.contains_key(s) {
            assert(c2.surfaces@[k1.surfaces@[s]@ as int] == c1.surfaces@[k1.surfaces@[s]@ as int]);
            assert(c2.surfaces@[s as int] == c1.surfaces@[s as int]);
        }
    }
    assert forall|s: usize| #[trigger] k2.half_edges@.contains_key(s) implies s < c2.half_edges@.len()
        && half_edge_mapped(c2.half_edges@[k2.half_edges@[s]@ as int], c2.half_edges@[s as int], k2) by {
        if k1.half_edges@.contains_key(s) {
            assert(c2.half_edges@[k1.half_edges@[s]@ as int] == c1.half_edges@[k1.half_edges@[s]@ as int]);
            assert(c2.half_edges@[s as int] == c1.half_edges@[s as int]);
            assert(half_edge_mapped(c1.half_edges@[k1.half_edges@[s]@ as int], c1.half_edges@[s as int], k1));
        }
    }
    assert forall|s: usize| #[trigger] k2.cycles@.contains_key(s) implies s < c2.cycles@.len()
        && ids_mapped(c2.cycles@[k2.cycles@[s]@ as int].half_edges@, c2.cycles@[s as int].half_edges@, k2.half_edges@) by {
        if k1.cycles@.contains_key(s) {
            assert(c2.cycles@[k1.cycles@[s]@ as int] == c1.cycles@[k1.cycles@[s]@ as int]);
            assert(c2.cycles@[s as int] == c1.cycles@[s as int]);
            let ts = c1.cycles@[k1.cycles@[s]@ as int].half_edges@;
            let ss = c1.cycles@[s as int].half_edges@;
            assert(ids_mapped(ts, ss, k1.half_edges@));
            assert forall|i: int| 0 <= i < ss.len() implies k2.half_edges@.contains_key(#[trigger] ss[i]) && ts[i] == k2.half_edges@[ss[i]]@ by {
                assert(k1.half_edges@.contains_key(ss[i]));
            }
        }
    }
    assert forall|s: usize| #[trigger] k2.regions@.contains_key(s) implies s < c2.regions@.len()
        && region_mapped(c2.regions@[k2.regions@[s]@ as int], c2.regions@[s as int], k2) by {
        if k1.regions@.contains_key(s) {
            assert(c2.regions@[k1.regions@[s]@ as int] == c1.regions@[k1.regions@[s]@ as int]);
            assert(c2.regions@[s as int] == c1.regions@[s as int]);
            let t = c1.regions@[k1.regions@[s]@ as int];
            let g = c1.regions@[s as int];
            assert(region_mapped(t, g, k1));
            assert forall|i: int| 0 <= i < g.interiors@.len() implies k2.cycles@.contains_key(#[trigger] g.interiors@[i]) && t.interiors@[i] == k2.cycles@[g.interiors@[i]]@ by {
                assert(k1.cycles@.contains_key(g.interiors@[i]));
            }
        }
    }
    assert forall|s: usize| #[trigger] k2.faces@.contains_key(s) implies s < c2.faces@.len()
        && face_mapped(c2.faces@[k2.faces@[s]@ as int], c2.faces@[s as int], k2) by {
        if k1.faces@.contains_key(s) {
            assert(c2.faces@[k1.faces@[s]@ as int] == c1.faces@[k1.faces@[s]@ as int]);
            assert(c2.faces@[s as int] == c1.faces@[s as int]);
        }
    }
}

/// The transformed surface: the surface moved by `offset`, once for each
/// surface
fn transform_surface(h: &Handle<Surface>, offset: &Vector<3>, cache: &mut TransformCache, core: &mut Instance) -> (r: Handle<Surface>)
    requires
        old(core).wf(),
        old(cache).valid_in(old(core)),
        coherent(old(core), old(cache), *offset),
        old(core).surfaces.contains(*h),
        point_in_range(old(core).surfaces@[h@ as int].geometry.origin),
        vector_in_range(*offset),
    ensures
        step_ok(old(core), final(core), old(cache), final(cache)),
        coherent(final(core), final(cache), *offset),
        final(cache).surfaces@.contains_key(h@),
        final(cache).surfaces@[h@] == r,
        old(cache).surfaces@.contains_key(h@) ==> r == old(cache).surfaces@[h@],
        final(cache).vertices@ == old(cache).vertices@,
        final(cache).curves@ == old(cache).curves@,
        final(cache).half_edges@ == old(cache).half_edges@,
        final(cache).cycles@ == old(cache).cycles@,
        final(cache).regions@ == old(cache).regions@,
        final(cache).faces@ == old(cache).faces@,
{
    let ghost c0 = *core;
    let ghost k0 = *cache;
    match cache.surfaces.get(&h.id()) {
        Some(v) => {
            proof {
                lemma_step_refl(core, cache);
            }
            *v
        },
        None => {
            let geometry = core.surfaces.get(h).geometry.translate(offset);
            let v = core.insert_surface(Surface { geometry });
            cache.surfaces.insert(h.id(), v);
            proof {
                lemma_map_insert_fresh(k0.surfaces@, h@, v, c0.surfaces@.len());
                lemma_cache_grow(&k0, &c0, core);
                assert(core.surfaces@[h@ as int] == c0.surfaces@[h@ as int]);
                lemma_coherent_grow(&c0, core, &k0, cache, *offset);
            }
            v
        },
    }
}

/// The transformed half-edge: on the same path and boundary, with its curve
/// and start vertex transformed; once for each half-edge
fn transform_half_edge(h: &Handle<HalfEdge>, offset: &Vector<3>, cache: &mut TransformCache, core: &mut Instance) -> (r: Handle<HalfEdge>)
    requires
        old(core).wf(),
        old(cache).valid_in(old(core)),
        coherent(old(core), old(cache), *offset),
        old(core).half_edges.contains(*h),
    ensures
        step_ok(old(core), final(core), old(cache), final(cache)),
        coherent(final(core), final(cache), *offset),
        final(cache).half_edges@.contains_key(h@),
        final(cache).half_edges@[h@] == r,
        old(cache).half_edges@.contains_key(h@) ==> r == old(cache).half_edges@[h@],
        final(cache).surfaces@ == old(cache).surfaces@,
        final(cache).cycles@ == old(cache).cycles@,
        final(cache).regions@ == old(cache).regions@,
        final(cache).faces@ == old(cache).faces@,
{
    let ghost c0 = *core;
    let ghost k0 = *cache;
    match cache.half_edges.get(&h.id()) {
        Some(v) => {
            proof {
                lemma_step_refl(core, cache);
            }
            *v
        },
        None => {
            let e = *core.half_edges.get(h);
            proof {
                assert(c0.half_edges@[h@ as int].valid_in(&c0));
            }
            let curve = transform_curve(&e.curve, offset, cache, core);
            let ghost c1 = *core;
            let ghost k1 = *cache;
            let start_vertex = transform_vertex(&e.start_vertex, offset, cache, core);
            let ghost c2 = *core;
            let ghost k2 = *cache;
            proof {
                lemma_step_trans(&c0, &c1, &c2, &k0, &k1, &k2);
            }
            let t = core.insert_half_edge(HalfEdge { path: e.path, boundary: e.boundary, curve, start_vertex });
            cache.half_edges.insert(h.id(), t);
            proof {
                lemma_map_insert_fresh(k2.half_edges@, h@, t, c2.half_edges@.len());
                lemma_cache_grow(&k2, &c2, core);
                assert(core.half_edges@[h@ as int] == c0.half_edges@[h@ as int]);
                lemma_coherent_grow(&c2, core, &k2, cache, *offset);
                lemma_extends_trans(&c0, &c2, core);
            }
            t
        },
    }
}

/// The transformed cycle: its half-edges transformed, in order; once for
/// each cycle
#[verifier::spinoff_prover]
fn transform_cycle(h: &Handle<Cycle>, offset: &Vector<3>, cache: &mut TransformCache, core: &mut Instance) -> (r: Handle<Cycle>)
    requires
        old(core).wf(),
        old(cache).valid_in(old(core)),
        coherent(old(core), old(cache), *offset),
        old(core).cycles.contains(*h),
    ensures
        step_ok(old(core), final(core), old(cache), final(cache)),
        coherent(final(core), final(cache), *offset),
        final(cache).cycles@.contains_key(h@),
        final(cache).cycles@[h@] == r,
        old(cache).cycles@.contains_key(h@) ==> r == old(cache).cycles@[h@],
        final(cache).surfaces@ == old(cache).surfaces@,
        final(cache).regions@ == old(cache).regions@,
        final(cache).faces@ == old(cache).faces@,
{
    let ghost c0 = *core;
    let ghost k0 = *cache;
    match cache.cycles.get(&h.id()) {
        Some(v) => {
            proof {
                lemma_step_refl(core, cache);
            }
            *v
        },
        None => {
            let stored = core.cycles.get(h);
            proof {
                assert(c0.cycles@[h@ as int].valid_in(&c0));
                use_type_invariant(&stored.half_edges);
            }
            let source = stored.half_edges.clone();
            let ghost ss = source@;
            let hs = source.iter();
            proof {
                lemma_ids_of(hs@);
                lemma_step_refl(core, cache);
            }
            let mut ts: Vec<Handle<HalfEdge>> = Vec::new();
            let mut i: usize = 0;
            while i < hs.len()
                invariant
                    c0.wf(),
                    step_ok(&c0, core, &k0, cache),
                    coherent(core, cache, *offset),
                    !cache.cycles@.contains_key(h@),
                    cache.surfaces@ == k0.surfaces@,
                    cache.cycles@ == k0.cycles@,
                    cache.regions@ == k0.regions@,
                    cache.faces@ == k0.faces@,
                    ids_of(hs@) == ss,
                    ss == c0.cycles@[h@ as int].half_edges@,
                    is_distinct(ss),
                    c0.cycles@[h@ as int].valid_in(&c0),
                    i <= ss.len(),
                    ts@.len() == i,
                    forall|k: int| 0 <= k < i ==> cache.half_edges@.contains_key(#[trigger] ss[k]) && ts@[k] == cache.half_edges@[ss[k]],
                decreases ss.len() - i,
            {
                let ghost ck = *core;
                let ghost kk = *cache;
                proof {
                    lemma_ids_of(hs@);
                    assert(ss[i as int] < c0.half_edges@.len());
                }
                let t = transform_half_edge(&hs[i], offset, cache, core);
                ts.push(t);
                proof {
                    lemma_step_trans(&c0, &ck, core, &k0, &kk, cache);
                    assert forall|k: int| 0 <= k < i + 1 implies cache.half_edges@.contains_key(#[trigger] ss[k]) && ts@[k] == cache.half_edges@[ss[k]] by {
                        if k < i {
                            assert(kk.half_edges@.contains_key(ss[k]));
                        }
                    }
                }
                i += 1;
            }
            let ghost c1 = *core;
            let ghost k1 = *cache;
            proof {
                lemma_ids_of(ts@);
                let t = ids_of(ts@);
                assert forall|x: int, y: int| 0 <= x < t.len() && 0 <= y < t.len() && x != y implies t[x] != t[y] by {
                    assert(cache.half_edges@.contains_key(ss[x]));
                    assert(cache.half_edges@.contains_key(ss[y]));
                    assert(ss[x] != ss[y]);
                }
                assert forall|k: int| 0 <= k < t.len() implies #[trigger] t[k] < core.half_edges@.len() by {
                    assert(cache.half_edges@.contains_key(ss[k]));
                }
            }
            let ghost tv = ts@;
            let v = core.insert_cycle(Cycle::new(ts));
            cache.cycles.insert(h.id(), v);
            proof {
                lemma_map_insert_fresh(k1.cycles@, h@, v, c1.cycles@.len());
                lemma_cache_grow(&k1, &c1, core);
                assert(core.cycles@[h@ as int] == c0.cycles@[h@ as int]);
                assert(ids_mapped(core.cycles@[v@ as int].half_edges@, core.cycles@[h@ as int].half_edges@, cache.half_edges@)) by {
                    assert(core.cycles@[v@ as int].half_edges@ == ids_of(tv));
                    assert forall|k: int| 0 <= k < ss.len() implies cache.half_edges@.contains_key(#[trigger] ss[k]) && ids_of(tv)[k] == cache.half_edges@[ss[k]]@ by {
                        assert(tv[k] == k1.half_edges@[ss[k]]);
                    }
                }
                lemma_coherent_grow(&c1, core, &k1, cache, *offset);
                lemma_extends_trans(&c0, &c1, core);
            }
            v
        },
    }
}

/// The transformed region: its cycles transformed, the same color; once for
/// each region
#[verifier::spinoff_prover]
fn transform_region(h: &Handle<Region>, offset: &Vector<3>, cache: &mut TransformCache, core: &mut Instance) -> (r: Handle<Region>)
    requires
        old(core).wf(),
        old(cache).valid_in(old(core)),
        coherent(old(core), old(cache), *offset),
        old(core).regions.contains(*h),
    ensures
        step_ok(old(core), final(core), old(cache), final(cache)),
        coherent(final(core), final(cache), *offset),
        final(cache).regions@.contains_key(h@),
        final(cache).regions@[h@] == r,
        old(cache).regions@.contains_key(h@) ==> r == old(cache).regions@[h@],
        final(cache).surfaces@ == old(cache).surfaces@,
        final(cache).faces@ == old(cache).faces@,
{
    let ghost c0 = *core;
    let ghost k0 = *cache;
    match cache.regions.get(&h.id()) {
        Some(v) => {
            proof {
                lemma_step_refl(core, cache);
            }
            *v
        },
        None => {
            let stored = core.regions.get(h);
            proof {
                assert(c0.regions@[h@ as int].valid_in(&c0));
                use_type_invariant(&stored.interiors);
            }
            let color = stored.color;
            let exterior_source = stored.exterior;
            let source = stored.interiors.clone();
            let ghost ss = source@;
            let hs = source.iter();
            proof {
                lemma_ids_of(hs@);
            }
            let exterior = transform_cycle(&exterior_source, offset, cache, core);
            let mut ts: Vec<Handle<Cycle>> = Vec::new();
            let mut i: usize = 0;
            while i < hs.len()
                invariant
                    c0.wf(),
                    step_ok(&c0, core, &k0, cache),
                    coherent(core, cache, *offset),
                    !cache.regions@.contains_key(h@),
                    cache.surfaces@ == k0.surfaces@,
                    cache.regions@ == k0.regions@,
                    cache.faces@ == k0.faces@,
                    cache.cycles@.contains_key(exterior_source@),
                    cache.cycles@[exterior_source@] == exterior,
                    exterior_source == c0.regions@[h@ as int].exterior,
                    ids_of(hs@) == ss,
                    ss == c0.regions@[h@ as int].interiors@,
                    is_distinct(ss),
                    c0.regions@[h@ as int].valid_in(&c0),
                    i <= ss.len(),
                    ts@.len() == i,
                    forall|k: int| 0 <= k < i ==> cache.cycles@.contains_key(#[trigger] ss[k]) && ts@[k] == cache.cycles@[ss[k]],
                decreases ss.len() - i,
            {
                let ghost ck = *core;
                let ghost kk = *cache;
                proof {
                    lemma_ids_of(hs@);
                    assert(ss[i as int] < c0.cycles@.len());
                }
                let t = transform_cycle(&hs[i], offset, cache, core);
                ts.push(t);
                proof {
                    lemma_step_trans(&c0, &ck, core, &k0, &kk, cache);
                    assert forall|k: int| 0 <= k < i + 1 implies cache.cycles@.contains_key(#[trigger] ss[k]) && ts@[k] == cache.cycles@[ss[k]] by {
                        if k < i {
                            assert(kk.cycles@.contains_key(ss[k]));
                        }
                    }
                }
                i += 1;
            }
            let ghost c1 = *core;
            let ghost k1 = *cache;
            proof {
                lemma_ids_of(ts@);
                let t = ids_of(ts@);
                assert forall|x: int, y: int| 0 <= x < t.len() && 0 <= y < t.len() && x != y implies t[x] != t[y] by {
                    assert(cache.cycles@.contains_key(ss[x]));
                    assert(cache.cycles@.contains_key(ss[y]));
                    assert(ss[x] != ss[y]);
                }
                assert forall|k: int| 0 <= k < t.len() implies #[trigger] t[k] < core.cycles@.len() by {
                    assert(cache.cycles@.contains_key(ss[k]));
                }
            }
            let ghost tv = ts@;
            let region = Region::new(exterior, Handles::new(ts), color);
            let v = core.insert_region(region);
            cache.regions.insert(h.id(), v);
            proof {
                lemma_map_insert_fresh(k1.regions@, h@, v, c1.regions@.len());
                lemma_cache_grow(&k1, &c1, core);
                assert(core.regions@[h@ as int] == c0.regions@[h@ as int]);
                assert(core.regions@[v@ as int] == region);
                assert(region.exterior@ == exterior@);
                assert(cache.cycles@ == k1.cycles@);
                assert(k1.cycles@.contains_key(exterior_source@));
                assert(region.color == c0.regions@[h@ as int].color);
                assert(region.interiors@ == ids_of(tv));
                assert(region_mapped(region, core.regions@[h@ as int], cache)) by {
                    assert forall|k: int| 0 <= k < ss.len() implies cache.cycles@.contains_key(#[trigger] ss[k]) && region.interiors@[k] == cache.cycles@[ss[k]]@ by {
                        assert(tv[k] == k1.cycles@[ss[k]]);
                    }
                }
                lemma_coherent_grow(&c1, core, &k1, cache, *offset);
                lemma_extends_trans(&c0, &c1, core);
            }
            v
        },
    }
}

/// The transformed face: its surface and region transformed; once for each
/// face
fn transform_face(h: &Handle<Face>, offset: &Vector<3>, cache: &mut TransformCache, core: &mut Instance) -> (r: Handle<Face>)
    requires
        old(core).wf(),
        old(cache).valid_in(old(core)),
        coherent(old(core), old(cache), *offset),
        old(core).faces.contains(*h),
        point_in_range(old(core).surfaces@[old(core).faces@[h@ as int].surface@ as int].geometry.origin),
        vector_in_range(*offset),
    ensures
        step_ok(old(core), final(core), old(cache), final(cache)),
        coherent(final(core), final(cache), *offset),
        final(cache).faces@.contains_key(h@),
        final(cache).faces@[h@] == r,
        old(cache).faces@.contains_key(h@) ==> r == old(cache).faces@[h@],
        old(cache).faces@.contains_key(h@) ==> *final(core) == *old(core) && *final(cache) == *old(cache),
{
    let ghost c0 = *core;
    let ghost k0 = *cache;
    match cache.faces.get(&h.id()) {
        Some(v) => {
            proof {
                lemma_step_refl(core, cache);
            }
            *v
        },
        None => {
            let f = *core.faces.get(h);
            proof {
                assert(c0.faces@[h@ as int].valid_in(&c0));
            }
            let surface = transform_surface(&f.surface, offset, cache, core);
            let ghost c1 = *core;
            let ghost k1 = *cache;
            proof {
                assert(core.regions@[f.region@ as int] == c0.regions@[f.region@ as int]);
            }
            let region = transform_region(&f.region, offset, cache, core);
            let ghost c2 = *core;
            let ghost k2 = *cache;
            proof {
                lemma_step_trans(&c0, &c1, &c2, &k0, &k1, &k2);
            }
            let v = core.insert_face(Face::new(surface, region));
            cache.faces.insert(h.id(), v);
            proof {
                lemma_map_insert_fresh(k2.faces@, h@, v, c2.faces@.len());
                lemma_cache_grow(&k2, &c2, core);
                assert(core.faces@[h@ as int] == c0.faces@[h@ as int]);
                lemma_coherent_grow(&c2, core, &k2, cache, *offset);
                lemma_extends_trans(&c0, &c2, core);
            }
            v
        },
    }
}

impl Handle<Face> {
    /// Translate the face by `offset`, with everything it owns, using and
    /// filling `cache`
    ///
    /// An object that the cache already holds is not transformed again: its
    /// counterpart is reused, so objects that the face shares with objects
    /// transformed before keep being shared.
    pub fn transform_with_cache(&self, offset: &Vector<3>, core: &mut Instance, cache: &mut TransformCache) -> (r: Handle<Face>)
        requires
            old(core).wf(),
            old(cache).valid_in(old(core)),
            coherent(old(core), old(cache), *offset),
            old(core).faces.contains(*self),
            point_in_range(old(core).surfaces@[old(core).faces@[self@ as int].surface@ as int].geometry.origin),
            vector_in_range(*offset),
        ensures
            step_ok(old(core), final(core), old(cache), final(cache)),
            coherent(final(core), final(cache), *offset),
            final(cache).faces@.contains_key(self@),
            final(cache).faces@[self@] == r,
            old(cache).faces@.contains_key(self@) ==> r == old(cache).faces@[self@],
            old(cache).faces@.contains_key(self@) ==> *final(core) == *old(core) && *final(cache) == *old(cache),
            face_mapped(final(core).faces@[r@ as int], old(core).faces@[self@ as int], final(cache)),
    {
        let ghost c0 = *core;
        let r = transform_face(self, offset, cache, core);
        proof {
            assert(core.faces@[self@ as int] == c0.faces@[self@ as int]);
        }
        r
    }

    /// Translate the face by `offset`, with everything it owns; each object
    /// is transformed once, however often the face reaches it
    pub fn translate(&self, offset: &Vector<3>, core: &mut Instance) -> (r: Handle<Face>)
        requires
            old(core).wf(),
            old(core).faces.contains(*self),
            point_in_range(old(core).surfaces@[old(core).faces@[self@ as int].surface@ as int].geometry.origin),
            vector_in_range(*offset),
        ensures
            final(core).wf(),
            final(core).extends(old(core)),
            r@ < final(core).faces@.len(),
            is_translation(
                final(core).surfaces@[final(core).faces@[r@ as int].surface@ as int],
                old(core).surfaces@[old(core).faces@[self@ as int].surface@ as int],
                *offset,
            ),
    {
        let ghost c0 = *core;
        let mut cache = TransformCache::new();
        let r = self.transform_with_cache(offset, core, &mut cache);
        proof {
            let f = c0.faces@[self@ as int];
            assert(c0.faces@[self@ as int].valid_in(&c0));
            assert(cache.surfaces@.contains_key(f.surface@));
            assert(core.surfaces@[f.surface@ as int] == c0.surfaces@[f.surface@ as int]);
        }
        r
    }
}

impl Shell {
    /// Translate the shell by `offset`, with everything it owns, using and
    /// filling `cache`: the shell of the transformed faces, in order
    #[verifier::spinoff_prover]
    pub fn transform_with_cache(&self, offset: &Vector<3>, core: &mut Instance, cache: &mut TransformCache) -> (r: Shell)
        requires
            old(core).wf(),
            old(cache).valid_in(old(core)),
            coherent(old(core), old(cache), *offset),
            self.valid_in(old(core)),
            forall|i: int|
                0 <= i < self.faces@.len() ==> point_in_range(
                    old(core).surfaces@[old(core).faces@[#[trigger] self.faces@[i] as int].surface@ as int].geometry.origin,
                ),
            vector_in_range(*offset),
        ensures
            step_ok(old(core), final(core), old(cache), final(cache)),
            coherent(final(core), final(cache), *offset),
            r.valid_in(final(core)),
            ids_mapped(r.faces@, self.faces@, final(cache).faces@),
    {
        let ghost c0 = *core;
        let ghost k0 = *cache;
        let ghost ss = self.faces@;
        let faces = self.faces.iter();
        proof {
            use_type_invariant(&self.faces);
            lemma_ids_of(faces@);
            lemma_step_refl(core, cache);
        }
        let mut ts: Vec<Handle<Face>> = Vec::new();
        let mut i: usize = 0;
        while i < faces.len()
            invariant
                c0.wf(),
                step_ok(&c0, core, &k0, cache),
                coherent(core, cache, *offset),
                vector_in_range(*offset),
                ids_of(faces@) == ss,
                ss == self.faces@,
                is_distinct(ss),
                self.valid_in(&c0),
                forall|i: int|
                    0 <= i < ss.len() ==> point_in_range(
                        c0.surfaces@[c0.faces@[#[trigger] ss[i] as int].surface@ as int].geometry.origin,
                    ),
                i <= ss.len(),
                ts@.len() == i,
                forall|k: int| 0 <= k < i ==> cache.faces@.contains_key(#[trigger] ss[k]) && ts@[k] == cache.faces@[ss[k]],
            decreases ss.len() - i,
        {
            let ghost ck = *core;
            let ghost kk = *cache;
            proof {
                lemma_ids_of(faces@);
                let f = ss[i as int];
                assert(f < c0.faces@.len());
                assert(core.faces@[f as int] == c0.faces@[f as int]);
                assert(c0.faces@[f as int].valid_in(&c0));
                assert(core.surfaces@[c0.faces@[f as int].surface@ as int] == c0.surfaces@[c0.faces@[f as int].surface@ as int]);
            }
            let t = transform_face(&faces[i], offset, cache, core);
            ts.push(t);
            proof {
                lemma_step_trans(&c0, &ck, core, &k0, &kk, cache);
                assert forall|k: int| 0 <= k < i + 1 implies cache.faces@.contains_key(#[trigger] ss[k]) && ts@[k] == cache.faces@[ss[k]] by {
                    if k < i {
                        assert(kk.faces@.contains_key(ss[k]));
                    }
                }
            }
            i += 1;
        }
        proof {
            lemma_ids_of(ts@);
            let t = ids_of(ts@);
            assert forall|x: int, y: int| 0 <= x < t.len() && 0 <= y < t.len() && x != y implies t[x] != t[y] by {
                assert(cache.faces@.contains_key(ss[x]));
                assert(cache.faces@.contains_key(ss[y]));
                assert(ss[x] != ss[y]);
            }
            assert forall|k: int| 0 <= k < t.len() implies #[trigger] t[k] < core.faces@.len() by {
                assert(cache.faces@.contains_key(ss[k]));
            }
            assert forall|k: int| 0 <= k < ss.len() implies cache.faces@.contains_key(#[trigger] ss[k]) && t[k] == cache.faces@[ss[k]]@ by {
            }
        }
        Shell::new(Handles::new(ts))
    }
}

/// Transforming keeps what objects share: where two faces share a region,
/// or two half-edges share a curve or a start vertex, their transformed
/// counterparts share the transformed region, curve or vertex, as one cache
/// holds them.
pub proof fn lemma_transform_keeps_sharing(c: &Instance, k: &TransformCache, offset: Vector<3>, a: usize, b: usize)
    requires
        coherent(c, k, offset),
    ensures
        k.faces@.contains_key(a) && k.faces@.contains_key(b) && c.faces@[a as int].region@ == c.faces@[b as int].region@
            ==> c.faces@[k.faces@[a]@ as int].region@ == c.faces@[k.faces@[b]@ as int].region@,
        k.half_edges@.contains_key(a) && k.half_edges@.contains_key(b) && c.half_edges@[a as int].curve@
            == c.half_edges@[b as int].curve@ ==> c.half_edges@[k.half_edges@[a]@ as int].curve@
            == c.half_edges@[k.half_edges@[b]@ as int].curve@,
        k.half_edges@.contains_key(a) && k.half_edges@.contains_key(b) && c.half_edges@[a as int].start_vertex@
            == c.half_edges@[b as int].start_vertex@ ==> c.half_edges@[k.half_edges@[a]@ as int].start_vertex@
            == c.half_edges@[k.half_edges@[b]@ as int].start_vertex@,
{
}

} // verus!
