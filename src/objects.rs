use crate::geometry::{SurfaceGeometry, SurfacePath};
use crate::handle::{Handle, Store};
use crate::handles::{ids_of, is_distinct, Handles};
use vstd::prelude::*;

verus! {

/// A point where half-edges meet; it is known by its identity alone
#[derive(Clone, Copy, Debug, PartialEq, Eq)]
pub struct Vertex {}

/// A curve that half-edges of neighbouring faces share; known by its identity
#[derive(Clone, Copy, Debug, PartialEq, Eq)]
pub struct Curve {}

/// A surface that faces are defined on
#[derive(Clone, Copy, Debug, PartialEq, Eq)]
pub struct Surface {
    /// Where the surface lies
    pub geometry: SurfaceGeometry,
}

/// An RGBA color
#[derive(Clone, Copy, Debug, PartialEq, Eq)]
pub struct Color(pub [u8; 4]);

/// A directed part of a curve, from the boundary's first parameter to its
/// second
#[derive(Clone, Copy, Debug)]
pub struct HalfEdge {
    /// The path in the coordinates of the surface
    pub path: SurfacePath,
    /// The parameters on `path` at which the half-edge starts and ends
    pub boundary: [i64; 2],
    /// The curve this half-edge is a part of
    pub curve: Handle<Curve>,
    /// The vertex at the start of the half-edge
    pub start_vertex: Handle<Vertex>,
}

/// A cycle of connected half-edges
#[derive(Debug)]
pub struct Cycle {
    pub half_edges: Handles<HalfEdge>,
}

/// A face's area: one exterior cycle and any number of holes
#[derive(Debug)]
pub struct Region {
    pub exterior: Handle<Cycle>,
    pub interiors: Handles<Cycle>,
    pub color: Option<Color>,
}

/// A region on a surface
#[derive(Clone, Copy, Debug)]
pub struct Face {
    pub surface: Handle<Surface>,
    pub region: Handle<Region>,
}

/// A set of faces that bound a volume, or an open surface
#[derive(Debug)]
pub struct Shell {
    pub faces: Handles<Face>,
}

/// A solid, bounded by shells
#[derive(Debug)]
pub struct Solid {
    pub shells: Handles<Shell>,
}

impl Cycle {
    /// Create a cycle from half-edges that are pairwise distinct
    pub fn new(half_edges: Vec<Handle<HalfEdge>>) -> (r: Cycle)
        requires
            is_distinct(ids_of(half_edges@)),
        ensures
            r.half_edges@ == ids_of(half_edges@),
    {
        Cycle { half_edges: Handles::new(half_edges) }
    }

    /// Access the half-edges of the cycle
    pub fn half_edges(&self) -> (r: &Handles<HalfEdge>)
        ensures
            r@ == self.half_edges@,
    {
        &self.half_edges
    }
}

impl Region {
    /// Create a region
    pub fn new(exterior: Handle<Cycle>, interiors: Handles<Cycle>, color: Option<Color>) -> (r:
        Region)
        ensures
            r.exterior@ == exterior@,
            r.interiors@ == interiors@,
            r.color == color,
    {
        Region { exterior, interiors, color }
    }
}

impl Face {
    /// Create a face
    pub fn new(surface: Handle<Surface>, region: Handle<Region>) -> (r: Face)
        ensures
            r.surface@ == surface@,
            r.region@ == region@,
    {
        Face { surface, region }
    }
}

impl Shell {
    /// Create a shell
    pub fn new(faces: Handles<Face>) -> (r: Shell)
        ensures
            r.faces@ == faces@,
    {
        Shell { faces }
    }

    /// Access the faces of the shell
    pub fn faces(&self) -> (r: &Handles<Face>)
        ensures
            r@ == self.faces@,
    {
        &self.faces
    }
}

/// All objects of one modelling session, each kind in its own store
#[derive(Debug)]
pub struct Instance {
    pub vertices: Store<Vertex>,
    pub curves: Store<Curve>,
    pub surfaces: Store<Surface>,
    pub half_edges: Store<HalfEdge>,
    pub cycles: Store<Cycle>,
    pub regions: Store<Region>,
    pub faces: Store<Face>,
    pub shells: Store<Shell>,
    pub solids: Store<Solid>,
}

/// Whether every identity of `ids` refers to one of `n` stored objects
pub open spec fn all_below(ids: Seq<usize>, n: nat) -> bool {
    forall|i: int| 0 <= i < ids.len() ==> #[trigger] ids[i] < n
}

impl HalfEdge {
    /// Whether the handles of the half-edge refer to objects of `core`
    pub open spec fn valid_in(&self, core: &Instance) -> bool {
        &&& core.curves.contains(self.curve)
        &&& core.vertices.contains(self.start_vertex)
    }
}

impl Cycle {
    /// Whether the handles of the cycle refer to objects of `core`
    pub open spec fn valid_in(&self, core: &Instance) -> bool {
        all_below(self.half_edges@, core.half_edges@.len())
    }
}

impl Region {
    /// Whether the handles of the region refer to objects of `core`
    pub open spec fn valid_in(&self, core: &Instance) -> bool {
        &&& core.cycles.contains(self.exterior)
        &&& all_below(self.interiors@, core.cycles@.len())
    }

    /// The exterior cycle followed by the interior ones
    pub open spec fn all_cycles(&self) -> Seq<usize> {
        seq![self.exterior@].add(self.interiors@)
    }
}

impl Face {
    /// Whether the handles of the face refer to objects of `core`
    pub open spec fn valid_in(&self, core: &Instance) -> bool {
        &&& core.surfaces.contains(self.surface)
        &&& core.regions.contains(self.region)
    }
}

impl Shell {
    /// Whether the handles of the shell refer to objects of `core`
    pub open spec fn valid_in(&self, core: &Instance) -> bool {
        all_below(self.faces@, core.faces@.len())
    }
}

impl Solid {
    /// Whether the handles of the solid refer to objects of `core`
    pub open spec fn valid_in(&self, core: &Instance) -> bool {
        all_below(self.shells@, core.shells@.len())
    }
}

/// Objects that refer only to stored objects still do so once more is stored
pub proof fn lemma_extends_keeps_valid(earlier: Instance, later: Instance)
    requires
        later.extends(&earlier),
    ensures
        forall|h: HalfEdge| #[trigger] h.valid_in(&earlier) ==> h.valid_in(&later),
        forall|c: Cycle| #[trigger] c.valid_in(&earlier) ==> c.valid_in(&later),
        forall|r: Region| #[trigger] r.valid_in(&earlier) ==> r.valid_in(&later),
        forall|f: Face| #[trigger] f.valid_in(&earlier) ==> f.valid_in(&later),
        forall|s: Shell| #[trigger] s.valid_in(&earlier) ==> s.valid_in(&later),
        forall|s: Solid| #[trigger] s.valid_in(&earlier) ==> s.valid_in(&later),
        earlier.wf() ==> forall|i: int|
            0 <= i < earlier.half_edges@.len() ==> #[trigger] later.half_edges@[i].valid_in(&later),
        earlier.wf() ==> forall|i: int|
            0 <= i < earlier.cycles@.len() ==> #[trigger] later.cycles@[i].valid_in(&later),
        earlier.wf() ==> forall|i: int|
            0 <= i < earlier.regions@.len() ==> #[trigger] later.regions@[i].valid_in(&later),
        earlier.wf() ==> forall|i: int|
            0 <= i < earlier.faces@.len() ==> #[trigger] later.faces@[i].valid_in(&later),
        earlier.wf() ==> forall|i: int|
            0 <= i < earlier.shells@.len() ==> #[trigger] later.shells@[i].valid_in(&later),
        earlier.wf() ==> forall|i: int|
            0 <= i < earlier.solids@.len() ==> #[trigger] later.solids@[i].valid_in(&later),
{
    if earlier.wf() {
        assert forall|i: int| 0 <= i < earlier.half_edges@.len() implies #[trigger] later.half_edges@[i].valid_in(&later) by {
            assert(later.half_edges@[i] == earlier.half_edges@[i]);
            assert(earlier.half_edges@[i].valid_in(&earlier));
        }
        assert forall|i: int| 0 <= i < earlier.cycles@.len() implies #[trigger] later.cycles@[i].valid_in(&later) by {
            assert(later.cycles@[i] == earlier.cycles@[i]);
            assert(earlier.cycles@[i].valid_in(&earlier));
        }
        assert forall|i: int| 0 <= i < earlier.regions@.len() implies #[trigger] later.regions@[i].valid_in(&later) by {
            assert(later.regions@[i] == earlier.regions@[i]);
            assert(earlier.regions@[i].valid_in(&earlier));
        }
        assert forall|i: int| 0 <= i < earlier.faces@.len() implies #[trigger] later.faces@[i].valid_in(&later) by {
            assert(later.faces@[i] == earlier.faces@[i]);
            assert(earlier.faces@[i].valid_in(&earlier));
        }
        assert forall|i: int| 0 <= i < earlier.shells@.len() implies #[trigger] later.shells@[i].valid_in(&later) by {
            assert(later.shells@[i] == earlier.shells@[i]);
            assert(earlier.shells@[i].valid_in(&earlier));
        }
        assert forall|i: int| 0 <= i < earlier.solids@.len() implies #[trigger] later.solids@[i].valid_in(&later) by {
            assert(later.solids@[i] == earlier.solids@[i]);
            assert(earlier.solids@[i].valid_in(&earlier));
        }
    }
}

impl Instance {
    /// Every stored object refers only to stored objects
    pub open spec fn wf(&self) -> bool {
        &&& forall|i: int| 0 <= i < self.half_edges@.len() ==> #[trigger] self.half_edges@[i].valid_in(self)
        &&& forall|i: int| 0 <= i < self.cycles@.len() ==> #[trigger] self.cycles@[i].valid_in(self)
        &&& forall|i: int| 0 <= i < self.regions@.len() ==> #[trigger] self.regions@[i].valid_in(self)
        &&& forall|i: int| 0 <= i < self.faces@.len() ==> #[trigger] self.faces@[i].valid_in(self)
        &&& forall|i: int| 0 <= i < self.shells@.len() ==> #[trigger] self.shells@[i].valid_in(self)
        &&& forall|i: int| 0 <= i < self.solids@.len() ==> #[trigger] self.solids@[i].valid_in(self)
    }

    /// `self` holds every object of `earlier`, under the same identity
    pub open spec fn extends(&self, earlier: &Instance) -> bool {
        &&& earlier.vertices@.len() <= self.vertices@.len()
        &&& earlier.curves@.len() <= self.curves@.len()
        &&& earlier.surfaces@.len() <= self.surfaces@.len()
        &&& earlier.half_edges@.len() <= self.half_edges@.len()
        &&& earlier.cycles@.len() <= self.cycles@.len()
        &&& earlier.regions@.len() <= self.regions@.len()
        &&& earlier.faces@.len() <= self.faces@.len()
        &&& earlier.shells@.len() <= self.shells@.len()
        &&& earlier.solids@.len() <= self.solids@.len()
        &&& earlier.surfaces@ == self.surfaces@.subrange(0, earlier.surfaces@.len() as int)
        &&& earlier.half_edges@ == self.half_edges@.subrange(0, earlier.half_edges@.len() as int)
        &&& earlier.cycles@ == self.cycles@.subrange(0, earlier.cycles@.len() as int)
        &&& earlier.regions@ == self.regions@.subrange(0, earlier.regions@.len() as int)
        &&& earlier.faces@ == self.faces@.subrange(0, earlier.faces@.len() as int)
        &&& earlier.shells@ == self.shells@.subrange(0, earlier.shells@.len() as int)
        &&& earlier.solids@ == self.solids@.subrange(0, earlier.solids@.len() as int)
    }

/// Store a vertex, returning a fresh handle to it
    pub fn insert_vertex(&mut self, object: Vertex) -> (r: Handle<Vertex>)
        requires
            old(self).wf(),
        ensures
            final(self).wf(),
            final(self).extends(old(self)),
            final(self).vertices@ == old(self).vertices@.push(object),
            final(self).curves@ == old(self).curves@,
            final(self).surfaces@ == old(self).surfaces@,
            final(self).half_edges@ == old(self).half_edges@,
            final(self).cycles@ == old(self).cycles@,
            final(self).regions@ == old(self).regions@,
            final(self).faces@ == old(self).faces@,
            final(self).shells@ == old(self).shells@,
            final(self).solids@ == old(self).solids@,
            r@ == old(self).vertices@.len(),
    {
        let ghost before = *self;
        let r = self.vertices.insert(object);
        proof {
            assert(self.surfaces@.subrange(0, before.surfaces@.len() as int) =~= before.surfaces@);
            assert(self.half_edges@.subrange(0, before.half_edges@.len() as int) =~= before.half_edges@);
            assert(self.cycles@.subrange(0, before.cycles@.len() as int) =~= before.cycles@);
            assert(self.regions@.subrange(0, before.regions@.len() as int) =~= before.regions@);
            assert(self.faces@.subrange(0, before.faces@.len() as int) =~= before.faces@);
            assert(self.shells@.subrange(0, before.shells@.len() as int) =~= before.shells@);
            assert(self.solids@.subrange(0, before.solids@.len() as int) =~= before.solids@);
            lemma_extends_keeps_valid(before, *self);
        }
        r
    }

    /// Store a curve, returning a fresh handle to it
    pub fn insert_curve(&mut self, object: Curve) -> (r: Handle<Curve>)
        requires
            old(self).wf(),
        ensures
            final(self).wf(),
            final(self).extends(old(self)),
            final(self).curves@ == old(self).curves@.push(object),
            final(self).vertices@ == old(self).vertices@,
            final(self).surfaces@ == old(self).surfaces@,
            final(self).half_edges@ == old(self).half_edges@,
            final(self).cycles@ == old(self).cycles@,
            final(self).regions@ == old(self).regions@,
            final(self).faces@ == old(self).faces@,
            final(self).shells@ == old(self).shells@,
            final(self).solids@ == old(self).solids@,
            r@ == old(self).curves@.len(),
    {
        let ghost before = *self;
        let r = self.curves.insert(object);
        proof {
            assert(self.surfaces@.subrange(0, before.surfaces@.len() as int) =~= before.surfaces@);
            assert(self.half_edges@.subrange(0, before.half_edges@.len() as int) =~= before.half_edges@);
            assert(self.cycles@.subrange(0, before.cycles@.len() as int) =~= before.cycles@);
            assert(self.regions@.subrange(0, before.regions@.len() as int) =~= before.regions@);
            assert(self.faces@.subrange(0, before.faces@.len() as int) =~= before.faces@);
            assert(self.shells@.subrange(0, before.shells@.len() as int) =~= before.shells@);
            assert(self.solids@.subrange(0, before.solids@.len() as int) =~= before.solids@);
            lemma_extends_keeps_valid(before, *self);
        }
        r
    }

    /// Store a surface, returning a fresh handle to it
    pub fn insert_surface(&mut self, object: Surface) -> (r: Handle<Surface>)
        requires
            old(self).wf(),
        ensures
            final(self).wf(),
            final(self).extends(old(self)),
            final(self).surfaces@ == old(self).surfaces@.push(object),
            final(self).vertices@ == old(self).vertices@,
            final(self).curves@ == old(self).curves@,
            final(self).half_edges@ == old(self).half_edges@,
            final(self).cycles@ == old(self).cycles@,
            final(self).regions@ == old(self).regions@,
            final(self).faces@ == old(self).faces@,
            final(self).shells@ == old(self).shells@,
            final(self).solids@ == old(self).solids@,
            r@ == old(self).surfaces@.len(),
    {
        let ghost before = *self;
        let r = self.surfaces.insert(object);
        proof {
            assert(self.surfaces@.subrange(0, before.surfaces@.len() as int) =~= before.surfaces@);
            assert(self.half_edges@.subrange(0, before.half_edges@.len() as int) =~= before.half_edges@);
            assert(self.cycles@.subrange(0, before.cycles@.len() as int) =~= before.cycles@);
            assert(self.regions@.subrange(0, before.regions@.len() as int) =~= before.regions@);
            assert(self.faces@.subrange(0, before.faces@.len() as int) =~= before.faces@);
            assert(self.shells@.subrange(0, before.shells@.len() as int) =~= before.shells@);
            assert(self.solids@.subrange(0, before.solids@.len() as int) =~= before.solids@);
            lemma_extends_keeps_valid(before, *self);
        }
        r
    }

    /// Store a half-edge, returning a fresh handle to it
    pub fn insert_half_edge(&mut self, object: HalfEdge) -> (r: Handle<HalfEdge>)
        requires
            old(self).wf(),
            object.valid_in(old(self)),
        ensures
            final(self).wf(),
            final(self).extends(old(self)),
            final(self).half_edges@ == old(self).half_edges@.push(object),
            final(self).vertices@ == old(self).vertices@,
            final(self).curves@ == old(self).curves@,
            final(self).surfaces@ == old(self).surfaces@,
            final(self).cycles@ == old(self).cycles@,
            final(self).regions@ == old(self).regions@,
            final(self).faces@ == old(self).faces@,
            final(self).shells@ == old(self).shells@,
            final(self).solids@ == old(self).solids@,
            r@ == old(self).half_edges@.len(),
    {
        let ghost before = *self;
        let r = self.half_edges.insert(object);
        proof {
            assert(self.surfaces@.subrange(0, before.surfaces@.len() as int) =~= before.surfaces@);
            assert(self.half_edges@.subrange(0, before.half_edges@.len() as int) =~= before.half_edges@);
            assert(self.cycles@.subrange(0, before.cycles@.len() as int) =~= before.cycles@);
            assert(self.regions@.subrange(0, before.regions@.len() as int) =~= before.regions@);
            assert(self.faces@.subrange(0, before.faces@.len() as int) =~= before.faces@);
            assert(self.shells@.subrange(0, before.shells@.len() as int) =~= before.shells@);
            assert(self.solids@.subrange(0, before.solids@.len() as int) =~= before.solids@);
            lemma_extends_keeps_valid(before, *self);
        }
        r
    }

    /// Store a cycle, returning a fresh handle to it
    pub fn insert_cycle(&mut self, object: Cycle) -> (r: Handle<Cycle>)
        requires
            old(self).wf(),
            object.valid_in(old(self)),
        ensures
            final(self).wf(),
            final(self).extends(old(self)),
            final(self).cycles@ == old(self).cycles@.push(object),
            final(self).vertices@ == old(self).vertices@,
            final(self).curves@ == old(self).curves@,
            final(self).surfaces@ == old(self).surfaces@,
            final(self).half_edges@ == old(self).half_edges@,
            final(self).regions@ == old(self).regions@,
            final(self).faces@ == old(self).faces@,
            final(self).shells@ == old(self).shells@,
            final(self).solids@ == old(self).solids@,
            r@ == old(self).cycles@.len(),
    {
        let ghost before = *self;
        let r = self.cycles.insert(object);
        proof {
            assert(self.surfaces@.subrange(0, before.surfaces@.len() as int) =~= before.surfaces@);
            assert(self.half_edges@.subrange(0, before.half_edges@.len() as int) =~= before.half_edges@);
            assert(self.cycles@.subrange(0, before.cycles@.len() as int) =~= before.cycles@);
            assert(self.regions@.subrange(0, before.regions@.len() as int) =~= before.regions@);
            assert(self.faces@.subrange(0, before.faces@.len() as int) =~= before.faces@);
            assert(self.shells@.subrange(0, before.shells@.len() as int) =~= before.shells@);
            assert(self.solids@.subrange(0, before.solids@.len() as int) =~= before.solids@);
            lemma_extends_keeps_valid(before, *self);
        }
        r
    }

    /// Store a region, returning a fresh handle to it
    pub fn insert_region(&mut self, object: Region) -> (r: Handle<Region>)
        requires
            old(self).wf(),
            object.valid_in(old(self)),
        ensures
            final(self).wf(),
            final(self).extends(old(self)),
            final(self).regions@ == old(self).regions@.push(object),
            final(self).vertices@ == old(self).vertices@,
            final(self).curves@ == old(self).curves@,
            final(self).surfaces@ == old(self).surfaces@,
            final(self).half_edges@ == old(self).half_edges@,
            final(self).cycles@ == old(self).cycles@,
            final(self).faces@ == old(self).faces@,
            final(self).shells@ == old(self).shells@,
            final(self).solids@ == old(self).solids@,
            r@ == old(self).regions@.len(),
    {
        let ghost before = *self;
        let r = self.regions.insert(object);
        proof {
            assert(self.surfaces@.subrange(0, before.surfaces@.len() as int) =~= before.surfaces@);
            assert(self.half_edges@.subrange(0, before.half_edges@.len() as int) =~= before.half_edges@);
            assert(self.cycles@.subrange(0, before.cycles@.len() as int) =~= before.cycles@);
            assert(self.regions@.subrange(0, before.regions@.len() as int) =~= before.regions@);
            assert(self.faces@.subrange(0, before.faces@.len() as int) =~= before.faces@);
            assert(self.shells@.subrange(0, before.shells@.len() as int) =~= before.shells@);
            assert(self.solids@.subrange(0, before.solids@.len() as int) =~= before.solids@);
            lemma_extends_keeps_valid(before, *self);
        }
        r
    }

    /// Store a face, returning a fresh handle to it
    pub fn insert_face(&mut self, object: Face) -> (r: Handle<Face>)
        requires
            old(self).wf(),
            object.valid_in(old(self)),
        ensures
            final(self).wf(),
            final(self).extends(old(self)),
            final(self).faces@ == old(self).faces@.push(object),
            final(self).vertices@ == old(self).vertices@,
            final(self).curves@ == old(self).curves@,
            final(self).surfaces@ == old(self).surfaces@,
            final(self).half_edges@ == old(self).half_edges@,
            final(self).cycles@ == old(self).cycles@,
            final(self).regions@ == old(self).regions@,
            final(self).shells@ == old(self).shells@,
            final(self).solids@ == old(self).solids@,
            r@ == old(self).faces@.len(),
    {
        let ghost before = *self;
        let r = self.faces.insert(object);
        proof {
            assert(self.surfaces@.subrange(0, before.surfaces@.len() as int) =~= before.surfaces@);
            assert(self.half_edges@.subrange(0, before.half_edges@.len() as int) =~= before.half_edges@);
            assert(self.cycles@.subrange(0, before.cycles@.len() as int) =~= before.cycles@);
            assert(self.regions@.subrange(0, before.regions@.len() as int) =~= before.regions@);
            assert(self.faces@.subrange(0, before.faces@.len() as int) =~= before.faces@);
            assert(self.shells@.subrange(0, before.shells@.len() as int) =~= before.shells@);
            assert(self.solids@.subrange(0, before.solids@.len() as int) =~= before.solids@);
            lemma_extends_keeps_valid(before, *self);
        }
        r
    }

    /// Store a shell, returning a fresh handle to it
    pub fn insert_shell(&mut self, object: Shell) -> (r: Handle<Shell>)
        requires
            old(self).wf(),
            object.valid_in(old(self)),
        ensures
            final(self).wf(),
            final(self).extends(old(self)),
            final(self).shells@ == old(self).shells@.push(object),
            final(self).vertices@ == old(self).vertices@,
            final(self).curves@ == old(self).curves@,
            final(self).surfaces@ == old(self).surfaces@,
            final(self).half_edges@ == old(self).half_edges@,
            final(self).cycles@ == old(self).cycles@,
            final(self).regions@ == old(self).regions@,
            final(self).faces@ == old(self).faces@,
            final(self).solids@ == old(self).solids@,
            r@ == old(self).shells@.len(),
    {
        let ghost before = *self;
        let r = self.shells.insert(object);
        proof {
            assert(self.surfaces@.subrange(0, before.surfaces@.len() as int) =~= before.surfaces@);
            assert(self.half_edges@.subrange(0, before.half_edges@.len() as int) =~= before.half_edges@);
            assert(self.cycles@.subrange(0, before.cycles@.len() as int) =~= before.cycles@);
            assert(self.regions@.subrange(0, before.regions@.len() as int) =~= before.regions@);
            assert(self.faces@.subrange(0, before.faces@.len() as int) =~= before.faces@);
            assert(self.shells@.subrange(0, before.shells@.len() as int) =~= before.shells@);
            assert(self.solids@.subrange(0, before.solids@.len() as int) =~= before.solids@);
            lemma_extends_keeps_valid(before, *self);
        }
        r
    }

    /// Store a solid, returning a fresh handle to it
    pub fn insert_solid(&mut self, object: Solid) -> (r: Handle<Solid>)
        requires
            old(self).wf(),
            object.valid_in(old(self)),
        ensures
            final(self).wf(),
            final(self).extends(old(self)),
            final(self).solids@ == old(self).solids@.push(object),
            final(self).vertices@ == old(self).vertices@,
            final(self).curves@ == old(self).curves@,
            final(self).surfaces@ == old(self).surfaces@,
            final(self).half_edges@ == old(self).half_edges@,
            final(self).cycles@ == old(self).cycles@,
            final(self).regions@ == old(self).regions@,
            final(self).faces@ == old(self).faces@,
            final(self).shells@ == old(self).shells@,
            r@ == old(self).solids@.len(),
    {
        let ghost before = *self;
        let r = self.solids.insert(object);
        proof {
            assert(self.surfaces@.subrange(0, before.surfaces@.len() as int) =~= before.surfaces@);
            assert(self.half_edges@.subrange(0, before.half_edges@.len() as int) =~= before.half_edges@);
            assert(self.cycles@.subrange(0, before.cycles@.len() as int) =~= before.cycles@);
            assert(self.regions@.subrange(0, before.regions@.len() as int) =~= before.regions@);
            assert(self.faces@.subrange(0, before.faces@.len() as int) =~= before.faces@);
            assert(self.shells@.subrange(0, before.shells@.len() as int) =~= before.shells@);
            assert(self.solids@.subrange(0, before.solids@.len() as int) =~= before.solids@);
            lemma_extends_keeps_valid(before, *self);
        }
        r
    }

    /// Create an instance with empty stores
    pub fn new() -> (r: Instance)
        ensures
            r.wf(),
            r.vertices@.len() == 0,
            r.curves@.len() == 0,
            r.surfaces@.len() == 0,
            r.half_edges@.len() == 0,
            r.cycles@.len() == 0,
            r.regions@.len() == 0,
            r.faces@.len() == 0,
            r.shells@.len() == 0,
            r.solids@.len() == 0,
    {
        Instance {
            vertices: Store::new(),
            curves: Store::new(),
            surfaces: Store::new(),
            half_edges: Store::new(),
            cycles: Store::new(),
            regions: Store::new(),
            faces: Store::new(),
            shells: Store::new(),
            solids: Store::new(),
        }
    }
}

} // verus!
