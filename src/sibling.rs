use crate::handle::Handle;
use crate::handles::{position_of, Handles};
use crate::objects::{Cycle, HalfEdge, Instance, Shell, Vertex};
use vstd::prelude::*;

verus! {

/// The first of `cycles`, from the `k`-th on, that holds the half-edge `he`
pub open spec fn cycle_holding_from(core: &Instance, cycles: Seq<usize>, he: usize, k: int) -> Option<
    usize,
>
    decreases cycles.len() - k,
{
    if k < 0 || k >= cycles.len() {
        None
    } else if core.cycles@[cycles[k] as int].half_edges@.contains(he) {
        Some(cycles[k])
    } else {
        cycle_holding_from(core, cycles, he, k + 1)
    }
}

/// The cycles of a face: its region's exterior, then its interiors
pub open spec fn face_cycles(core: &Instance, face: usize) -> Seq<usize> {
    core.regions@[core.faces@[face as int].region@ as int].all_cycles()
}

/// The first cycle of the faces `faces`, from the `k`-th face on, that holds
/// the half-edge `he`
pub open spec fn cycle_in_faces_from(core: &Instance, faces: Seq<usize>, he: usize, k: int) -> Option<
    usize,
>
    decreases faces.len() - k,
{
    if k < 0 || k >= faces.len() {
        None
    } else {
        match cycle_holding_from(core, face_cycles(core, faces[k]), he, 0) {
            Some(c) => Some(c),
            None => cycle_in_faces_from(core, faces, he, k + 1),
        }
    }
}

/// The vertices that bound the half-edge `he` within `shell`: its start
/// vertex, and the start vertex of the half-edge that follows it in the
/// first cycle of the shell that holds it
pub open spec fn bounding_vertices(core: &Instance, shell: &Shell, he: usize) -> Option<
    (usize, usize),
> {
    match cycle_in_faces_from(core, shell.faces@, he, 0) {
        Some(c) => {
            let hs = core.cycles@[c as int].half_edges@;
            let next = hs[(position_of(hs, he) + 1) % hs.len() as int];
            Some(
                (
                    core.half_edges@[he as int].start_vertex@,
                    core.half_edges@[next as int].start_vertex@,
                ),
            )
        },
        None => None,
    }
}

/// Whether the half-edges `a` and `b` of `shell` are siblings: they lie on
/// the same curve, with reversed boundaries and reversed bounding vertices
pub open spec fn siblings(core: &Instance, shell: &Shell, a: usize, b: usize) -> bool {
    let ea = core.half_edges@[a as int];
    let eb = core.half_edges@[b as int];
    &&& ea.curve@ == eb.curve@
    &&& ea.boundary@[0] == eb.boundary@[1]
    &&& ea.boundary@[1] == eb.boundary@[0]
    &&& bounding_vertices(core, shell, a) matches Some(va)
    &&& bounding_vertices(core, shell, b) matches Some(vb)
    &&& va.0 == vb.1
    &&& va.1 == vb.0
}

proof fn lemma_cycle_holding_from(core: &Instance, cycles: Seq<usize>, he: usize, k: int)
    requires
        cycle_holding_from(core, cycles, he, k) is Some,
    ensures
        core.cycles@[cycle_holding_from(core, cycles, he, k)->0 as int].half_edges@.contains(he),
        cycles.contains(cycle_holding_from(core, cycles, he, k)->0),
    decreases cycles.len() - k,
{
    if 0 <= k < cycles.len() && !core.cycles@[cycles[k] as int].half_edges@.contains(he) {
        lemma_cycle_holding_from(core, cycles, he, k + 1);
    }
}

proof fn lemma_cycle_in_faces_from(core: &Instance, faces: Seq<usize>, he: usize, k: int)
    requires
        cycle_in_faces_from(core, faces, he, k) is Some,
    ensures
        core.cycles@[cycle_in_faces_from(core, faces, he, k)->0 as int].half_edges@.contains(he),
    decreases faces.len() - k,
{
    if 0 <= k < faces.len() {
        if cycle_holding_from(core, face_cycles(core, faces[k]), he, 0) is Some {
            lemma_cycle_holding_from(core, face_cycles(core, faces[k]), he, 0);
        } else {
            lemma_cycle_in_faces_from(core, faces, he, k + 1);
        }
    }
}

/// The `k`-th half-edge of the `j`-th cycle of the `i`-th face of `shell`
pub open spec fn half_edge_at(core: &Instance, shell: &Shell, i: int, j: int, k: int) -> usize {
    core.cycles@[face_cycles(core, shell.faces@[i])[j] as int].half_edges@[k]
}

/// Whether `(i, j, k)` designates a half-edge of `shell`, as
/// [`half_edge_at`] counts
pub open spec fn is_position(core: &Instance, shell: &Shell, i: int, j: int, k: int) -> bool {
    &&& 0 <= i < shell.faces@.len()
    &&& 0 <= j < face_cycles(core, shell.faces@[i]).len()
    &&& 0 <= k < core.cycles@[face_cycles(core, shell.faces@[i])[j] as int].half_edges@.len()
}

/// Whether the half-edge `he` is one of a cycle of a face of `shell`
pub open spec fn in_shell(core: &Instance, shell: &Shell, he: usize) -> bool {
    exists|i: int, j: int, k: int|
        is_position(core, shell, i, j, k) && #[trigger] half_edge_at(core, shell, i, j, k) == he
}

/// Whether position `(i2, j2, k2)` comes before `(i, j, k)` when scanning
/// the faces, then their cycles, then the cycles' half-edges, in order
pub open spec fn scanned_before(i2: int, j2: int, k2: int, i: int, j: int, k: int) -> bool {
    i2 < i || (i2 == i && j2 < j) || (i2 == i && j2 == j && k2 < k)
}

/// Whether the half-edge at `(i, j, k)` is a sibling of `he`, and the first
/// one that a scan of the shell in order meets
pub open spec fn first_sibling_at(core: &Instance, shell: &Shell, he: usize, i: int, j: int, k: int) -> bool {
    &&& is_position(core, shell, i, j, k)
    &&& siblings(core, shell, he, half_edge_at(core, shell, i, j, k))
    &&& forall|i2: int, j2: int, k2: int|
        is_position(core, shell, i2, j2, k2) && scanned_before(i2, j2, k2, i, j, k) ==> !siblings(
            core,
            shell,
            he,
            #[trigger] half_edge_at(core, shell, i2, j2, k2),
        )
}

/// Whether every object that `shell` reaches is stored in `core`
pub open spec fn shell_reachable(core: &Instance, shell: &Shell) -> bool {
    &&& core.wf()
    &&& shell.valid_in(core)
}

/// The cycles of a region, the exterior first
pub(crate) fn region_cycles(core: &Instance, face: &Handle<crate::objects::Face>) -> (r: Vec<Handle<Cycle>>)
    requires
        core.wf(),
        core.faces.contains(*face),
    ensures
        crate::handles::ids_of(r@) == face_cycles(core, face@),
        forall|j: int| 0 <= j < r@.len() ==> #[trigger] r@[j]@ < core.cycles@.len(),
{
    let f = core.faces.get(face);
    assert(core.faces@[face@ as int].valid_in(core));
    let region = core.regions.get(&f.region);
    assert(core.regions@[f.region@ as int].valid_in(core));
    let mut r: Vec<Handle<Cycle>> = Vec::new();
    r.push(region.exterior);
    let interiors = region.interiors.iter();
    let mut i: usize = 0;
    proof {
        crate::handles::lemma_ids_of(interiors@);
    }
    while i < interiors.len()
        invariant
            crate::handles::ids_of(interiors@) == region.interiors@,
            r@.len() == i + 1,
            r@[0]@ == region.exterior@,
            i <= interiors@.len(),
            forall|k: int| 0 <= k < i ==> #[trigger] r@[k + 1]@ == region.interiors@[k],
        decreases interiors@.len() - i,
    {
        proof {
            crate::handles::lemma_ids_of(interiors@);
        }
        r.push(interiors[i]);
        i += 1;
    }
    proof {
        crate::handles::lemma_ids_of(r@);
        crate::handles::lemma_ids_of(interiors@);
        assert forall|j: int| 0 <= j < r@.len() implies crate::handles::ids_of(r@)[j] == region.all_cycles()[j] && r@[j]@ < core.cycles@.len() by {
            if j > 0 {
                assert(r@[(j - 1) + 1]@ == region.interiors@[j - 1]);
            }
        }
    }
    assert(crate::handles::ids_of(r@) =~= region.all_cycles());
    assert forall|j: int| 0 <= j < r@.len() implies #[trigger] r@[j]@ < core.cycles@.len() by {
        assert(crate::handles::ids_of(r@)[j] == r@[j]@);
    }
    r
}

impl Shell {
    /// The cycle of the shell that holds `half_edge`, searched in order
    fn cycle_holding(&self, core: &Instance, half_edge: &Handle<HalfEdge>) -> (r: Option<
        Handle<Cycle>,
    >)
        requires
            shell_reachable(core, self),
        ensures
            r matches Some(c) ==> cycle_in_faces_from(core, self.faces@, half_edge@, 0) == Some(c@)
                && c@ < core.cycles@.len(),
            r is None ==> cycle_in_faces_from(core, self.faces@, half_edge@, 0) is None,
    {
        let faces = self.faces.iter();
        proof {
            crate::handles::lemma_ids_of(faces@);
        }
        let ghost fs = self.faces@;
        let mut i: usize = 0;
        while i < faces.len()
            invariant
                shell_reachable(core, self),
                fs == self.faces@,
                crate::handles::ids_of(faces@) == fs,
                i <= fs.len(),
                cycle_in_faces_from(core, fs, half_edge@, 0) == cycle_in_faces_from(
                    core,
                    fs,
                    half_edge@,
                    i as int,
                ),
            decreases fs.len() - i,
        {
            proof {
                crate::handles::lemma_ids_of(faces@);
            }
            let cycles = region_cycles(core, &faces[i]);
            let ghost cs = face_cycles(core, fs[i as int]);
            let mut j: usize = 0;
            while j < cycles.len()
                invariant
                    shell_reachable(core, self),
                    fs == self.faces@,
                    i < fs.len(),
                    cs == face_cycles(core, fs[i as int]),
                    cycle_in_faces_from(core, fs, half_edge@, 0) == cycle_in_faces_from(
                        core,
                        fs,
                        half_edge@,
                        i as int,
                    ),
                    crate::handles::ids_of(cycles@) == cs,
                    forall|k: int| 0 <= k < cycles@.len() ==> #[trigger] cycles@[k]@ < core.cycles@.len(),
                    j <= cs.len(),
                    cycle_holding_from(core, cs, half_edge@, 0) == cycle_holding_from(
                        core,
                        cs,
                        half_edge@,
                        j as int,
                    ),
                decreases cs.len() - j,
            {
                proof {
                    crate::handles::lemma_ids_of(cycles@);
                }
                let cycle = core.cycles.get(&cycles[j]);
                if cycle.half_edges.index_of(half_edge).is_some() {
                    assert(cycle_holding_from(core, cs, half_edge@, j as int) == Some(cs[j as int]));
                    assert(cs == face_cycles(core, fs[i as int]));
                    assert(cycle_in_faces_from(core, fs, half_edge@, i as int) == Some(cs[j as int]));
                    return Some(cycles[j]);
                }
                j += 1;
            }
            i += 1;
        }
        None
    }

    /// The vertices that bound `half_edge` within the shell, if it is part of
    /// the shell
    pub fn bounding_vertices_of_half_edge(
        &self,
        core: &Instance,
        half_edge: &Handle<HalfEdge>,
    ) -> (r: Option<[Handle<Vertex>; 2]>)
        requires
            shell_reachable(core, self),
            core.half_edges.contains(*half_edge),
        ensures
            r matches Some(vs) ==> bounding_vertices(core, self, half_edge@) == Some(
                (vs[0]@, vs[1]@),
            ),
            r is None ==> bounding_vertices(core, self, half_edge@) is None,
    {
        match self.cycle_holding(core, half_edge) {
            None => None,
            Some(c) => {
                let cycle = core.cycles.get(&c);
                assert(core.cycles@[c@ as int].valid_in(core));
                proof {
                    lemma_cycle_in_faces_from(core, self.faces@, half_edge@, 0);
                }
                proof {
                    use_type_invariant(&cycle.half_edges);
                }
                let index = match cycle.half_edges.index_of(half_edge) {
                    Some(index) => index,
                    None => {
                        proof {
                            assert(false);
                        }
                        0
                    },
                };
                proof {
                    crate::handles::lemma_position_of(cycle.half_edges@, index as int);
                    vstd::arithmetic::div_mod::lemma_mod_bound(
                        index + 1,
                        cycle.half_edges@.len() as int,
                    );
                }
                let n = cycle.half_edges.len();
                let next = cycle.half_edges.nth_circular(index + 1);
                let start = core.half_edges.get(half_edge).start_vertex;
                let end = core.half_edges.get(next).start_vertex;
                Some([start, end])
            },
        }
    }

    /// Indicate whether the provided half-edges are siblings
    pub fn are_siblings(
        &self,
        core: &Instance,
        a: &Handle<HalfEdge>,
        b: &Handle<HalfEdge>,
    ) -> (r: bool)
        requires
            shell_reachable(core, self),
            core.half_edges.contains(*a),
            core.half_edges.contains(*b),
        ensures
            r == siblings(core, self, a@, b@),
    {
        let ea = core.half_edges.get(a);
        let eb = core.half_edges.get(b);
        let same_curve = ea.curve.id() == eb.curve.id();
        let same_boundary = ea.boundary[0] == eb.boundary[1] && ea.boundary[1] == eb.boundary[0];
        let same_vertices = match (
            self.bounding_vertices_of_half_edge(core, a),
            self.bounding_vertices_of_half_edge(core, b),
        ) {
            (Some(va), Some(vb)) => va[0].id() == vb[1].id() && va[1].id() == vb[0].id(),
            _ => false,
        };
        same_curve && same_boundary && same_vertices
    }

    /// Retrieve the sibling of `half_edge` within the shell
    ///
    /// Returns `None`, if no half-edge of the shell is its sibling; this
    /// includes the case that `half_edge` is not part of the shell.
    #[verifier::spinoff_prover]
    pub fn get_sibling_of(&self, core: &Instance, half_edge: &Handle<HalfEdge>) -> (r: Option<
        Handle<HalfEdge>,
    >)
        requires
            shell_reachable(core, self),
            core.half_edges.contains(*half_edge),
        ensures
            r matches Some(h) ==> siblings(core, self, half_edge@, h@) && in_shell(core, self, h@)
                && h@ < core.half_edges@.len(),
            r matches Some(h) ==> exists|i: int, j: int, k: int|
                #[trigger] half_edge_at(core, self, i, j, k) == h@ && first_sibling_at(core, self, half_edge@, i, j, k),
            r is None ==> forall|i: int, j: int, k: int|
                is_position(core, self, i, j, k) ==> !siblings(
                    core,
                    self,
                    half_edge@,
                    #[trigger] half_edge_at(core, self, i, j, k),
                ),
    {
        let faces = self.faces.iter();
        proof {
            crate::handles::lemma_ids_of(faces@);
        }
        let mut i: usize = 0;
        while i < faces.len()
            invariant
                shell_reachable(core, self),
                core.half_edges.contains(*half_edge),
                crate::handles::ids_of(faces@) == self.faces@,
                i <= self.faces@.len(),
                forall|i2: int, j: int, k: int|
                    0 <= i2 < i && is_position(core, self, i2, j, k) ==> !siblings(
                        core,
                        self,
                        half_edge@,
                        #[trigger] half_edge_at(core, self, i2, j, k),
                    ),
            decreases self.faces@.len() - i,
        {
            proof {
                crate::handles::lemma_ids_of(faces@);
                assert(faces@[i as int]@ == self.faces@[i as int]);
                assert(self.faces@[i as int] < core.faces@.len());
            }
            let cycles = region_cycles(core, &faces[i]);
            let ghost cs = face_cycles(core, self.faces@[i as int]);
            let mut j: usize = 0;
            while j < cycles.len()
                invariant
                    shell_reachable(core, self),
                    core.half_edges.contains(*half_edge),
                    i < self.faces@.len(),
                    cs == face_cycles(core, self.faces@[i as int]),
                    crate::handles::ids_of(cycles@) == cs,
                    forall|k: int| 0 <= k < cycles@.len() ==> #[trigger] cycles@[k]@ < core.cycles@.len(),
                    j <= cs.len(),
                    forall|i2: int, j2: int, k: int|
                        0 <= i2 < i && is_position(core, self, i2, j2, k) ==> !siblings(
                            core,
                            self,
                            half_edge@,
                            #[trigger] half_edge_at(core, self, i2, j2, k),
                        ),
                    forall|j2: int, k: int|
                        0 <= j2 < j && is_position(core, self, i as int, j2, k) ==> !siblings(
                            core,
                            self,
                            half_edge@,
                            #[trigger] half_edge_at(core, self, i as int, j2, k),
                        ),
                decreases cs.len() - j,
            {
                proof {
                    crate::handles::lemma_ids_of(cycles@);
                }
                let cycle = core.cycles.get(&cycles[j]);
                assert(core.cycles@[cycles@[j as int]@ as int].valid_in(core));
                let hs = cycle.half_edges.iter();
                proof {
                    crate::handles::lemma_ids_of(hs@);
                }
                let mut k: usize = 0;
                while k < hs.len()
                    invariant
                        shell_reachable(core, self),
                        core.half_edges.contains(*half_edge),
                        i < self.faces@.len(),
                        cs == face_cycles(core, self.faces@[i as int]),
                        j < cs.len(),
                        cs[j as int] < core.cycles@.len(),
                        crate::handles::ids_of(hs@) == core.cycles@[cs[j as int] as int].half_edges@,
                        core.cycles@[cs[j as int] as int].valid_in(core),
                        k <= hs@.len(),
                        forall|k2: int|
                            0 <= k2 < k ==> !siblings(
                                core,
                                self,
                                half_edge@,
                                #[trigger] half_edge_at(core, self, i as int, j as int, k2),
                            ),
                        forall|i2: int, j2: int, k2: int|
                            0 <= i2 < i && is_position(core, self, i2, j2, k2) ==> !siblings(
                                core,
                                self,
                                half_edge@,
                                #[trigger] half_edge_at(core, self, i2, j2, k2),
                            ),
                        forall|j2: int, k2: int|
                            0 <= j2 < j && is_position(core, self, i as int, j2, k2) ==> !siblings(
                                core,
                                self,
                                half_edge@,
                                #[trigger] half_edge_at(core, self, i as int, j2, k2),
                            ),
                    decreases hs@.len() - k,
                {
                    proof {
                        crate::handles::lemma_ids_of(hs@);
                    }
                    let h = &hs[k];
                    assert(h@ == half_edge_at(core, self, i as int, j as int, k as int));
                    if self.are_siblings(core, half_edge, h) {
                        assert(is_position(core, self, i as int, j as int, k as int));
                        assert forall|i2: int, j2: int, k2: int|
                            is_position(core, self, i2, j2, k2) && scanned_before(i2, j2, k2, i as int, j as int, k as int) implies !siblings(
                                core,
                                self,
                                half_edge@,
                                #[trigger] half_edge_at(core, self, i2, j2, k2),
                            ) by {
                            if i2 == i && j2 == j {
                                assert(0 <= k2 < k);
                            }
                        }
                        assert(first_sibling_at(core, self, half_edge@, i as int, j as int, k as int));
                        return Some(*h);
                    }
                    k += 1;
                }
                j += 1;
            }
            i += 1;
        }
        None
    }
}

} // verus!
