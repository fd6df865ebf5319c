use crate::handle::Handle;
use crate::handles::{copy_handles, fits_in_place_of, ids_of, is_distinct, lemma_ids_of, position_of, splice, Handles};
use crate::objects::{all_below, Cycle, Face, HalfEdge, Instance, Region, Shell};
use crate::sibling::{face_cycles, region_cycles};
use vstd::prelude::*;

verus! {

/// The cycle `new_c` is the cycle `old_c` with `he` replaced by `with`, in
/// its place; a cycle without `he` stays as it is
pub open spec fn cycle_replaced(c: &Instance, old_c: usize, new_c: usize, he: usize, with: Seq<usize>) -> bool {
    let hs = c.cycles@[old_c as int].half_edges@;
    if hs.contains(he) {
        c.cycles@[new_c as int].half_edges@ == splice(hs, position_of(hs, he), with)
    } else {
        new_c == old_c
    }
}

/// Whether one of the cycles of the face `f` holds `he`
pub open spec fn face_holds(c: &Instance, f: usize, he: usize) -> bool {
    exists|j: int|
        0 <= j < face_cycles(c, f).len() && #[trigger] c.cycles@[face_cycles(c, f)[j] as int].half_edges@.contains(he)
}

/// The face `new_f` is the face `old_f` with `he` replaced by `with` in each
/// of its cycles; a face without `he` stays as it is
pub open spec fn face_replaced(c: &Instance, old_f: usize, new_f: usize, he: usize, with: Seq<usize>) -> bool {
    let oc = face_cycles(c, old_f);
    let nc = face_cycles(c, new_f);
    &&& oc.len() == nc.len()
    &&& forall|j: int| 0 <= j < oc.len() ==> #[trigger] cycle_replaced(c, oc[j], nc[j], he, with)
    &&& c.faces@[new_f as int].surface@ == c.faces@[old_f as int].surface@
    &&& c.regions@[c.faces@[new_f as int].region@ as int].color == c.regions@[c.faces@[old_f as int].region@ as int].color
    &&& !face_holds(c, old_f, he) ==> new_f == old_f
}

/// The faces `new` are the faces `old` with `he` replaced by `with`, in
/// every cycle that holds it
pub open spec fn faces_replaced(c: &Instance, old: Seq<usize>, new: Seq<usize>, he: usize, with: Seq<usize>) -> bool {
    &&& old.len() == new.len()
    &&& forall|i: int| 0 <= i < old.len() ==> #[trigger] face_replaced(c, old[i], new[i], he, with)
}

/// `with` may take the place of `he` in every cycle of the faces `faces`
pub open spec fn faces_fit(c: &Instance, faces: Seq<usize>, he: usize, with: Seq<usize>) -> bool {
    forall|i: int, j: int|
        0 <= i < faces.len() && 0 <= j < face_cycles(c, faces[i]).len() ==> #[trigger] fits_in_place_of(
            c.cycles@[face_cycles(c, faces[i])[j] as int].half_edges@,
            he,
            with,
        )
}

/// The facts that the replacement relations state of stored objects keep
/// holding once more is stored
pub proof fn lemma_face_replaced_extends(c1: &Instance, c2: &Instance, old_f: usize, new_f: usize, he: usize, with: Seq<usize>)
    requires
        c1.wf(),
        c2.extends(c1),
        old_f < c1.faces@.len(),
        new_f < c1.faces@.len(),
        face_replaced(c1, old_f, new_f, he, with),
    ensures
        face_replaced(c2, old_f, new_f, he, with),
        face_cycles(c2, old_f) == face_cycles(c1, old_f),
        face_cycles(c2, new_f) == face_cycles(c1, new_f),
{
    lemma_face_cycles_extends(c1, c2, old_f);
    lemma_face_cycles_extends(c1, c2, new_f);
    assert(c2.faces@[old_f as int] == c1.faces@[old_f as int]);
    assert(c2.faces@[new_f as int] == c1.faces@[new_f as int]);
    let oc = face_cycles(c1, old_f);
    let nc = face_cycles(c1, new_f);
    assert(c1.faces@[new_f as int].valid_in(c1));
    assert(c1.faces@[old_f as int].valid_in(c1));
    assert(c2.regions@[c1.faces@[new_f as int].region@ as int] == c1.regions@[c1.faces@[new_f as int].region@ as int]);
    assert(c2.regions@[c1.faces@[old_f as int].region@ as int] == c1.regions@[c1.faces@[old_f as int].region@ as int]);
    assert forall|j: int| 0 <= j < oc.len() implies #[trigger] cycle_replaced(c2, oc[j], nc[j], he, with) by {
        assert(cycle_replaced(c1, oc[j], nc[j], he, with));
        assert(c2.cycles@[oc[j] as int] == c1.cycles@[oc[j] as int]);
        assert(c2.cycles@[nc[j] as int] == c1.cycles@[nc[j] as int]);
    }
    if !face_holds(c1, old_f, he) {
    } else {
        let j = choose|j: int|
            0 <= j < face_cycles(c1, old_f).len() && #[trigger] c1.cycles@[face_cycles(c1, old_f)[j] as int].half_edges@.contains(he);
        assert(c2.cycles@[oc[j] as int] == c1.cycles@[oc[j] as int]);
        assert(c2.cycles@[face_cycles(c2, old_f)[j] as int].half_edges@.contains(he));
    }
}

/// The cycles of a stored face stay what they were once more is stored
pub proof fn lemma_face_cycles_extends(c1: &Instance, c2: &Instance, f: usize)
    requires
        c1.wf(),
        c2.extends(c1),
        f < c1.faces@.len(),
    ensures
        face_cycles(c2, f) == face_cycles(c1, f),
        forall|j: int| 0 <= j < face_cycles(c1, f).len() ==> #[trigger] face_cycles(c1, f)[j] < c1.cycles@.len(),
{
    assert(c2.faces@[f as int] == c1.faces@[f as int]);
    assert(c1.faces@[f as int].valid_in(c1));
    let r = c1.faces@[f as int].region@;
    assert(c2.regions@[r as int] == c1.regions@[r as int]);
    assert(c1.regions@[r as int].valid_in(c1));
    let cs = face_cycles(c1, f);
    assert forall|j: int| 0 <= j < cs.len() implies #[trigger] cs[j] < c1.cycles@.len() by {
        if j > 0 {
            assert(cs[j] == c1.regions@[r as int].interiors@[j - 1]);
        }
    }
}

/// `c2` holds what `c1` holds and more, in every store
pub proof fn lemma_extends_trans(c1: &Instance, c2: &Instance, c3: &Instance)
    requires
        c2.extends(c1),
        c3.extends(c2),
    ensures
        c3.extends(c1),
{
    assert(c3.surfaces@.subrange(0, c1.surfaces@.len() as int) =~= c1.surfaces@);
    assert(c3.half_edges@.subrange(0, c1.half_edges@.len() as int) =~= c1.half_edges@);
    assert(c3.cycles@.subrange(0, c1.cycles@.len() as int) =~= c1.cycles@);
    assert(c3.regions@.subrange(0, c1.regions@.len() as int) =~= c1.regions@);
    assert(c3.faces@.subrange(0, c1.faces@.len() as int) =~= c1.faces@);
    assert(c3.shells@.subrange(0, c1.shells@.len() as int) =~= c1.shells@);
    assert(c3.solids@.subrange(0, c1.solids@.len() as int) =~= c1.solids@);
}

/// Every instance holds what it holds
pub proof fn lemma_extends_refl(c: &Instance)
    ensures
        c.extends(c),
{
    assert(c.surfaces@.subrange(0, c.surfaces@.len() as int) =~= c.surfaces@);
    assert(c.half_edges@.subrange(0, c.half_edges@.len() as int) =~= c.half_edges@);
    assert(c.cycles@.subrange(0, c.cycles@.len() as int) =~= c.cycles@);
    assert(c.regions@.subrange(0, c.regions@.len() as int) =~= c.regions@);
    assert(c.faces@.subrange(0, c.faces@.len() as int) =~= c.faces@);
    assert(c.shells@.subrange(0, c.shells@.len() as int) =~= c.shells@);
    assert(c.solids@.subrange(0, c.solids@.len() as int) =~= c.solids@);
}

/// Replace `he` by `with` in the cycle `cycle`, storing the new cycle
fn replace_in_cycle(
    core: &mut Instance,
    cycle: Handle<Cycle>,
    he: &Handle<HalfEdge>,
    with: &Vec<Handle<HalfEdge>>,
) -> (r: Handle<Cycle>)
    requires
        old(core).wf(),
        cycle@ < old(core).cycles@.len(),
        fits_in_place_of(old(core).cycles@[cycle@ as int].half_edges@, he@, ids_of(with@)),
        all_below(ids_of(with@), old(core).half_edges@.len()),
    ensures
        final(core).wf(),
        final(core).extends(old(core)),
        final(core).half_edges@ == old(core).half_edges@,
        final(core).faces@ == old(core).faces@,
        final(core).regions@ == old(core).regions@,
        r@ < final(core).cycles@.len(),
        r@ == cycle@ || r@ >= old(core).cycles@.len(),
        cycle_replaced(final(core), cycle@, r@, he@, ids_of(with@)),
{
    let ghost before = *core;
    let replaced = core.cycles.get(&cycle).half_edges.replace(he, copy_handles(with));
    match replaced {
        None => {
            proof {
                lemma_extends_refl(core);
            }
            cycle
        },
        Some(half_edges) => {
            proof {
                let hs = core.cycles@[cycle@ as int].half_edges@;
                let i = position_of(hs, he@);
                crate::handles::lemma_splice_index(hs, i, ids_of(with@));
                assert(core.cycles@[cycle@ as int].valid_in(core));
                assert forall|k: int| 0 <= k < half_edges@.len() implies #[trigger] half_edges@[k] < core.half_edges@.len() by {
                    if k < i {
                        assert(half_edges@[k] == hs[k]);
                    } else if k < i + with@.len() {
                        assert(half_edges@[i + (k - i)] == ids_of(with@)[k - i]);
                    } else {
                        let m = k + 1 - with@.len();
                        assert(half_edges@[m - 1 + with@.len()] == hs[m]);
                    }
                }
            }
            let r = core.insert_cycle(Cycle { half_edges });
            proof {
                assert(core.cycles@[cycle@ as int] == before.cycles@[cycle@ as int]);
            }
            r
        },
    }
}

/// Whether one of the cycles of `face` holds `he`
fn face_holds_half_edge(core: &Instance, face: &Handle<Face>, he: &Handle<HalfEdge>) -> (r: bool)
    requires
        core.wf(),
        face@ < core.faces@.len(),
    ensures
        r == face_holds(core, face@, he@),
{
    let cycles = region_cycles(core, face);
    let ghost cs = face_cycles(core, face@);
    proof {
        lemma_ids_of(cycles@);
    }
    let mut j: usize = 0;
    while j < cycles.len()
        invariant
            core.wf(),
            ids_of(cycles@) == cs,
            cs == face_cycles(core, face@),
            forall|k: int| 0 <= k < cycles@.len() ==> #[trigger] cycles@[k]@ < core.cycles@.len(),
            j <= cs.len(),
            forall|k: int| 0 <= k < j ==> !core.cycles@[#[trigger] cs[k] as int].half_edges@.contains(he@),
        decreases cs.len() - j,
    {
        proof {
            lemma_ids_of(cycles@);
        }
        if core.cycles.get(&cycles[j]).half_edges.index_of(he).is_some() {
            assert(core.cycles@[cs[j as int] as int].half_edges@.contains(he@));
            return true;
        }
        j += 1;
    }
    proof {
        if face_holds(core, face@, he@) {
            let k = choose|k: int|
                0 <= k < face_cycles(core, face@).len() && #[trigger] core.cycles@[face_cycles(core, face@)[k] as int].half_edges@.contains(he@);
            assert(!core.cycles@[cs[k] as int].half_edges@.contains(he@));
        }
    }
    false
}

/// A replacement between stored cycles stays one once more is stored
pub proof fn lemma_cycle_replaced_extends(c1: &Instance, c2: &Instance, old_c: usize, new_c: usize, he: usize, with: Seq<usize>)
    requires
        c2.extends(c1),
        old_c < c1.cycles@.len(),
        new_c < c1.cycles@.len(),
    ensures
        cycle_replaced(c2, old_c, new_c, he, with) == cycle_replaced(c1, old_c, new_c, he, with),
{
    assert(c2.cycles@[old_c as int] == c1.cycles@[old_c as int]);
    assert(c2.cycles@[new_c as int] == c1.cycles@[new_c as int]);
}

/// Replace `he` by `with` in every cycle of the face `face`, storing the new
/// cycles, region and face where it holds `he`
#[verifier::spinoff_prover]
fn replace_in_face(
    core: &mut Instance,
    face: Handle<Face>,
    he: &Handle<HalfEdge>,
    with: &Vec<Handle<HalfEdge>>,
) -> (r: Handle<Face>)
    requires
        old(core).wf(),
        face@ < old(core).faces@.len(),
        forall|j: int|
            0 <= j < face_cycles(old(core), face@).len() ==> #[trigger] fits_in_place_of(
                old(core).cycles@[face_cycles(old(core), face@)[j] as int].half_edges@,
                he@,
                ids_of(with@),
            ),
        all_below(ids_of(with@), old(core).half_edges@.len()),
    ensures
        final(core).wf(),
        final(core).extends(old(core)),
        final(core).half_edges@ == old(core).half_edges@,
        r@ < final(core).faces@.len(),
        r@ == face@ || r@ >= old(core).faces@.len(),
        face_replaced(final(core), face@, r@, he@, ids_of(with@)),
{
    let ghost c0 = *core;
    let ghost w = ids_of(with@);
    let ghost cs = face_cycles(&c0, face@);
    if !face_holds_half_edge(core, &face, he) {
        proof {
            lemma_extends_refl(core);
            lemma_face_cycles_extends(core, core, face@);
            assert forall|j: int| 0 <= j < cs.len() implies #[trigger] cycle_replaced(core, cs[j], cs[j], he@, w) by {
                if core.cycles@[cs[j] as int].half_edges@.contains(he@) {
                    assert(face_holds(core, face@, he@));
                }
            }
        }
        return face;
    }
    let cycles = region_cycles(core, &face);
    let surface = core.faces.get(&face).surface;
    let region = core.faces.get(&face).region;
    assert(core.faces@[face@ as int].valid_in(core));
    let region_object = core.regions.get(&region);
    let color = region_object.color;
    proof {
        use_type_invariant(&region_object.interiors);
        lemma_ids_of(cycles@);
        lemma_extends_refl(core);
        lemma_face_cycles_extends(core, core, face@);
        assert(core.faces@[face@ as int].valid_in(core));
        assert(fits_in_place_of(core.cycles@[cs[0] as int].half_edges@, he@, w));
    }
    let ghost old_interiors = c0.regions@[region@ as int].interiors@;
    assert(forall|k: int| 0 <= k < old_interiors.len() ==> #[trigger] old_interiors[k] == cs[k + 1]);
    let exterior = replace_in_cycle(core, cycles[0], he, with);
    let mut interiors: Vec<Handle<Cycle>> = Vec::new();
    let mut j: usize = 1;
    while j < cycles.len()
        invariant
            c0.wf(),
            core.wf(),
            core.extends(&c0),
            core.half_edges@ == c0.half_edges@,
            core.faces@ == c0.faces@,
            core.regions@ == c0.regions@,
            ids_of(cycles@) == cs,
            cs == face_cycles(&c0, face@),
            face@ < c0.faces@.len(),
            w == ids_of(with@),
            forall|k: int| 0 <= k < cs.len() ==> #[trigger] cs[k] < c0.cycles@.len(),
            forall|k: int|
                0 <= k < cs.len() ==> #[trigger] fits_in_place_of(c0.cycles@[cs[k] as int].half_edges@, he@, w),
            is_distinct(old_interiors),
            forall|k: int| 0 <= k < old_interiors.len() ==> #[trigger] old_interiors[k] == cs[k + 1],
            old_interiors.len() + 1 == cs.len(),
            all_below(w, c0.half_edges@.len()),
            1 <= j <= cs.len(),
            exterior@ < core.cycles@.len(),
            cycle_replaced(core, cs[0], exterior@, he@, w),
            interiors@.len() == j - 1,
            forall|k: int|
                0 <= k < j - 1 ==> #[trigger] interiors@[k]@ < core.cycles@.len() && cycle_replaced(
                    core,
                    cs[k + 1],
                    interiors@[k]@,
                    he@,
                    w,
                ) && (interiors@[k]@ == cs[k + 1] || interiors@[k]@ >= c0.cycles@.len()),
            is_distinct(ids_of(interiors@)),
        decreases cs.len() - j,
    {
        let ghost ck = *core;
        let ghost prev = interiors@;
        proof {
            lemma_ids_of(cycles@);
            assert(core.cycles@[cs[j as int] as int] == c0.cycles@[cs[j as int] as int]);
            assert(fits_in_place_of(c0.cycles@[cs[j as int] as int].half_edges@, he@, w));
        }
        let n = replace_in_cycle(core, cycles[j], he, with);
        interiors.push(n);
        proof {
            lemma_ids_of(interiors@);
            lemma_ids_of(prev);
            lemma_extends_trans(&c0, &ck, core);
            lemma_cycle_replaced_extends(&ck, core, cs[0], exterior@, he@, w);
            assert forall|k: int| 0 <= k < j - 1 implies #[trigger] interiors@[k]@ < core.cycles@.len() && cycle_replaced(
                core,
                cs[k + 1],
                interiors@[k]@,
                he@,
                w,
            ) && (interiors@[k]@ == cs[k + 1] || interiors@[k]@ >= c0.cycles@.len()) by {
                assert(interiors@[k] == prev[k]);
                lemma_cycle_replaced_extends(&ck, core, cs[k + 1], prev[k]@, he@, w);
            }
            assert(cycle_replaced(core, cs[j as int], n@, he@, w));
            assert forall|a: int, b: int|
                0 <= a < interiors@.len() && 0 <= b < interiors@.len() && a != b implies ids_of(interiors@)[a] != ids_of(interiors@)[b] by {
                if a < j - 1 && b < j - 1 {
                    assert(ids_of(prev)[a] != ids_of(prev)[b]);
                } else if a == j - 1 {
                    if n@ == cs[j as int] {
                        if prev[b]@ == cs[b + 1] {
                            assert(old_interiors[b] != old_interiors[j - 1]);
                        }
                    }
                } else {
                    if n@ == cs[j as int] {
                        if prev[a]@ == cs[a + 1] {
                            assert(old_interiors[a] != old_interiors[j - 1]);
                        }
                    }
                }
            }
        }
        j += 1;
    }
    let ghost c1 = *core;
    proof {
        lemma_ids_of(interiors@);
        assert forall|k: int| 0 <= k < ids_of(interiors@).len() implies #[trigger] ids_of(interiors@)[k] < core.cycles@.len() by {
            assert(interiors@[k]@ < core.cycles@.len());
        }
    }
    let ghost iv = interiors@;
    let interior_set = Handles::new(interiors);
    let new_region = core.insert_region(Region::new(exterior, interior_set, color));
    proof {
        assert(core.faces@[face@ as int].valid_in(core));
    }
    let new_face = core.insert_face(Face::new(surface, new_region));
    proof {
        lemma_extends_trans(&c0, &c1, core);
        let nc = face_cycles(core, new_face@);
        assert(core.faces@[new_face@ as int].region@ == new_region@);
        assert(core.regions@[new_region@ as int].interiors@ == ids_of(iv));
        assert(nc.len() == cs.len());
        lemma_face_cycles_extends(&c0, core, face@);
        assert forall|k: int| 0 <= k < cs.len() implies #[trigger] cycle_replaced(core, cs[k], nc[k], he@, w) by {
            if k == 0 {
                assert(nc[0] == exterior@);
            } else {
                assert(nc[k] == ids_of(iv)[k - 1]);
                assert(cycle_replaced(&c1, cs[(k - 1) + 1], iv[k - 1]@, he@, w));
            }
        }
        assert(core.faces@[face@ as int] == c0.faces@[face@ as int]);
        assert(core.regions@[region@ as int] == c0.regions@[region@ as int]);
    }
    new_face
}

/// Every half-edge in a cycle of the faces `faces` is below `n`
pub open spec fn faces_below(c: &Instance, faces: Seq<usize>, n: int) -> bool {
    forall|i: int, j: int, k: int|
        0 <= i < faces.len() && 0 <= j < face_cycles(c, faces[i]).len() && 0 <= k < c.cycles@[face_cycles(c, faces[i])[j] as int].half_edges@.len()
            ==> #[trigger] c.cycles@[face_cycles(c, faces[i])[j] as int].half_edges@[k] < n
}

/// New half-edges fit in place of any half-edge of faces whose half-edges
/// are all older
pub proof fn lemma_fresh_fits(c: &Instance, faces: Seq<usize>, n: int, he: usize, with: Seq<usize>)
    requires
        faces_below(c, faces, n),
        is_distinct(with),
        forall|k: int| 0 <= k < with.len() ==> #[trigger] with[k] >= n,
    ensures
        faces_fit(c, faces, he, with),
{
    assert forall|i: int, j: int|
        0 <= i < faces.len() && 0 <= j < face_cycles(c, faces[i]).len() implies #[trigger] fits_in_place_of(
            c.cycles@[face_cycles(c, faces[i])[j] as int].half_edges@,
            he,
            with,
        ) by {
        let hs = c.cycles@[face_cycles(c, faces[i])[j] as int].half_edges@;
        assert forall|k: int| 0 <= k < with.len() implies #[trigger] with[k] == he || !hs.contains(with[k]) by {
            if hs.contains(with[k]) {
                let m = choose|m: int| 0 <= m < hs.len() && hs[m] == with[k];
                assert(hs[m] < n);
            }
        }
    }
}

/// After a replacement by half-edges below `n2`, the faces' half-edges are
/// below `n2`
pub proof fn lemma_replaced_below(c: &Instance, old: Seq<usize>, new: Seq<usize>, he: usize, with: Seq<usize>, n: int, n2: int)
    requires
        faces_replaced(c, old, new, he, with),
        faces_below(c, old, n),
        n <= n2,
        forall|k: int| 0 <= k < with.len() ==> #[trigger] with[k] < n2,
    ensures
        faces_below(c, new, n2),
{
    assert forall|i: int, j: int, k: int|
        0 <= i < new.len() && 0 <= j < face_cycles(c, new[i]).len() && 0 <= k < c.cycles@[face_cycles(c, new[i])[j] as int].half_edges@.len()
            implies #[trigger] c.cycles@[face_cycles(c, new[i])[j] as int].half_edges@[k] < n2 by {
        assert(face_replaced(c, old[i], new[i], he, with));
        let oc = face_cycles(c, old[i]);
        let nc = face_cycles(c, new[i]);
        assert(cycle_replaced(c, oc[j], nc[j], he, with));
        let hs = c.cycles@[oc[j] as int].half_edges@;
        if hs.contains(he) {
            let p = position_of(hs, he);
            crate::handles::lemma_splice_index(hs, p, with);
            let r = splice(hs, p, with);
            if k < p {
                assert(r[k] == hs[k]);
            } else if k < p + with.len() {
                assert(r[p + (k - p)] == with[k - p]);
            } else {
                let m = k + 1 - with.len();
                assert(r[m - 1 + with.len()] == hs[m]);
            }
        } else {
            assert(hs[k] < n);
        }
    }
}

/// A replacement between stored faces stays one once more is stored
pub proof fn lemma_faces_replaced_extends(c1: &Instance, c2: &Instance, old: Seq<usize>, new: Seq<usize>, he: usize, with: Seq<usize>)
    requires
        c1.wf(),
        c2.extends(c1),
        all_below(old, c1.faces@.len()),
        all_below(new, c1.faces@.len()),
        faces_replaced(c1, old, new, he, with),
    ensures
        faces_replaced(c2, old, new, he, with),
{
    assert forall|i: int| 0 <= i < old.len() implies #[trigger] face_replaced(c2, old[i], new[i], he, with) by {
        assert(face_replaced(c1, old[i], new[i], he, with));
        lemma_face_replaced_extends(c1, c2, old[i], new[i], he, with);
    }
}

/// Which half-edges stored faces hold does not change once more is stored
pub proof fn lemma_faces_below_extends(c1: &Instance, c2: &Instance, faces: Seq<usize>, n: int)
    requires
        c1.wf(),
        c2.extends(c1),
        all_below(faces, c1.faces@.len()),
        faces_below(c1, faces, n),
    ensures
        faces_below(c2, faces, n),
{
    assert forall|i: int, j: int, k: int|
        0 <= i < faces.len() && 0 <= j < face_cycles(c2, faces[i]).len() && 0 <= k < c2.cycles@[face_cycles(c2, faces[i])[j] as int].half_edges@.len()
            implies #[trigger] c2.cycles@[face_cycles(c2, faces[i])[j] as int].half_edges@[k] < n by {
        lemma_face_cycles_extends(c1, c2, faces[i]);
        let cj = face_cycles(c1, faces[i])[j];
        assert(c2.cycles@[cj as int] == c1.cycles@[cj as int]);
        assert(c1.cycles@[face_cycles(c1, faces[i])[j] as int].half_edges@[k] < n);
    }
}

impl Shell {
    /// Replace `half_edge` by `with` in every cycle of the shell that holds
    /// it, storing the new cycles, regions and faces
    #[verifier::spinoff_prover]
    pub fn replace_half_edge(
        &self,
        core: &mut Instance,
        half_edge: &Handle<HalfEdge>,
        with: &Vec<Handle<HalfEdge>>,
    ) -> (r: Shell)
        requires
            old(core).wf(),
            self.valid_in(old(core)),
            faces_fit(old(core), self.faces@, half_edge@, ids_of(with@)),
            all_below(ids_of(with@), old(core).half_edges@.len()),
        ensures
            final(core).wf(),
            final(core).extends(old(core)),
            final(core).half_edges@ == old(core).half_edges@,
            r.valid_in(final(core)),
            faces_replaced(final(core), self.faces@, r.faces@, half_edge@, ids_of(with@)),
    {
        let ghost c0 = *core;
        let ghost w = ids_of(with@);
        let ghost fs = self.faces@;
        let faces = self.faces.iter();
        proof {
            use_type_invariant(&self.faces);
            lemma_ids_of(faces@);
            lemma_extends_refl(core);
        }
        let mut new_faces: Vec<Handle<Face>> = Vec::new();
        let mut i: usize = 0;
        while i < faces.len()
            invariant
                c0.wf(),
                core.wf(),
                core.extends(&c0),
                core.half_edges@ == c0.half_edges@,
                fs == self.faces@,
                ids_of(faces@) == fs,
                is_distinct(fs),
                self.valid_in(&c0),
                faces_fit(&c0, fs, half_edge@, w),
                w == ids_of(with@),
                all_below(w, c0.half_edges@.len()),
                i <= fs.len(),
                new_faces@.len() == i,
                forall|k: int|
                    0 <= k < i ==> #[trigger] new_faces@[k]@ < core.faces@.len() && face_replaced(
                        core,
                        fs[k],
                        new_faces@[k]@,
                        half_edge@,
                        w,
                    ) && (new_faces@[k]@ == fs[k] || new_faces@[k]@ >= c0.faces@.len()),
                is_distinct(ids_of(new_faces@)),
            decreases fs.len() - i,
        {
            let ghost ck = *core;
            let ghost prev = new_faces@;
            proof {
                lemma_ids_of(faces@);
                assert(fs[i as int] < c0.faces@.len());
                lemma_face_cycles_extends(&c0, core, fs[i as int]);
                assert forall|j: int| 0 <= j < face_cycles(core, fs[i as int]).len() implies #[trigger] fits_in_place_of(
                    core.cycles@[face_cycles(core, fs[i as int])[j] as int].half_edges@,
                    half_edge@,
                    w,
                ) by {
                    let cj = face_cycles(&c0, fs[i as int])[j];
                    assert(fits_in_place_of(c0.cycles@[cj as int].half_edges@, half_edge@, w));
                    assert(core.cycles@[cj as int] == c0.cycles@[cj as int]);
                }
            }
            let n = replace_in_face(core, faces[i], half_edge, with);
            new_faces.push(n);
            proof {
                lemma_ids_of(new_faces@);
                lemma_ids_of(prev);
                lemma_extends_trans(&c0, &ck, core);
                assert forall|k: int| 0 <= k < i implies #[trigger] new_faces@[k]@ < core.faces@.len() && face_replaced(
                    core,
                    fs[k],
                    new_faces@[k]@,
                    half_edge@,
                    w,
                ) && (new_faces@[k]@ == fs[k] || new_faces@[k]@ >= c0.faces@.len()) by {
                    assert(new_faces@[k] == prev[k]);
                    assert(fs[k] < c0.faces@.len());
                    lemma_face_replaced_extends(&ck, core, fs[k], prev[k]@, half_edge@, w);
                }
                assert forall|a: int, b: int|
                    0 <= a < new_faces@.len() && 0 <= b < new_faces@.len() && a != b implies ids_of(new_faces@)[a] != ids_of(new_faces@)[b] by {
                    if a < i && b < i {
                        assert(ids_of(prev)[a] != ids_of(prev)[b]);
                    } else if a == i {
                        assert(fs[b] != fs[a]);
                    } else {
                        assert(fs[b] != fs[a]);
                    }
                }
            }
            i += 1;
        }
        proof {
            lemma_ids_of(new_faces@);
            assert(ids_of(new_faces@).len() == fs.len());
            assert forall|k: int| 0 <= k < ids_of(new_faces@).len() implies #[trigger] ids_of(new_faces@)[k] < core.faces@.len() by {
                assert(new_faces@[k]@ < core.faces@.len());
            }
            assert forall|k: int| 0 <= k < fs.len() implies #[trigger] face_replaced(core, fs[k], ids_of(new_faces@)[k], half_edge@, w) by {
                assert(new_faces@[k]@ < core.faces@.len());
            }
        }
        Shell::new(Handles::new(new_faces))
    }
}

} // verus!
