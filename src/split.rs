use crate::handle::Handle;
use crate::handles::{ids_of, lemma_ids_of};
use crate::objects::{all_below, HalfEdge, Instance, Shell, Vertex};
use crate::replace::{
    faces_below, faces_replaced, lemma_extends_trans, lemma_fresh_fits, lemma_replaced_below,
};
use crate::sibling::{half_edge_at, in_shell, is_position, shell_reachable, siblings};
use vstd::prelude::*;

verus! {

/// The identities of two half-edges
pub open spec fn pair_ids(pair: [Handle<HalfEdge>; 2]) -> Seq<usize> {
    seq![pair[0]@, pair[1]@]
}

/// What splitting the half-edge `he` of `shell` at `point` brings about:
/// `pieces[0]` are the two pieces of `he`, `pieces[1]` those of a sibling
/// `s` of it, both second pieces starting at the new vertex of `after`; and
/// `faces` are the faces of `shell` with `he`, then `s`, replaced by their
/// pieces
pub open spec fn split_done(
    before: &Instance,
    after: &Instance,
    shell: &Shell,
    he: usize,
    point: i64,
    pieces: [[Handle<HalfEdge>; 2]; 2],
    faces: Seq<usize>,
) -> bool {
    let e = before.half_edges@[he as int];
    let v = before.vertices@.len() as int;
    exists|s: usize|
        #[trigger] siblings(before, shell, he, s) && in_shell(before, shell, s) && is_piece(
            after.half_edges@[pieces[0][0]@ as int],
            e,
            e.boundary@[0],
            point,
            e.start_vertex@ as int,
        ) && is_piece(after.half_edges@[pieces[0][1]@ as int], e, point, e.boundary@[1], v)
            && is_piece(
            after.half_edges@[pieces[1][0]@ as int],
            before.half_edges@[s as int],
            before.half_edges@[s as int].boundary@[0],
            point,
            before.half_edges@[s as int].start_vertex@ as int,
        ) && is_piece(
            after.half_edges@[pieces[1][1]@ as int],
            before.half_edges@[s as int],
            point,
            before.half_edges@[s as int].boundary@[1],
            v,
        ) && exists|mid: Seq<usize>|
            faces_replaced(after, shell.faces@, mid, he, pair_ids(pieces[0]))
                && #[trigger] faces_replaced(after, mid, faces, s, pair_ids(pieces[1]))
}

/// Whether the half-edge `he` of `shell` has a sibling in `shell`
pub open spec fn has_sibling(core: &Instance, shell: &Shell, he: usize) -> bool {
    exists|i: int, j: int, k: int|
        is_position(core, shell, i, j, k) && siblings(core, shell, he, #[trigger] half_edge_at(core, shell, i, j, k))
}

/// Whether `piece` lies on the path and curve of `e`, from parameter `from`
/// to parameter `to`, starting at the vertex `start`
pub open spec fn is_piece(piece: HalfEdge, e: HalfEdge, from: i64, to: i64, start: int) -> bool {
    &&& piece.path == e.path
    &&& piece.boundary@ == seq![from, to]
    &&& piece.curve@ == e.curve@
    &&& piece.start_vertex@ == start
}

impl HalfEdge {
    /// Split the half-edge at parameter `point` into two, the second
    /// starting at a new vertex
    pub fn split_half_edge(&self, point: i64, core: &mut Instance) -> (r: [HalfEdge; 2])
        requires
            old(core).wf(),
            self.valid_in(old(core)),
        ensures
            final(core).wf(),
            final(core).extends(old(core)),
            final(core).vertices@.len() == old(core).vertices@.len() + 1,
            final(core).half_edges@ == old(core).half_edges@,
            final(core).cycles@ == old(core).cycles@,
            final(core).regions@ == old(core).regions@,
            final(core).faces@ == old(core).faces@,
            is_piece(r[0], *self, self.boundary@[0], point, self.start_vertex@ as int),
            is_piece(r[1], *self, point, self.boundary@[1], old(core).vertices@.len() as int),
            r[0].valid_in(final(core)),
            r[1].valid_in(final(core)),
    {
        let vertex = core.insert_vertex(Vertex {});
        let a = HalfEdge {
            path: self.path,
            boundary: [self.boundary[0], point],
            curve: self.curve,
            start_vertex: self.start_vertex,
        };
        let b = HalfEdge {
            path: self.path,
            boundary: [point, self.boundary[1]],
            curve: self.curve,
            start_vertex: vertex,
        };
        assert(a.boundary@ =~= seq![self.boundary@[0], point]);
        assert(b.boundary@ =~= seq![point, self.boundary@[1]]);
        [a, b]
    }
}

impl Shell {
    /// Split `half_edge`, as well as its sibling, into two at parameter
    /// `point`
    ///
    /// Both second pieces start at the same new vertex. In every cycle of
    /// the shell, each of the two half-edges is replaced by its pieces.
    /// Returns the new shell, then the pieces of `half_edge` and those of its
    /// sibling.
    #[verifier::spinoff_prover]
    pub fn split_edge(&self, half_edge: &Handle<HalfEdge>, point: i64, core: &mut Instance) -> (r: (
        Shell,
        [[Handle<HalfEdge>; 2]; 2],
    ))
        requires
            shell_reachable(old(core), self),
            old(core).half_edges.contains(*half_edge),
            has_sibling(old(core), self, half_edge@),
        ensures
            final(core).wf(),
            final(core).extends(old(core)),
            r.0.valid_in(final(core)),
            split_done(old(core), final(core), self, half_edge@, point, r.1, r.0.faces@),
    {
        let ghost c0 = *core;
        let sibling = match self.get_sibling_of(core, half_edge) {
            Some(sibling) => sibling,
            None => {
                proof {
                    assert(false);
                }
                *half_edge
            },
        };
        let e = *core.half_edges.get(half_edge);
        let s = *core.half_edges.get(&sibling);
        assert(c0.half_edges@[half_edge@ as int].valid_in(&c0));
        assert(c0.half_edges@[sibling@ as int].valid_in(&c0));
        let pieces = e.split_half_edge(point, core);
        let a = pieces[0];
        let b = pieces[1];
        let ghost c1 = *core;
        let ha = core.insert_half_edge(a);
        let ghost c1a = *core;
        let hb = core.insert_half_edge(b);
        let ghost c1b = *core;
        let sibling_pieces = s.split_half_edge(point, core);
        let ghost c1c = *core;
        let sa = sibling_pieces[0];
        let sb = HalfEdge { start_vertex: b.start_vertex, ..sibling_pieces[1] };
        let hsa = core.insert_half_edge(sa);
        let ghost c1d = *core;
        proof {
            assert(sb.valid_in(core));
        }
        let hsb = core.insert_half_edge(sb);
        let ghost c2 = *core;
        proof {
            lemma_extends_trans(&c0, &c1, &c1a);
            lemma_extends_trans(&c0, &c1a, &c1b);
            lemma_extends_trans(&c0, &c1b, &c1c);
            lemma_extends_trans(&c0, &c1c, &c1d);
            lemma_extends_trans(&c0, &c1d, &c2);
        }
        let ghost base = c0.half_edges@.len() as int;
        proof {
            // the shell's half-edges are all older than the pieces
            assert forall|i: int, j: int, k: int|
                0 <= i < self.faces@.len() && 0 <= j < crate::sibling::face_cycles(core, self.faces@[i]).len() && 0 <= k < core.cycles@[crate::sibling::face_cycles(core, self.faces@[i])[j] as int].half_edges@.len()
                    implies #[trigger] core.cycles@[crate::sibling::face_cycles(core, self.faces@[i])[j] as int].half_edges@[k] < base by {
                assert(self.faces@[i] < c0.faces@.len());
                crate::replace::lemma_face_cycles_extends(&c0, core, self.faces@[i]);
                let cj = crate::sibling::face_cycles(&c0, self.faces@[i])[j];
                assert(c0.cycles@[cj as int].valid_in(&c0));
                assert(core.cycles@[cj as int] == c0.cycles@[cj as int]);
            }
            assert(faces_below(core, self.faces@, base));
        }
        let with_a = vec![ha, hb];
        proof {
            lemma_ids_of(with_a@);
            assert(ids_of(with_a@) =~= seq![ha@, hb@]);
            lemma_fresh_fits(core, self.faces@, base, half_edge@, ids_of(with_a@));
        }
        let shell = self.replace_half_edge(core, half_edge, &with_a);
        let ghost c3 = *core;
        let with_s = vec![hsa, hsb];
        proof {
            lemma_ids_of(with_s@);
            assert(ids_of(with_s@) =~= seq![hsa@, hsb@]);
            crate::replace::lemma_faces_below_extends(&c2, core, self.faces@, base);
            lemma_replaced_below(core, self.faces@, shell.faces@, half_edge@, ids_of(with_a@), base, base + 2);
            lemma_fresh_fits(core, shell.faces@, base + 2, sibling@, ids_of(with_s@));
        }
        let result = shell.replace_half_edge(core, &sibling, &with_s);
        proof {
            lemma_extends_trans(&c2, &c3, core);
            lemma_extends_trans(&c0, &c2, core);
            crate::replace::lemma_faces_replaced_extends(&c3, core, self.faces@, shell.faces@, half_edge@, ids_of(with_a@));
            assert(core.half_edges@[ha@ as int] == a);
            assert(core.half_edges@[hb@ as int] == b);
            assert(core.half_edges@[hsa@ as int] == sa);
            assert(core.half_edges@[hsb@ as int] == sb);
            assert(b.start_vertex@ == c0.vertices@.len());
            assert(siblings(&c0, self, half_edge@, sibling@) && in_shell(&c0, self, sibling@));
            let v = c0.vertices@.len() as int;
            let sib = c0.half_edges@[sibling@ as int];
            assert(is_piece(core.half_edges@[ha@ as int], e, e.boundary@[0], point, e.start_vertex@ as int));
            assert(is_piece(core.half_edges@[hb@ as int], e, point, e.boundary@[1], v));
            assert(is_piece(core.half_edges@[hsa@ as int], sib, sib.boundary@[0], point, sib.start_vertex@ as int));
            assert(is_piece(core.half_edges@[hsb@ as int], sib, point, sib.boundary@[1], v));
            assert(pair_ids([ha, hb]) =~= ids_of(with_a@));
            assert(pair_ids([hsa, hsb]) =~= ids_of(with_s@));
            assert(faces_replaced(core, self.faces@, shell.faces@, half_edge@, pair_ids([ha, hb])));
            assert(faces_replaced(core, shell.faces@, result.faces@, sibling@, pair_ids([hsa, hsb])));
        }
        let first = [ha, hb];
        let second = [hsa, hsb];
        let pieces = [first, second];
        assert(first[0] == ha && first[1] == hb && second[0] == hsa && second[1] == hsb);
        assert(pieces[0] == first && pieces[1] == second);
        proof {
            assert(pair_ids(pieces[0]) == pair_ids([ha, hb]));
            assert(pair_ids(pieces[1]) == pair_ids([hsa, hsb]));
            let mid = shell.faces@;
            let sv = sibling@;
            assert(faces_replaced(core, self.faces@, mid, half_edge@, pair_ids(pieces[0])));
            assert(faces_replaced(core, mid, result.faces@, sv, pair_ids(pieces[1])));
            let e0 = c0.half_edges@[half_edge@ as int];
            let v = c0.vertices@.len() as int;
            assert(is_piece(core.half_edges@[pieces[0][0]@ as int], e0, e0.boundary@[0], point, e0.start_vertex@ as int));
            assert(is_piece(core.half_edges@[pieces[0][1]@ as int], e0, point, e0.boundary@[1], v));
            assert(is_piece(core.half_edges@[pieces[1][0]@ as int], c0.half_edges@[sv as int], c0.half_edges@[sv as int].boundary@[0], point, c0.half_edges@[sv as int].start_vertex@ as int));
            assert(is_piece(core.half_edges@[pieces[1][1]@ as int], c0.half_edges@[sv as int], point, c0.half_edges@[sv as int].boundary@[1], v));
            assert(split_done(&c0, core, self, half_edge@, point, pieces, result.faces@));
        }
        (result, pieces)
    }
}

/// Splitting an edge splits both of its half-edges at the same parameter,
/// and the second pieces of both start at one and the same new vertex: the
/// two sides stay joined there.
pub proof fn lemma_split_shares_vertex(
    before: &Instance,
    after: &Instance,
    shell: &Shell,
    he: usize,
    point: i64,
    pieces: [[Handle<HalfEdge>; 2]; 2],
    faces: Seq<usize>,
)
    requires
        split_done(before, after, shell, he, point, pieces, faces),
    ensures
        after.half_edges@[pieces[0][1]@ as int].start_vertex@ == after.half_edges@[pieces[1][1]@ as int].start_vertex@,
        after.half_edges@[pieces[0][1]@ as int].start_vertex@ == before.vertices@.len(),
        after.half_edges@[pieces[0][0]@ as int].boundary@ == seq![before.half_edges@[he as int].boundary@[0], point],
        after.half_edges@[pieces[0][1]@ as int].boundary@ == seq![point, before.half_edges@[he as int].boundary@[1]],
{
}

/// The pieces of a split pair up as the split half-edges did: the first
/// piece of the half-edge and the second piece of its sibling lie on one
/// curve with reversed boundaries, and so do the second piece of the
/// half-edge and the first piece of the sibling.
pub proof fn lemma_split_pieces_pair_up(
    before: &Instance,
    after: &Instance,
    shell: &Shell,
    he: usize,
    point: i64,
    pieces: [[Handle<HalfEdge>; 2]; 2],
    faces: Seq<usize>,
)
    requires
        split_done(before, after, shell, he, point, pieces, faces),
    ensures
        ({
            let a = after.half_edges@[pieces[0][0]@ as int];
            let b = after.half_edges@[pieces[0][1]@ as int];
            let sa = after.half_edges@[pieces[1][0]@ as int];
            let sb = after.half_edges@[pieces[1][1]@ as int];
            &&& a.curve@ == sb.curve@
            &&& a.boundary@[0] == sb.boundary@[1]
            &&& a.boundary@[1] == sb.boundary@[0]
            &&& b.curve@ == sa.curve@
            &&& b.boundary@[0] == sa.boundary@[1]
            &&& b.boundary@[1] == sa.boundary@[0]
        }),
{
    let s = choose|s: usize|
        #[trigger] siblings(before, shell, he, s) && in_shell(before, shell, s) && is_piece(
            after.half_edges@[pieces[0][0]@ as int],
            before.half_edges@[he as int],
            before.half_edges@[he as int].boundary@[0],
            point,
            before.half_edges@[he as int].start_vertex@ as int,
        ) && is_piece(after.half_edges@[pieces[0][1]@ as int], before.half_edges@[he as int], point, before.half_edges@[he as int].boundary@[1], before.vertices@.len() as int)
            && is_piece(
            after.half_edges@[pieces[1][0]@ as int],
            before.half_edges@[s as int],
            before.half_edges@[s as int].boundary@[0],
            point,
            before.half_edges@[s as int].start_vertex@ as int,
        ) && is_piece(
            after.half_edges@[pieces[1][1]@ as int],
            before.half_edges@[s as int],
            point,
            before.half_edges@[s as int].boundary@[1],
            before.vertices@.len() as int,
        ) && exists|mid: Seq<usize>|
            faces_replaced(after, shell.faces@, mid, he, pair_ids(pieces[0]))
                && #[trigger] faces_replaced(after, mid, faces, s, pair_ids(pieces[1]));
    assert(siblings(before, shell, he, s));
}

} // verus!
