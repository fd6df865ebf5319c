use crate::handle::Handle;
use crate::handles::{ids_of, is_distinct, lemma_ids_of, Handles};
use crate::objects::{all_below, Cycle, Face, HalfEdge, Instance, Region};
use crate::replace::{lemma_extends_refl, lemma_extends_trans};
use vstd::prelude::*;

verus! {

/// `r` is the half-edge `e` traversed the other way, starting at the vertex
/// `start` (where `e` ends)
pub open spec fn is_reversal(r: HalfEdge, e: HalfEdge, start: usize) -> bool {
    &&& r.path == e.path
    &&& r.boundary@ == seq![e.boundary@[1], e.boundary@[0]]
    &&& r.curve@ == e.curve@
    &&& r.start_vertex@ == start
}

/// The half-edges `rs` run through the cycle of half-edges `hs` the other
/// way round: the `i`-th of them reverses the `i`-th from the end of `hs`,
/// starting where that one ends, at the start of its successor
pub open spec fn cycle_reversal(c: &Instance, rs: Seq<usize>, hs: Seq<usize>) -> bool {
    let n = hs.len() as int;
    &&& rs.len() == n
    &&& forall|i: int|
        0 <= i < n ==> #[trigger] is_reversal(
            c.half_edges@[rs[i] as int],
            c.half_edges@[hs[n - 1 - i] as int],
            c.half_edges@[hs[(n - i) % n] as int].start_vertex@,
        )
}

impl Cycle {
    /// Reverse the direction of the cycle, storing the reversed half-edges
    #[verifier::spinoff_prover]
    pub fn reverse(&self, core: &mut Instance) -> (r: Cycle)
        requires
            old(core).wf(),
            self.valid_in(old(core)),
        ensures
            final(core).wf(),
            final(core).extends(old(core)),
            final(core).vertices@ == old(core).vertices@,
            final(core).curves@ == old(core).curves@,
            final(core).surfaces@ == old(core).surfaces@,
            final(core).cycles@ == old(core).cycles@,
            final(core).regions@ == old(core).regions@,
            final(core).faces@ == old(core).faces@,
            r.valid_in(final(core)),
            cycle_reversal(final(core), r.half_edges@, self.half_edges@),
            forall|i: int| 0 <= i < r.half_edges@.len() ==> #[trigger] r.half_edges@[i] >= old(core).half_edges@.len(),
    {
        let ghost c0 = *core;
        let ghost hs = self.half_edges@;
        let ghost n = hs.len() as int;
        let pairs = self.half_edges.pairs();
        let mut forward: Vec<Handle<HalfEdge>> = Vec::new();
        let mut i: usize = 0;
        proof {
            lemma_extends_refl(core);
        }
        while i < pairs.len()
            invariant
                c0.wf(),
                core.wf(),
                core.extends(&c0),
                core.vertices@ == c0.vertices@,
                core.curves@ == c0.curves@,
                core.surfaces@ == c0.surfaces@,
                core.cycles@ == c0.cycles@,
                core.regions@ == c0.regions@,
                core.faces@ == c0.faces@,
                self.valid_in(&c0),
                hs == self.half_edges@,
                pairs@.len() == n,
                n == hs.len(),
                forall|k: int|
                    0 <= k < pairs@.len() ==> #[trigger] pairs@[k].0@ == hs[k] && pairs@[k].1@ == hs[(k + 1) % n],
                i <= n,
                forward@.len() == i,
                core.half_edges@.len() == c0.half_edges@.len() + i,
                forall|k: int| 0 <= k < i ==> #[trigger] forward@[k]@ == c0.half_edges@.len() + k,
                forall|k: int|
                    0 <= k < i ==> #[trigger] is_reversal(
                        core.half_edges@[forward@[k]@ as int],
                        c0.half_edges@[hs[k] as int],
                        c0.half_edges@[hs[(k + 1) % n] as int].start_vertex@,
                    ),
            decreases n - i,
        {
            let ghost ck = *core;
            proof {
                vstd::arithmetic::div_mod::lemma_mod_bound(i + 1, n);
                assert(hs[i as int] < c0.half_edges@.len());
                assert(hs[(i + 1) % n] < c0.half_edges@.len());
                assert(core.half_edges@[hs[i as int] as int] == c0.half_edges@[hs[i as int] as int]);
                assert(core.half_edges@[hs[(i + 1) % n] as int] == c0.half_edges@[hs[(i + 1) % n] as int]);
            }
            let current = *core.half_edges.get(&pairs[i].0);
            let next_start = core.half_edges.get(&pairs[i].1).start_vertex;
            let reversed = HalfEdge {
                path: current.path,
                boundary: [current.boundary[1], current.boundary[0]],
                curve: current.curve,
                start_vertex: next_start,
            };
            assert(reversed.boundary@ =~= seq![current.boundary@[1], current.boundary@[0]]);
            proof {
                assert(c0.half_edges@[hs[i as int] as int].valid_in(&c0));
                assert(c0.half_edges@[hs[(i + 1) % n] as int].valid_in(&c0));
            }
            let h = core.insert_half_edge(reversed);
            forward.push(h);
            proof {
                lemma_extends_trans(&c0, &ck, core);
                assert forall|k: int|
                    0 <= k < i implies #[trigger] is_reversal(
                        core.half_edges@[forward@[k]@ as int],
                        c0.half_edges@[hs[k] as int],
                        c0.half_edges@[hs[(k + 1) % n] as int].start_vertex@,
                    ) by {
                    assert(core.half_edges@[forward@[k]@ as int] == ck.half_edges@[forward@[k]@ as int]);
                }
            }
            i += 1;
        }
        let mut backward: Vec<Handle<HalfEdge>> = Vec::new();
        let mut j: usize = forward.len();
        while j > 0
            invariant
                j <= forward@.len(),
                forward@.len() == n,
                backward@.len() == n - j,
                forall|k: int| 0 <= k < n - j ==> #[trigger] backward@[k] == forward@[n - 1 - k],
            decreases j,
        {
            j -= 1;
            backward.push(forward[j]);
        }
        proof {
            lemma_ids_of(backward@);
            let b = ids_of(backward@);
            assert forall|x: int, y: int| 0 <= x < b.len() && 0 <= y < b.len() && x != y implies b[x] != b[y] by {
                assert(backward@[x] == forward@[n - 1 - x]);
                assert(backward@[y] == forward@[n - 1 - y]);
            }
            assert forall|k: int| 0 <= k < n implies #[trigger] is_reversal(
                core.half_edges@[b[k] as int],
                core.half_edges@[hs[n - 1 - k] as int],
                core.half_edges@[hs[(n - k) % n] as int].start_vertex@,
            ) by {
                assert(backward@[k] == forward@[n - 1 - k]);
                assert(hs[n - 1 - k] < c0.half_edges@.len());
                assert(core.half_edges@[hs[n - 1 - k] as int] == c0.half_edges@[hs[n - 1 - k] as int]);
                assert((n - 1 - k + 1) % n == (n - k) % n);
                vstd::arithmetic::div_mod::lemma_mod_bound(n - k, n);
                assert(hs[(n - k) % n] < c0.half_edges@.len());
                assert(core.half_edges@[hs[(n - k) % n] as int] == c0.half_edges@[hs[(n - k) % n] as int]);
            }
            assert forall|k: int| 0 <= k < b.len() implies #[trigger] b[k] < core.half_edges@.len() by {
                assert(backward@[k] == forward@[n - 1 - k]);
            }
            assert forall|k: int| 0 <= k < b.len() implies #[trigger] b[k] >= c0.half_edges@.len() by {
                assert(backward@[k] == forward@[n - 1 - k]);
            }
        }
        Cycle::new(backward)
    }
}

/// The region `r` is the region `g` with each of its cycles reversed
pub open spec fn region_reversal(c: &Instance, r: Region, g: Region) -> bool {
    &&& r.color == g.color
    &&& cycle_reversal(c, c.cycles@[r.exterior@ as int].half_edges@, c.cycles@[g.exterior@ as int].half_edges@)
    &&& r.interiors@.len() == g.interiors@.len()
    &&& forall|i: int|
        0 <= i < g.interiors@.len() ==> #[trigger] cycle_reversal(
            c,
            c.cycles@[r.interiors@[i] as int].half_edges@,
            c.cycles@[g.interiors@[i] as int].half_edges@,
        )
}

pub(crate) proof fn lemma_region_reversal_same(c1: &Instance, c2: &Instance, r: Region, g: Region)
    requires
        c1.cycles@ == c2.cycles@,
        c1.half_edges@ == c2.half_edges@,
        region_reversal(c1, r, g),
    ensures
        region_reversal(c2, r, g),
{
    assert forall|i: int|
        0 <= i < g.interiors@.len() implies #[trigger] cycle_reversal(
            c2,
            c2.cycles@[r.interiors@[i] as int].half_edges@,
            c2.cycles@[g.interiors@[i] as int].half_edges@,
        ) by {
        lemma_cycle_reversal_same(c1, c2, c1.cycles@[r.interiors@[i] as int].half_edges@, c1.cycles@[g.interiors@[i] as int].half_edges@);
    }
    lemma_cycle_reversal_same(c1, c2, c1.cycles@[r.exterior@ as int].half_edges@, c1.cycles@[g.exterior@ as int].half_edges@);
}

proof fn lemma_cycle_reversal_same(c1: &Instance, c2: &Instance, rs: Seq<usize>, hs: Seq<usize>)
    requires
        c1.half_edges@ == c2.half_edges@,
        cycle_reversal(c1, rs, hs),
    ensures
        cycle_reversal(c2, rs, hs),
{
    let n = hs.len() as int;
    assert forall|i: int| 0 <= i < n implies #[trigger] is_reversal(
        c2.half_edges@[rs[i] as int],
        c2.half_edges@[hs[n - 1 - i] as int],
        c2.half_edges@[hs[(n - i) % n] as int].start_vertex@,
    ) by {
        assert(is_reversal(
            c1.half_edges@[rs[i] as int],
            c1.half_edges@[hs[n - 1 - i] as int],
            c1.half_edges@[hs[(n - i) % n] as int].start_vertex@,
        ));
    }
}

/// A reversal between stored cycles stays one once more is stored
pub(crate) proof fn lemma_cycle_reversal_extends(c1: &Instance, c2: &Instance, rc: usize, gc: usize)
    requires
        c1.wf(),
        c2.extends(c1),
        rc < c1.cycles@.len(),
        gc < c1.cycles@.len(),
        cycle_reversal(c1, c1.cycles@[rc as int].half_edges@, c1.cycles@[gc as int].half_edges@),
    ensures
        cycle_reversal(c2, c2.cycles@[rc as int].half_edges@, c2.cycles@[gc as int].half_edges@),
{
    assert(c2.cycles@[rc as int] == c1.cycles@[rc as int]);
    assert(c2.cycles@[gc as int] == c1.cycles@[gc as int]);
    assert(c1.cycles@[rc as int].valid_in(c1));
    assert(c1.cycles@[gc as int].valid_in(c1));
    let rs = c1.cycles@[rc as int].half_edges@;
    let hs = c1.cycles@[gc as int].half_edges@;
    let n = hs.len() as int;
    assert forall|i: int| 0 <= i < n implies #[trigger] is_reversal(
        c2.half_edges@[rs[i] as int],
        c2.half_edges@[hs[n - 1 - i] as int],
        c2.half_edges@[hs[(n - i) % n] as int].start_vertex@,
    ) by {
        assert(is_reversal(
            c1.half_edges@[rs[i] as int],
            c1.half_edges@[hs[n - 1 - i] as int],
            c1.half_edges@[hs[(n - i) % n] as int].start_vertex@,
        ));
        vstd::arithmetic::div_mod::lemma_mod_bound(n - i, n);
        assert(c2.half_edges@[rs[i] as int] == c1.half_edges@[rs[i] as int]);
        assert(c2.half_edges@[hs[n - 1 - i] as int] == c1.half_edges@[hs[n - 1 - i] as int]);
        assert(c2.half_edges@[hs[(n - i) % n] as int] == c1.half_edges@[hs[(n - i) % n] as int]);
    }
}

/// Reverse a stored cycle and store the result
pub(crate) fn reverse_stored_cycle(core: &mut Instance, cycle: &Handle<Cycle>) -> (r: Handle<Cycle>)
    requires
        old(core).wf(),
        cycle@ < old(core).cycles@.len(),
    ensures
        final(core).wf(),
        final(core).extends(old(core)),
        final(core).cycles@.len() == old(core).cycles@.len() + 1,
        final(core).regions@ == old(core).regions@,
        final(core).faces@ == old(core).faces@,
        final(core).surfaces@ == old(core).surfaces@,
        r@ == old(core).cycles@.len(),
        cycle_reversal(
            final(core),
            final(core).cycles@[r@ as int].half_edges@,
            final(core).cycles@[cycle@ as int].half_edges@,
        ),
{
    let ghost c0 = *core;
    proof {
        assert(core.cycles@[cycle@ as int].valid_in(core));
    }
    let copy = Cycle { half_edges: core.cycles.get(cycle).half_edges.clone() };
    let reversed = copy.reverse(core);
    let ghost c1 = *core;
    let r = core.insert_cycle(reversed);
    proof {
        lemma_extends_trans(&c0, &c1, core);
        assert(core.cycles@[cycle@ as int] == c0.cycles@[cycle@ as int]);
        assert(core.half_edges@ == c1.half_edges@);
    }
    r
}

impl Region {
    /// Reverse the direction of each of the region's cycles, storing the
    /// reversed cycles
    #[verifier::spinoff_prover]
    pub fn reverse(&self, core: &mut Instance) -> (r: Region)
        requires
            old(core).wf(),
            self.valid_in(old(core)),
        ensures
            final(core).wf(),
            final(core).extends(old(core)),
            final(core).regions@ == old(core).regions@,
            final(core).faces@ == old(core).faces@,
            final(core).surfaces@ == old(core).surfaces@,
            r.valid_in(final(core)),
            region_reversal(final(core), r, *self),
    {
        let ghost c0 = *core;
        let exterior = reverse_stored_cycle(core, &self.exterior);
        let interiors = self.interiors.iter();
        proof {
            lemma_ids_of(interiors@);
        }
        let mut reversed: Vec<Handle<Cycle>> = Vec::new();
        let mut i: usize = 0;
        while i < interiors.len()
            invariant
                c0.wf(),
                core.wf(),
                core.extends(&c0),
                core.regions@ == c0.regions@,
                core.faces@ == c0.faces@,
                core.surfaces@ == c0.surfaces@,
                self.valid_in(&c0),
                ids_of(interiors@) == self.interiors@,
                i <= interiors@.len(),
                exterior@ < core.cycles@.len(),
                exterior@ >= c0.cycles@.len(),
                cycle_reversal(core, core.cycles@[exterior@ as int].half_edges@, core.cycles@[self.exterior@ as int].half_edges@),
                reversed@.len() == i,
                forall|k: int| 0 <= k < i ==> #[trigger] reversed@[k]@ < core.cycles@.len(),
                forall|k: int| 0 <= k < i ==> #[trigger] reversed@[k]@ > exterior@,
                forall|a: int, b: int| 0 <= a < b < i ==> #[trigger] reversed@[a]@ < #[trigger] reversed@[b]@,
                forall|k: int|
                    0 <= k < i ==> #[trigger] cycle_reversal(
                        core,
                        core.cycles@[reversed@[k]@ as int].half_edges@,
                        core.cycles@[self.interiors@[k] as int].half_edges@,
                    ),
            decreases interiors@.len() - i,
        {
            let ghost ck = *core;
            let ghost prev = reversed@;
            proof {
                lemma_ids_of(interiors@);
                assert(self.interiors@[i as int] < c0.cycles@.len());
            }
            let h = reverse_stored_cycle(core, &interiors[i]);
            reversed.push(h);
            proof {
                lemma_extends_trans(&c0, &ck, core);
                lemma_cycle_reversal_extends(&ck, core, exterior@, self.exterior@);
                assert forall|k: int| 0 <= k < i implies #[trigger] cycle_reversal(
                    core,
                    core.cycles@[reversed@[k]@ as int].half_edges@,
                    core.cycles@[self.interiors@[k] as int].half_edges@,
                ) by {
                    assert(reversed@[k] == prev[k]);
                    lemma_cycle_reversal_extends(&ck, core, prev[k]@, self.interiors@[k]);
                }
                assert(core.cycles@[self.interiors@[i as int] as int] == ck.cycles@[self.interiors@[i as int] as int]);
            }
            i += 1;
        }
        proof {
            lemma_ids_of(reversed@);
            let b = ids_of(reversed@);
            assert forall|x: int, y: int| 0 <= x < b.len() && 0 <= y < b.len() && x != y implies b[x] != b[y] by {
                if x < y {
                    assert(reversed@[x]@ < reversed@[y]@);
                } else {
                    assert(reversed@[y]@ < reversed@[x]@);
                }
            }
            assert forall|k: int| 0 <= k < b.len() implies #[trigger] b[k] < core.cycles@.len() by {
                assert(reversed@[k]@ < core.cycles@.len());
            }
            assert forall|k: int| 0 <= k < b.len() implies #[trigger] cycle_reversal(
                core,
                core.cycles@[b[k] as int].half_edges@,
                core.cycles@[self.interiors@[k] as int].half_edges@,
            ) by {
                assert(b[k] == reversed@[k]@);
            }
        }
        Region::new(exterior, Handles::new(reversed), self.color)
    }
}

impl Face {
    /// Reverse the orientation of the face: the same surface, with the
    /// region's cycles reversed
    pub fn reverse(&self, core: &mut Instance) -> (r: Face)
        requires
            old(core).wf(),
            self.valid_in(old(core)),
        ensures
            final(core).wf(),
            final(core).extends(old(core)),
            final(core).faces@ == old(core).faces@,
            final(core).surfaces@ == old(core).surfaces@,
            r.valid_in(final(core)),
            r.surface@ == self.surface@,
            region_reversal(
                final(core),
                final(core).regions@[r.region@ as int],
                final(core).regions@[self.region@ as int],
            ),
    {
        let ghost c0 = *core;
        proof {
            assert(core.regions@[self.region@ as int].valid_in(core));
        }
        let stored = core.regions.get(&self.region);
        let copy = Region {
            exterior: stored.exterior,
            interiors: stored.interiors.clone(),
            color: stored.color,
        };
        let region = copy.reverse(core);
        let ghost c1 = *core;
        let r = core.insert_region(region);
        proof {
            lemma_extends_trans(&c0, &c1, core);
            assert(core.regions@[self.region@ as int] == c0.regions@[self.region@ as int]);
            assert(core.cycles@ == c1.cycles@);
            assert(core.half_edges@ == c1.half_edges@);
            assert(region_reversal(&c1, region, copy));
            lemma_region_reversal_same(&c1, core, region, copy);
            assert(core.regions@[r@ as int] == region);
        }
        Face::new(self.surface, r)
    }
}

} // verus!
