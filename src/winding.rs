use crate::geometry::{in_range, path_point, Winding, COORD_LIMIT};
use crate::handle::Handle;
use crate::objects::{Cycle, HalfEdge, Instance};
use vstd::arithmetic::div_mod::{lemma_add_mod_noop_right, lemma_mod_bound, lemma_mod_self_0, lemma_small_mod};
use vstd::prelude::*;

verus! {

/// `f(0) + f(1) + ... + f(k - 1)`
pub open spec fn sum_to(f: spec_fn(int) -> int, k: int) -> int
    decreases k,
{
    if k <= 0 {
        0
    } else {
        sum_to(f, k - 1) + f(k - 1)
    }
}

proof fn lemma_sum_ext(f: spec_fn(int) -> int, g: spec_fn(int) -> int, k: int)
    requires
        forall|i: int| 0 <= i < k ==> #[trigger] f(i) == g(i),
    ensures
        sum_to(f, k) == sum_to(g, k),
    decreases k,
{
    if k > 0 {
        lemma_sum_ext(f, g, k - 1);
    }
}

proof fn lemma_sum_peel_front(f: spec_fn(int) -> int, k: int)
    requires
        k >= 1,
    ensures
        sum_to(f, k) == f(0) + sum_to(|i: int| f(i + 1), k - 1),
    decreases k,
{
    let g = |i: int| f(i + 1);
    if k > 1 {
        lemma_sum_peel_front(f, k - 1);
        assert(sum_to(g, k - 1) == sum_to(g, k - 2) + g(k - 2));
    } else {
        assert(sum_to(f, 1) == sum_to(f, 0) + f(0));
        assert(sum_to(g, 0) == 0);
    }
}

proof fn lemma_sum_rotate_one(f: spec_fn(int) -> int, n: int)
    requires
        n >= 1,
    ensures
        sum_to(|i: int| f((i + 1) % n), n) == sum_to(f, n),
{
    let h = |i: int| f((i + 1) % n);
    let g = |i: int| f(i + 1);
    lemma_mod_self_0(n);
    assert forall|i: int| 0 <= i < n - 1 implies #[trigger] h(i) == g(i) by {
        lemma_small_mod((i + 1) as nat, n as nat);
    }
    lemma_sum_ext(h, g, n - 1);
    lemma_sum_peel_front(f, n);
}

proof fn lemma_sum_rotate(f: spec_fn(int) -> int, n: int, r: nat)
    requires
        n >= 1,
    ensures
        sum_to(|i: int| f((i + r) % n), n) == sum_to(f, n),
    decreases r,
{
    let fr = |i: int| f((i + r) % n);
    if r == 0 {
        assert forall|i: int| 0 <= i < n implies #[trigger] fr(i) == f(i) by {
            lemma_small_mod(i as nat, n as nat);
        }
        lemma_sum_ext(fr, f, n);
    } else {
        let g = |i: int| f((i + (r - 1)) % n);
        lemma_sum_rotate(f, n, (r - 1) as nat);
        lemma_sum_rotate_one(g, n);
        assert forall|i: int| 0 <= i < n implies #[trigger] g((i + 1) % n) == fr(i) by {
            lemma_add_mod_noop_right(r - 1, i + 1, n);
        }
        lemma_sum_ext(|i: int| g((i + 1) % n), fr, n);
    }
}

/// The contribution of the polygon edge from `a` to `b` to the signed
/// area sum
pub open spec fn winding_term(a: (int, int), b: (int, int)) -> int {
    (b.0 - a.0) * (b.1 + a.1)
}

/// Twice the signed area of the polygon through `ps`, negated: positive
/// for a clockwise polygon, negative for a counter-clockwise one
pub open spec fn winding_sum(ps: Seq<(int, int)>) -> int {
    sum_to(|i: int| winding_term(ps[i], ps[(i + 1) % (ps.len() as int)]), ps.len() as int)
}

/// The winding that a signed area sum stands for
pub open spec fn winding_of_sum(sum: int) -> Winding {
    if sum > 0 {
        Winding::Cw
    } else {
        Winding::Ccw
    }
}

/// The polygon `ps`, listed from its `r`-th point on
pub open spec fn rotate(ps: Seq<(int, int)>, r: nat) -> Seq<(int, int)> {
    Seq::new(ps.len(), |i: int| ps[(i + r) % (ps.len() as int)])
}

/// The winding of a closed polygon does not depend on which of its points
/// is listed first: the signed area sum over the circular sequence of
/// edges is the same from every starting point.
pub proof fn lemma_winding_rotation_invariant(ps: Seq<(int, int)>, r: nat)
    requires
        ps.len() > 0,
    ensures
        winding_sum(rotate(ps, r)) == winding_sum(ps),
        winding_of_sum(winding_sum(rotate(ps, r))) == winding_of_sum(winding_sum(ps)),
{
    let n = ps.len() as int;
    let q = rotate(ps, r);
    let f = |i: int| winding_term(ps[i], ps[(i + 1) % n]);
    let fq = |i: int| winding_term(q[i], q[(i + 1) % n]);
    assert forall|i: int| 0 <= i < n implies #[trigger] fq(i) == f((i + r) % n) by {
        lemma_mod_bound(i + 1, n);
        lemma_add_mod_noop_right(r as int, i + 1, n);
        lemma_add_mod_noop_right(1, i + r, n);
        assert(q[(i + 1) % n] == ps[((i + 1) % n + r) % n]);
    }
    lemma_sum_ext(fq, |i: int| f((i + r) % n), n);
    lemma_sum_rotate(f, n, r);
}

/// Where a half-edge starts, in the coordinates of its surface
pub open spec fn start_position(half_edge: HalfEdge) -> (int, int) {
    path_point(half_edge.path, half_edge.boundary@[0] as int)
}

/// The start positions of the half-edges of `ids`, in order
pub open spec fn positions_of(core: &Instance, ids: Seq<usize>) -> Seq<(int, int)> {
    Seq::new(ids.len(), |i: int| start_position(core.half_edges@[ids[i] as int]))
}

/// Whether all start positions lie within the modelling range
pub open spec fn positions_in_range(ps: Seq<(int, int)>) -> bool {
    forall|i: int| 0 <= i < ps.len() ==> in_range(#[trigger] ps[i].0) && in_range(ps[i].1)
}

impl Instance {
    /// Where the half-edge starts, in the coordinates of its surface
    pub(crate) fn start_position_of(&self, half_edge: &Handle<HalfEdge>) -> (r: (i128, i128))
        requires
            self.half_edges.contains(*half_edge),
        ensures
            (r.0 as int, r.1 as int) == start_position(self.half_edges.object(*half_edge)),
    {
        let e = self.half_edges.get(half_edge);
        let t = e.boundary[0] as i128;
        let o = &e.path.origin.coords;
        let d = &e.path.direction.components;
        let (o0, o1, d0, d1) = (o[0] as i128, o[1] as i128, d[0] as i128, d[1] as i128);
        proof {
            let m = 0x8000_0000_0000_0000int;
            assert(-m * m <= d0 * t <= m * m) by (nonlinear_arith)
                requires -m <= d0 < m, -m <= t < m;
            assert(-m * m <= d1 * t <= m * m) by (nonlinear_arith)
                requires -m <= d1 < m, -m <= t < m;
        }
        (o0 + d0 * t, o1 + d1 * t)
    }
}

impl Cycle {
    /// The start positions of the cycle's half-edges, in order
    pub open spec fn positions(&self, core: &Instance) -> Seq<(int, int)> {
        positions_of(core, self.half_edges@)
    }

    /// The signed area sum of the polygon through the half-edges' start
    /// positions
    pub fn winding_sum(&self, core: &Instance) -> (r: i128)
        requires
            self.valid_in(core),
            positions_in_range(self.positions(core)),
            self.half_edges@.len() <= COORD_LIMIT,
        ensures
            r == winding_sum(self.positions(core)),
    {
        let ghost ps = self.positions(core);
        let ghost n = ps.len() as int;
        let ghost f = |i: int| winding_term(ps[i], ps[(i + 1) % n]);
        let pairs = self.half_edges.pairs();
        let lim = COORD_LIMIT as i128;
        let mut sum: i128 = 0;
        let mut i: usize = 0;
        while i < pairs.len()
            invariant
                pairs@.len() == n,
                n == self.half_edges@.len(),
                n <= lim,
                lim == COORD_LIMIT,
                self.valid_in(core),
                ps == self.positions(core),
                f == (|i: int| winding_term(ps[i], ps[(i + 1) % n])),
                positions_in_range(ps),
                forall|k: int|
                    0 <= k < pairs@.len() ==> #[trigger] pairs@[k].0@ == self.half_edges@[k]
                        && pairs@[k].1@ == self.half_edges@[(k + 1) % n],
                i <= n,
                sum == sum_to(f, i as int),
                -(i * 4 * lim * lim) <= sum <= i * 4 * lim * lim,
            decreases n - i,
        {
            let ghost k = i as int;
            proof {
                lemma_mod_bound(k + 1, n);
                assert(core.half_edges.contains(pairs@[k].0));
                assert(core.half_edges.contains(pairs@[k].1));
            }
            let a = core.start_position_of(&pairs[i].0);
            let b = core.start_position_of(&pairs[i].1);
            proof {
                assert(ps[k] == (a.0 as int, a.1 as int));
                assert(ps[(k + 1) % n] == (b.0 as int, b.1 as int));
            }
            let du = b.0 - a.0;
            let sv = b.1 + a.1;
            proof {
                assert(-(4 * lim * lim) <= du * sv <= 4 * lim * lim) by (nonlinear_arith)
                    requires -2 * lim <= du <= 2 * lim, -2 * lim <= sv <= 2 * lim;
                assert((k + 1) * 4 * lim * lim <= 4 * lim * lim * lim) by (nonlinear_arith)
                    requires k + 1 <= lim, lim > 0;
                assert(k * 4 * lim * lim + 4 * lim * lim == (k + 1) * 4 * lim * lim)
                    by (nonlinear_arith);
            }
            sum = sum + du * sv;
            i += 1;
        }
        sum
    }

    /// Indicate the cycle's winding, assuming a right-handed coordinate
    /// system
    ///
    /// This is one of the two possible windings, depending on the side from
    /// which the surface is viewed. A cycle whose signed area is zero has no
    /// winding; it is not a valid cycle.
    pub fn winding(&self, core: &Instance) -> (r: Winding)
        requires
            self.valid_in(core),
            positions_in_range(self.positions(core)),
            self.half_edges@.len() <= COORD_LIMIT,
            winding_sum(self.positions(core)) != 0,
        ensures
            r == winding_of_sum(winding_sum(self.positions(core))),
    {
        let sum = self.winding_sum(core);
        if sum > 0 {
            Winding::Cw
        } else {
            Winding::Ccw
        }
    }
}

} // verus!
