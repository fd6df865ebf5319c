use crate::geometry::Point;
use crate::geometry::COORD_LIMIT;
use crate::objects::{Cycle, HalfEdge, Instance};
use crate::geometry::path_point;
use crate::winding::{positions_in_range, start_position, winding_sum};
use vstd::prelude::*;

verus! {

/// The tolerances that validation checks against
#[derive(Clone, Copy, Debug, PartialEq, Eq)]
pub struct ValidationConfig {
    /// The smallest distance at which two positions count as distinct
    pub distinct_min_distance: u64,
}

impl ValidationConfig {
    /// The default tolerances: positions are distinct once they differ by
    /// one unit of length
    pub fn new() -> (r: ValidationConfig)
        ensures
            r.distinct_min_distance == 1,
    {
        ValidationConfig { distinct_min_distance: 1 }
    }
}

/// [`HalfEdge`] validation failed
#[derive(Clone, Debug)]
pub enum EdgeValidationError {
    /// The vertices of the half-edge are coincident
    VerticesAreCoincident {
        /// The position of the back vertex
        back_position: Point<1>,
        /// The position of the front vertex
        front_position: Point<1>,
        /// The distance between the two vertices
        distance: u64,
        /// The half-edge
        half_edge: HalfEdge,
    },
}

/// [`Cycle`] validation failed
#[derive(Clone, Copy, Debug, PartialEq, Eq)]
pub enum CycleValidationError {
    /// A half-edge does not end where the next one starts
    NotConnected {
        /// The position of the half-edge in the cycle
        index: usize,
    },
    /// The polygon through the cycle's half-edges encloses no area, so the
    /// cycle has no winding
    ZeroArea {
        /// The number of half-edges of the cycle
        half_edges: usize,
    },
}

/// A violation that validation found
#[derive(Clone, Debug)]
pub enum ValidationError {
    /// A half-edge is not valid
    Edge(EdgeValidationError),
    /// A cycle is not valid
    Cycle(CycleValidationError),
}

/// The distance between the two ends of a boundary
pub open spec fn boundary_distance(boundary: Seq<i64>) -> int {
    let d = boundary[1] - boundary[0];
    if d < 0 {
        -d
    } else {
        d
    }
}

/// The violation that the coincidence check reports for `edge`
pub open spec fn coincidence_error(edge: HalfEdge) -> ValidationError {
    ValidationError::Edge(
        EdgeValidationError::VerticesAreCoincident {
            back_position: Point { coords: [edge.boundary@[0]] },
            front_position: Point { coords: [edge.boundary@[1]] },
            distance: boundary_distance(edge.boundary@) as u64,
            half_edge: edge,
        },
    )
}

impl EdgeValidationError {
    /// Report the half-edge, if its two boundary positions are closer than
    /// the configured minimum distance
    pub fn check_vertex_coincidence(
        edge: &HalfEdge,
        config: &ValidationConfig,
        errors: &mut Vec<ValidationError>,
    )
        ensures
            boundary_distance(edge.boundary@) < config.distinct_min_distance ==> final(errors)@
                == old(errors)@.push(coincidence_error(*edge)),
            boundary_distance(edge.boundary@) >= config.distinct_min_distance ==> final(errors)@
                == old(errors)@,
    {
        let back_position = edge.boundary[0];
        let front_position = edge.boundary[1];
        let d = front_position as i128 - back_position as i128;
        let distance: u64 = if d < 0 {
            (-d) as u64
        } else {
            d as u64
        };
        if distance < config.distinct_min_distance {
            errors.push(
                ValidationError::Edge(
                    EdgeValidationError::VerticesAreCoincident {
                        back_position: Point { coords: [back_position] },
                        front_position: Point { coords: [front_position] },
                        distance,
                        half_edge: *edge,
                    },
                ),
            );
        }
    }
}

impl HalfEdge {
    /// Run every check of a half-edge, adding what it finds to `errors`
    pub fn validate_with_config(&self, config: &ValidationConfig, errors: &mut Vec<ValidationError>)
        ensures
            boundary_distance(self.boundary@) < config.distinct_min_distance ==> final(errors)@
                == old(errors)@.push(coincidence_error(*self)),
            boundary_distance(self.boundary@) >= config.distinct_min_distance ==> final(errors)@
                == old(errors)@,
    {
        EdgeValidationError::check_vertex_coincidence(self, config, errors);
    }
}

/// The violations that the half-edges `hs[..k]` of `core` show, in order
pub open spec fn edge_errors(core: &Instance, hs: Seq<usize>, config: ValidationConfig, k: int) -> Seq<ValidationError>
    decreases k,
{
    if k <= 0 {
        Seq::empty()
    } else {
        let e = core.half_edges@[hs[k - 1] as int];
        let before = edge_errors(core, hs, config, k - 1);
        if boundary_distance(e.boundary@) < config.distinct_min_distance {
            before.push(coincidence_error(e))
        } else {
            before
        }
    }
}

/// Where a half-edge ends, in the coordinates of its surface
pub open spec fn end_position(e: HalfEdge) -> (int, int) {
    path_point(e.path, e.boundary@[1] as int)
}

/// The gaps among the half-edges `hs[..k]`: each that does not end where
/// its successor in the cycle starts
pub open spec fn gap_errors(core: &Instance, hs: Seq<usize>, k: int) -> Seq<ValidationError>
    decreases k,
{
    if k <= 0 {
        Seq::empty()
    } else {
        let before = gap_errors(core, hs, k - 1);
        let e = core.half_edges@[hs[k - 1] as int];
        let next = core.half_edges@[hs[k % hs.len() as int] as int];
        if end_position(e) != start_position(next) {
            before.push(ValidationError::Cycle(CycleValidationError::NotConnected { index: (k - 1) as usize }))
        } else {
            before
        }
    }
}

/// Every violation of the cycle: those of its half-edges, in order, then
/// the gaps between them, then that of the cycle as a whole
pub open spec fn cycle_errors(core: &Instance, cycle: &Cycle, config: ValidationConfig) -> Seq<ValidationError> {
    let hs = cycle.half_edges@;
    let edges = edge_errors(core, hs, config, hs.len() as int) + gap_errors(core, hs, hs.len() as int);
    if winding_sum(cycle.positions(core)) == 0 {
        edges.push(ValidationError::Cycle(CycleValidationError::ZeroArea { half_edges: hs.len() as usize }))
    } else {
        edges
    }
}

impl Instance {
    /// Where the half-edge ends, in the coordinates of its surface
    fn end_position_of(&self, half_edge: &crate::handle::Handle<HalfEdge>) -> (r: (i128, i128))
        requires
            self.half_edges.contains(*half_edge),
        ensures
            (r.0 as int, r.1 as int) == end_position(self.half_edges.object(*half_edge)),
    {
        let e = self.half_edges.get(half_edge);
        let t = e.boundary[1] as i128;
        let o = &e.path.origin.coords;
        let d = &e.path.direction.components;
        let (o0, o1, d0, d1) = (o[0] as i128, o[1] as i128, d[0] as i128, d[1] as i128);
        proof {
            let m = 0x8000_0000_0000_0000int;
            assert(-m * m <= d0 * t <= m * m) by (nonlinear_arith)
                requires -m <= d0 < m, -m <= t < m;
            assert(-m * m <= d1 * t <= m * m) by (nonlinear_arith)
                requires -m <= d1 < m, -m <= t < m;
        }
        (o0 + d0 * t, o1 + d1 * t)
    }
}

impl Cycle {
    /// Run every check of the cycle and of its half-edges, adding all that
    /// they find to `errors`
    pub fn validate_with_config(&self, core: &Instance, config: &ValidationConfig, errors: &mut Vec<ValidationError>)
        requires
            self.valid_in(core),
            positions_in_range(self.positions(core)),
            self.half_edges@.len() <= COORD_LIMIT,
        ensures
            final(errors)@ == old(errors)@ + cycle_errors(core, self, *config),
    {
        let ghost start = errors@;
        let hs = self.half_edges.iter();
        proof {
            crate::handles::lemma_ids_of(hs@);
        }
        let mut i: usize = 0;
        while i < hs.len()
            invariant
                self.valid_in(core),
                crate::handles::ids_of(hs@) == self.half_edges@,
                i <= hs@.len(),
                errors@ == start + edge_errors(core, self.half_edges@, *config, i as int),
            decreases hs@.len() - i,
        {
            proof {
                crate::handles::lemma_ids_of(hs@);
                assert(self.half_edges@[i as int] < core.half_edges@.len());
            }
            let ghost before = errors@;
            core.half_edges.get(&hs[i]).validate_with_config(config, errors);
            proof {
                assert(hs@[i as int]@ == self.half_edges@[i as int]);
                let e = core.half_edges@[self.half_edges@[i as int] as int];
                if boundary_distance(e.boundary@) < config.distinct_min_distance {
                    assert(errors@ =~= start + edge_errors(core, self.half_edges@, *config, i + 1));
                }
            }
            i += 1;
        }
        let ghost edges = errors@;
        let pairs = self.half_edges.pairs();
        let n = pairs.len();
        let mut j: usize = 0;
        while j < n
            invariant
                self.valid_in(core),
                n == self.half_edges@.len(),
                pairs@.len() == n,
                forall|k: int|
                    0 <= k < pairs@.len() ==> #[trigger] pairs@[k].0@ == self.half_edges@[k] && pairs@[k].1@
                        == self.half_edges@[(k + 1) % (n as int)],
                positions_in_range(self.positions(core)),
                j <= n,
                errors@ == edges + gap_errors(core, self.half_edges@, j as int),
            decreases n - j,
        {
            let ghost k = j as int;
            proof {
                vstd::arithmetic::div_mod::lemma_mod_bound(k + 1, n as int);
                assert(pairs@[k].0@ == self.half_edges@[k]);
                assert(self.half_edges@[k] < core.half_edges@.len());
                assert(self.half_edges@[(k + 1) % (n as int)] < core.half_edges@.len());
            }
            let (end_u, end_v) = core.end_position_of(&pairs[j].0);
            let (start_u, start_v) = core.start_position_of(&pairs[j].1);
            if end_u != start_u || end_v != start_v {
                errors.push(ValidationError::Cycle(CycleValidationError::NotConnected { index: j }));
            }
            proof {
                assert(errors@ =~= edges + gap_errors(core, self.half_edges@, k + 1));
            }
            j += 1;
        }
        if self.winding_sum(core) == 0 {
            errors.push(ValidationError::Cycle(CycleValidationError::ZeroArea { half_edges: hs.len() }));
            assert(errors@ =~= start + cycle_errors(core, self, *config));
        }
        assert(errors@ =~= start + cycle_errors(core, self, *config));
    }
}

} // verus!
