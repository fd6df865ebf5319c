use vstd::prelude::*;

verus! {

/// The largest magnitude of a coordinate that the operations of this crate
/// compute with exactly
///
/// Coordinates are integers in the model's unit of length. Within this range
/// every sum, cross product and signed area that the topology needs fits the
/// machine integers it is computed in.
pub const COORD_LIMIT: i64 = 1099511627776;

/// Whether `x` lies within the modelling range
pub open spec fn in_range(x: int) -> bool {
    -COORD_LIMIT <= x <= COORD_LIMIT
}

/// An n-dimensional point
#[derive(Clone, Copy, Debug, PartialEq, Eq)]
pub struct Point<const D: usize> {
    /// The coordinates of the point
    pub coords: [i64; D],
}

/// An n-dimensional vector
#[derive(Clone, Copy, Debug, PartialEq, Eq)]
pub struct Vector<const D: usize> {
    /// The components of the vector
    pub components: [i64; D],
}

impl<const D: usize> Point<D> {
    /// Convert to a 1-dimensional point, keeping the first coordinate
    pub fn to_t(&self) -> (r: Point<1>)
        requires
            D >= 1,
        ensures
            r.coords@ == seq![self.coords@[0]],
    {
        let r = Point { coords: [self.coords[0]] };
        assert(r.coords@ =~= seq![self.coords@[0]]);
        r
    }
}

/// The rotational sense of a closed polygon
#[derive(Clone, Copy, Debug, PartialEq, Eq)]
pub enum Winding {
    /// Counter-clockwise
    Ccw,
    /// Clockwise
    Cw,
}

impl Winding {
    /// The opposite rotational sense
    pub fn reverse(self) -> (r: Winding)
        ensures
            r != self,
    {
        match self {
            Winding::Ccw => Winding::Cw,
            Winding::Cw => Winding::Ccw,
        }
    }
}

/// A straight line in the 2D coordinates of a surface, the point at
/// parameter `t` being `origin + direction * t`
#[derive(Clone, Copy, Debug, PartialEq, Eq)]
pub struct SurfacePath {
    /// The point at parameter 0
    pub origin: Point<2>,
    /// The step per unit of the parameter
    pub direction: Vector<2>,
}

/// The point of `path` at parameter `t`, in surface coordinates
pub open spec fn path_point(path: SurfacePath, t: int) -> (int, int) {
    (
        path.origin.coords@[0] + path.direction.components@[0] * t,
        path.origin.coords@[1] + path.direction.components@[1] * t,
    )
}

impl SurfacePath {
    /// The line through `a` (at parameter 0) and `b` (at parameter 1)
    pub fn line_from_points(a: Point<2>, b: Point<2>) -> (r: SurfacePath)
        requires
            in_range(a.coords@[0] as int),
            in_range(a.coords@[1] as int),
            in_range(b.coords@[0] as int),
            in_range(b.coords@[1] as int),
        ensures
            r.origin == a,
            r.direction.components@ == seq![(b.coords@[0] - a.coords@[0]) as i64, (b.coords@[1] - a.coords@[1]) as i64],
            path_point(r, 0) == (a.coords@[0] as int, a.coords@[1] as int),
            path_point(r, 1) == (b.coords@[0] as int, b.coords@[1] as int),
    {
        let r = SurfacePath {
            origin: a,
            direction: Vector { components: [b.coords[0] - a.coords[0], b.coords[1] - a.coords[1]] },
        };
        assert(r.direction.components@ =~= seq![(b.coords@[0] - a.coords@[0]) as i64, (b.coords@[1] - a.coords@[1]) as i64]);
        r
    }

    /// The same line, traversed the other way: the point at `t` is the point
    /// of this line at `-t`
    pub fn reverse(&self) -> (r: SurfacePath)
        requires
            in_range(self.direction.components@[0] as int),
            in_range(self.direction.components@[1] as int),
        ensures
            forall|t: int| #[trigger] path_point(r, t) == path_point(*self, -t),
    {
        let r = SurfacePath {
            origin: self.origin,
            direction: Vector {
                components: [-self.direction.components[0], -self.direction.components[1]],
            },
        };
        assert forall|t: int| #[trigger] path_point(r, t) == path_point(*self, -t) by {
            assert(r.direction.components@[0] * t == self.direction.components@[0] * (-t))
                by (nonlinear_arith)
                requires
                    r.direction.components@[0] == -self.direction.components@[0],
            ;
            assert(r.direction.components@[1] * t == self.direction.components@[1] * (-t))
                by (nonlinear_arith)
                requires
                    r.direction.components@[1] == -self.direction.components@[1],
            ;
        }
        r
    }
}

/// A plane in 3D: the point at surface coordinates `(u, v)` is
/// `origin + u_dir * u + v_dir * v`
#[derive(Clone, Copy, Debug, PartialEq, Eq)]
pub struct SurfaceGeometry {
    /// The point at surface coordinates `(0, 0)`
    pub origin: Point<3>,
    /// The direction of the u axis
    pub u: Vector<3>,
    /// The direction of the v axis
    pub v: Vector<3>,
}

/// The cross product of `a` and `b`
pub open spec fn cross3(a: Vector<3>, b: Vector<3>) -> (int, int, int) {
    (
        a.components@[1] * b.components@[2] - a.components@[2] * b.components@[1],
        a.components@[2] * b.components@[0] - a.components@[0] * b.components@[2],
        a.components@[0] * b.components@[1] - a.components@[1] * b.components@[0],
    )
}

/// Whether every component of `a` lies within the modelling range
pub open spec fn vector_in_range(a: Vector<3>) -> bool {
    in_range(a.components@[0] as int) && in_range(a.components@[1] as int) && in_range(
        a.components@[2] as int,
    )
}

/// Whether every coordinate of `a` lies within the modelling range
pub open spec fn point_in_range(a: Point<3>) -> bool {
    in_range(a.coords@[0] as int) && in_range(a.coords@[1] as int) && in_range(
        a.coords@[2] as int,
    )
}

/// The signed volume spanned by the surface's axes and `path`: positive
/// where `path` points to the side of the surface's normal `u × v`
pub open spec fn normal_dot(surface: SurfaceGeometry, path: Vector<3>) -> int {
    let n = cross3(surface.u, surface.v);
    n.0 * path.components@[0] + n.1 * path.components@[1] + n.2 * path.components@[2]
}

impl SurfaceGeometry {
    /// The plane spanned by the x and y axes, through the origin
    pub fn xy_plane() -> (r: SurfaceGeometry)
        ensures
            r.origin.coords@ == seq![0i64, 0, 0],
            r.u.components@ == seq![1i64, 0, 0],
            r.v.components@ == seq![0i64, 1, 0],
    {
        let r = SurfaceGeometry {
            origin: Point { coords: [0, 0, 0] },
            u: Vector { components: [1, 0, 0] },
            v: Vector { components: [0, 1, 0] },
        };
        assert(r.origin.coords@ =~= seq![0i64, 0, 0]);
        assert(r.u.components@ =~= seq![1i64, 0, 0]);
        assert(r.v.components@ =~= seq![0i64, 1, 0]);
        r
    }

    /// Whether `path` points against the surface's normal `u × v`
    pub fn points_against_normal(&self, path: &Vector<3>) -> (r: bool)
        requires
            vector_in_range(self.u),
            vector_in_range(self.v),
            vector_in_range(*path),
        ensures
            r == (normal_dot(*self, *path) < 0),
    {
        let a = &self.u.components;
        let b = &self.v.components;
        let p = &path.components;
        let (a0, a1, a2) = (a[0] as i128, a[1] as i128, a[2] as i128);
        let (b0, b1, b2) = (b[0] as i128, b[1] as i128, b[2] as i128);
        let (p0, p1, p2) = (p[0] as i128, p[1] as i128, p[2] as i128);
        let lim = COORD_LIMIT as i128;
        proof {
            assert(-lim * lim <= a1 * b2 <= lim * lim) by (nonlinear_arith)
                requires -lim <= a1 <= lim, -lim <= b2 <= lim;
            assert(-lim * lim <= a2 * b1 <= lim * lim) by (nonlinear_arith)
                requires -lim <= a2 <= lim, -lim <= b1 <= lim;
            assert(-lim * lim <= a2 * b0 <= lim * lim) by (nonlinear_arith)
                requires -lim <= a2 <= lim, -lim <= b0 <= lim;
            assert(-lim * lim <= a0 * b2 <= lim * lim) by (nonlinear_arith)
                requires -lim <= a0 <= lim, -lim <= b2 <= lim;
            assert(-lim * lim <= a0 * b1 <= lim * lim) by (nonlinear_arith)
                requires -lim <= a0 <= lim, -lim <= b1 <= lim;
            assert(-lim * lim <= a1 * b0 <= lim * lim) by (nonlinear_arith)
                requires -lim <= a1 <= lim, -lim <= b0 <= lim;
        }
        let n0 = a1 * b2 - a2 * b1;
        let n1 = a2 * b0 - a0 * b2;
        let n2 = a0 * b1 - a1 * b0;
        proof {
            let l2 = 2 * lim * lim;
            assert(-l2 * lim <= n0 * p0 <= l2 * lim) by (nonlinear_arith)
                requires -l2 <= n0 <= l2, -lim <= p0 <= lim;
            assert(-l2 * lim <= n1 * p1 <= l2 * lim) by (nonlinear_arith)
                requires -l2 <= n1 <= l2, -lim <= p1 <= lim;
            assert(-l2 * lim <= n2 * p2 <= l2 * lim) by (nonlinear_arith)
                requires -l2 <= n2 <= l2, -lim <= p2 <= lim;
        }
        n0 * p0 + n1 * p1 + n2 * p2 < 0
    }

    /// The same plane, moved by `offset`
    pub fn translate(&self, offset: &Vector<3>) -> (r: SurfaceGeometry)
        requires
            point_in_range(self.origin),
            vector_in_range(*offset),
        ensures
            r.u == self.u,
            r.v == self.v,
            forall|i: int|
                0 <= i < 3 ==> #[trigger] r.origin.coords@[i] == self.origin.coords@[i]
                    + offset.components@[i],
    {
        let o = &self.origin.coords;
        let d = &offset.components;
        SurfaceGeometry {
            origin: Point { coords: [o[0] + d[0], o[1] + d[1], o[2] + d[2]] },
            u: self.u,
            v: self.v,
        }
    }
}

/// The point of the surface at surface coordinates `(x, y)`
pub open spec fn surface_point(s: SurfaceGeometry, x: int, y: int) -> (int, int, int) {
    (
        s.origin.coords@[0] + s.u.components@[0] * x + s.v.components@[0] * y,
        s.origin.coords@[1] + s.u.components@[1] * x + s.v.components@[1] * y,
        s.origin.coords@[2] + s.u.components@[2] * x + s.v.components@[2] * y,
    )
}

/// The vector of the surface for the step `(x, y)` in surface coordinates
pub open spec fn surface_vector(s: SurfaceGeometry, x: int, y: int) -> (int, int, int) {
    (
        s.u.components@[0] * x + s.v.components@[0] * y,
        s.u.components@[1] * x + s.v.components@[1] * y,
        s.u.components@[2] * x + s.v.components@[2] * y,
    )
}

/// Whether every component lies within the modelling range
pub open spec fn triple_in_range(t: (int, int, int)) -> bool {
    in_range(t.0) && in_range(t.1) && in_range(t.2)
}

/// Whether the surface's origin and axes lie within the modelling range
pub open spec fn surface_in_range(s: SurfaceGeometry) -> bool {
    point_in_range(s.origin) && vector_in_range(s.u) && vector_in_range(s.v)
}

/// `base + a * x + b * y`, for values within the modelling range whose
/// result is within it too
pub(crate) fn affine_component(base: i64, a: i64, x: i64, b: i64, y: i64) -> (r: i64)
    requires
        in_range(base as int),
        in_range(a as int),
        in_range(x as int),
        in_range(b as int),
        in_range(y as int),
        in_range(base + a * x + b * y),
    ensures
        r == base + a * x + b * y,
{
    let lim = COORD_LIMIT as i128;
    let (base, a, x, b, y) = (base as i128, a as i128, x as i128, b as i128, y as i128);
    proof {
        assert(-lim * lim <= a * x <= lim * lim) by (nonlinear_arith)
            requires -lim <= a <= lim, -lim <= x <= lim;
        assert(-lim * lim <= b * y <= lim * lim) by (nonlinear_arith)
            requires -lim <= b <= lim, -lim <= y <= lim;
    }
    (base + a * x + b * y) as i64
}

impl SurfaceGeometry {
    /// The plane that the line `path` of this surface sweeps out along
    /// `offset`: its u axis is the line, its v axis is `offset`
    pub fn sweep_surface_path(&self, path: &SurfacePath, offset: &Vector<3>) -> (r: SurfaceGeometry)
        requires
            surface_in_range(*self),
            in_range(path.origin.coords@[0] as int),
            in_range(path.origin.coords@[1] as int),
            in_range(path.direction.components@[0] as int),
            in_range(path.direction.components@[1] as int),
            triple_in_range(surface_point(*self, path.origin.coords@[0] as int, path.origin.coords@[1] as int)),
            triple_in_range(surface_vector(*self, path.direction.components@[0] as int, path.direction.components@[1] as int)),
        ensures
            (r.origin.coords@[0] as int, r.origin.coords@[1] as int, r.origin.coords@[2] as int)
                == surface_point(*self, path.origin.coords@[0] as int, path.origin.coords@[1] as int),
            (r.u.components@[0] as int, r.u.components@[1] as int, r.u.components@[2] as int)
                == surface_vector(*self, path.direction.components@[0] as int, path.direction.components@[1] as int),
            r.v == *offset,
    {
        let o = &self.origin.coords;
        let u = &self.u.components;
        let v = &self.v.components;
        let (px, py) = (path.origin.coords[0], path.origin.coords[1]);
        let (dx, dy) = (path.direction.components[0], path.direction.components[1]);
        SurfaceGeometry {
            origin: Point {
                coords: [
                    affine_component(o[0], u[0], px, v[0], py),
                    affine_component(o[1], u[1], px, v[1], py),
                    affine_component(o[2], u[2], px, v[2], py),
                ],
            },
            u: Vector {
                components: [
                    affine_component(0, u[0], dx, v[0], dy),
                    affine_component(0, u[1], dx, v[1], dy),
                    affine_component(0, u[2], dx, v[2], dy),
                ],
            },
            v: *offset,
        }
    }
}

} // verus!
