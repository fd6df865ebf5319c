//! Boundary-representation topology: handles into an object store, ordered
//! unique handle collections, and the structural operations built on them:
//! update, split, reverse, sweep, transform and validation.

pub mod approx;
pub mod construct;
pub mod geometry;
pub mod handle;
pub mod handles;
pub mod objects;
pub mod replace;
pub mod reverse;
pub mod sibling;
pub mod split;
pub mod sweep;
pub mod sweep_shell;
pub mod transform;
pub mod update;
pub mod validate;
pub mod winding;

pub use approx::FaceApprox;
pub use construct::model;
pub use geometry::{Point, SurfaceGeometry, SurfacePath, Vector, Winding, COORD_LIMIT};
pub use handle::{Handle, Store};
pub use handles::Handles;
pub use objects::{Color, Curve, Cycle, Face, HalfEdge, Instance, Region, Shell, Solid, Surface, Vertex};
pub use sweep::{SweepCache, SweptCycle, SweptRegion};
pub use sweep_shell::{create_bottom_face, SweepError};
pub use transform::TransformCache;
pub use validate::{CycleValidationError, EdgeValidationError, ValidationConfig, ValidationError};
