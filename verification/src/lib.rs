//! Convex hull of a finite set of planar points by the Graham scan.
//!
//! Points carry exact integer coordinates, so every geometric primitive
//! (orientation test, polar-angle comparison, squared distance) is computed
//! exactly and the whole algorithm is verified: `graham_scan` returns the
//! ordered sequence of indices of the hull boundary, counter-clockwise,
//! starting from the lowest-then-leftmost point.

pub mod graham_scan;
pub mod point;
pub mod util;

pub use graham_scan::graham_scan;
pub use graham_scan::HullError;
pub use point::Point;
pub use util::angle_eq;
pub use util::angle_lt;
pub use util::ccw;
pub use util::l2_norm_squared;
pub use util::polar_angle;
pub use util::Angle;
