//! Scene-intersection support for a Monte-Carlo ray tracer: ordered keys for
//! floating-point coordinates and times, axis-aligned bounding boxes, the
//! nearest-hit reduction of a list of primitives, construction and traversal
//! of a bounding volume hierarchy, and the sign rules of the metal and checker
//! materials. The arithmetic on coordinates stays with the caller.
pub mod key;
pub mod aabb;
pub mod list;
pub mod bvh;
pub mod material;
