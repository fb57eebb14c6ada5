//! Exact-arithmetic core of a Monte Carlo path tracer.
//!
//! Geometry lives on the integer lattice and ray parameters are exact
//! fractions, so every comparison below is decided without rounding:
//! bounding boxes with the slab test, axis-orthogonal rectangles and their
//! decorators (flipped normals, translation, motion, union), the sphere
//! quadratic, a bounding volume hierarchy whose nearest hit agrees with a
//! linear scan, orthogonal frames around a normal, Schlick's reflectance,
//! the bounce control of the path integrator, and the permutation tables of
//! gradient noise.
pub mod aabb;
pub mod axis;
pub mod bvh;
pub mod integrator;
pub mod onb;
pub mod perlin;
pub mod ray;
pub mod rect;
pub mod reflectance;
pub mod scene;
pub mod shape;
pub mod sphere;
pub mod vec3;
