//! A spatial index and a position-based physics core for circular bodies.
//!
//! - `geometry`: integer points and closed axis-aligned rectangles.
//! - `quadtree`: a region quadtree of object ids, rebuilt from scratch each
//!   frame (`rebuild_quadtree`), with broad-phase queries.
//! - `verlet`: Verlet bodies and a substepped solver with a circular container
//!   and pairwise separation.
//! - `arith`: saturation, rounding and integer roots used by the physics.
//! - `session`: the client's connection states and the server's login check.
//!
//! Coordinates are integers: the host picks a unit of length (the solver's
//! defaults use micro-pixels, `verlet::UNITS_PER_PIXEL`) and converts at its
//! edge.
pub mod geometry;
pub mod quadtree;
pub mod arith;
pub mod verlet;
pub mod session;
