//! Verified core of a bounded-plane flocking ("boids") simulation.
//!
//! Thousands of agents each steer by three local rules (separation,
//! cohesion, alignment) plus border avoidance, and move every frame.
//! A uniform spatial grid answers "who is near me?" without an O(N^2)
//! scan.  All coordinates are fixed-point: an `i64` holds a coordinate
//! in thousandths of a world unit, so every step of the pipeline is
//! exact integer arithmetic with a proved contract.
pub mod fixed;
pub mod flock;
pub mod grid;
pub mod vec2;
