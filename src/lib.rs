//! A frame-driven simulation of circular (2-D) or spherical (3-D) bodies in
//! integer fixed-point arithmetic: a uniform-grid spatial index, pairwise
//! collision response, boundary containment, integration and an adaptive
//! sub-step controller.
pub mod arith;
pub mod vector;
pub mod body;
pub mod spatial_hash;
pub mod fps_counter;
pub mod controller;
pub mod integrate;
pub mod simulation;
