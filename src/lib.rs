//! Glyph-atlas text renderer: a bounded texture cache of glyph coverage masks
//! with least-recently-used eviction, and the per-frame quad geometry that
//! refers to it. Every position here is an integer pixel coordinate; turning
//! them into floating-point vertex data and GPU calls is left to the caller.

pub mod atlas;
pub mod geometry;
pub mod renderer;
pub mod laws;
