//! A turn-based defence simulation: an entity/component store, a spatial index, the per-tick
//! system pipeline, the turn controller and a procedural level generator.
pub mod ai;
pub mod combat;
pub mod components;
pub mod demo;
pub mod game;
pub mod level_generator;
pub mod logger;
pub mod map;
pub mod movement;
pub mod rng;
pub mod store;
pub mod tree_growth;
pub mod world;
