pub mod fx;
pub mod vec3;
pub mod color;
pub mod geometry;
pub mod camera;
pub mod scene;
pub mod rng;
pub mod trace;
pub mod parse;
