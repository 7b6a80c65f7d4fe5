pub mod bounds;
pub mod bvh;
pub mod command_line;
pub mod math;
pub mod ray;
pub mod sphere;
pub mod triangle;
pub mod world;
