pub mod camera;
pub mod fixed;
pub mod geom;
pub mod material;
pub mod math_util;
pub mod physics;
pub mod render;
pub mod trig;

pub use camera::Camera;
pub use fixed::{FX_HALF, FX_ONE};
pub use geom::{GeomList, HitRecord, Ray, Sphere};
pub use material::{Glass, Lambertian, Material, Metal};
pub use math_util::{Rng, V3, rand, rand_disk, rand_hemisphere, rand_in, rand_v3};
pub use render::{Frame, RenderOption, World};
pub use trig::PI;
