//! Integer and byte-level core of a tiled sphere ray tracer: the image layout and
//! its partition into row chunks for parallel workers, the depth-bounded control
//! of the path integrator, and the plain-text PPM encoding of the finished image.

pub mod frame;
pub mod integrator;
pub mod ppm;
