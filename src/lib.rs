//! A bouncing-balls animation core: a packed-colour pixel buffer, drawing
//! primitives that clip every write to the buffer, balls that move and bounce
//! off the walls, and the per-frame composition of a scene.
pub mod ball;
pub mod random;
pub mod raster;
pub mod scene;
