//! A software rasterizer's verified core: the TGA image buffer and codec
//! that the renderer draws into, and the integer vector algebra used for
//! screen-space coordinates.

pub mod geometry;
pub mod tga;
