//! A small immediate-mode 2D rasterizer that draws into a linear scratch
//! buffer, converts that buffer into the block-linear (GOB-swizzled) layout
//! that the display hardware reads, and drives the acquire / draw / convert /
//! submit cycle of one presentation surface.

pub mod applet;
pub mod color;
pub mod square;
pub mod surface;
pub mod text;
pub mod tiling;
