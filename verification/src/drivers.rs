pub mod colors;
pub mod framebuffer;
