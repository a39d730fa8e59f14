//! A CPU-only software renderer for a small orbital system: a packed-pixel
//! frame buffer, integer rasterization primitives, sprite blitting and
//! texture decoding into packed pixels, and the checks on the body
//! hierarchy.

pub mod body;
pub mod draw2d;
pub mod framebuffer;
pub mod hierarchy;
pub mod input;
pub mod renderer;
pub mod texture;

pub use body::BodyKind;
pub use draw2d::Draw2D;
pub use framebuffer::FrameBuffer;
pub use hierarchy::parents_form_forest;
pub use input::InputState;
pub use renderer::Renderer;
pub use texture::Texture;
