use vstd::prelude::*;

verus! {

/// What a graphics buffer is used for; the rendering front end maps each
/// variant to its graphics-API constant.
#[derive(Debug, Clone, Copy, PartialEq, Eq, Structural)]
pub enum BufferType {
    VertexBuffer,
    IndexBuffer,
    FrameBuffer,
}

} // verus!
