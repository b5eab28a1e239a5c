use vstd::prelude::*;

verus! {

/// First person camera movement.
#[derive(Debug, Clone, Copy, PartialEq, Eq, Structural)]
pub enum CameraMovement {
    MoveForward,
    MoveBackward,
    StrafeLeft,
    StrafeRight,
    Reset,
}

} // verus!
