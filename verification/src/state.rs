use vstd::prelude::*;

verus! {

/// How strongly a held modifier key scales time seeking.
#[derive(Debug, Clone, Copy, PartialEq, Eq, Structural)]
pub enum ActionModifier {
    /// Shift and control together.
    SuperSlow,
    /// Shift alone.
    Slow,
    Normal,
    /// Control alone.
    Fast,
}

/// Running or paused.
#[derive(Debug, Clone, Copy, PartialEq, Eq, Structural)]
pub enum PlayMode {
    Playing,
    Paused,
}

impl Default for PlayMode {
    fn default() -> (r: Self)
        ensures
            r == PlayMode::Paused,
    {
        PlayMode::Paused
    }
}

} // verus!
