use vstd::prelude::*;

verus! {

// ---------------------------------------------------------------------------
// Filesystem change events
//
// The watcher thread turns the notification backend's raw events into this
// shape; only content writes are forwarded to the reload scheduler.
// ---------------------------------------------------------------------------

/// What kind of filesystem event was observed.
#[derive(Debug, Clone, Copy, PartialEq, Eq, Structural)]
pub enum ChangeEventKind {
    Write,
    Create,
    Remove,
    Other,
}

/// One observed filesystem event, with the affected path already made
/// canonical and absolute.
#[derive(Debug, Clone)]
pub struct ChangeEvent {
    pub path: String,
    pub kind: ChangeEventKind,
}

/// Only content writes are meaningful to this library; everything else is
/// dropped by the dispatcher.
pub fn should_dispatch(event: &ChangeEvent) -> (r: bool)
    ensures
        r == (event.kind == ChangeEventKind::Write),
{
    match event.kind {
        ChangeEventKind::Write => true,
        _ => false,
    }
}

} // verus!
